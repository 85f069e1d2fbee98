//! The credential store and its verified text codec.

use vstd::prelude::*;

use indexmap::IndexMap;

use vstd::string::StrSliceExecFns;
use vstd::string::StringExecFns;

use crate::imap::entries_of;
use crate::imap::imap_clear;
use crate::imap::imap_clone;
use crate::imap::imap_entry;
use crate::imap::imap_get;
use crate::imap::imap_insert;
use crate::imap::imap_len;
use crate::imap::imap_new;
use crate::model::Entry;
use crate::model::all_valid;
use crate::model::has_key;
use crate::model::line_of;
use crate::model::opt_chars;
use crate::model::parse_line;
use crate::model::parse_lines;
use crate::model::parse_text;
use crate::model::serialize;
use crate::model::spec_get;
use crate::model::spec_insert;
use crate::model::split_lines;
use crate::model::unique_keys;
use crate::model::valid_entry;
use crate::model::valid_password;
use crate::model::valid_username;

verus! {

/// The error `write` returns when an entry holds a character the text
/// format cannot carry: a colon or newline in a username, or a newline in
/// a password.
#[derive(Clone, Copy, Debug, PartialEq, Eq, Structural)]
pub enum CredsError {
    InvalidData,
}

/// A credential store: username/password pairs in insertion order, at most
/// one password per username.
#[derive(Debug)]
pub struct Creds {
    map: IndexMap<String, String>,
}

impl View for Creds {
    type V = Seq<Entry>;

    closed spec fn view(&self) -> Seq<Entry> {
        entries_of(self.map)
    }
}

impl Creds {
    /// The store never holds two entries with the same username.
    pub open spec fn wf(&self) -> bool {
        unique_keys(self@)
    }

    /// Create a new empty credential store.
    pub fn new() -> (r: Self)
        ensures
            r@ == Seq::<Entry>::empty(),
            r.wf(),
    {
        Creds { map: imap_new() }
    }

    /// Remove all stored credentials, leaving the store empty.
    pub fn clear(&mut self)
        ensures
            final(self)@ == Seq::<Entry>::empty(),
            final(self).wf(),
    {
        imap_clear(&mut self.map);
    }

    /// Add a username and password pair.  If a password already exists for
    /// the username, it is overwritten in place: the entry keeps its
    /// position in the order.  Otherwise the pair goes last.
    ///
    /// The restriction that the username holds no colon or newline and the
    /// password no newline is not enforced here; only `write` enforces it.
    pub fn insert(&mut self, username: String, password: String)
        ensures
            final(self)@ == spec_insert(old(self)@, username@, password@),
            old(self).wf() ==> final(self).wf(),
    {
        let ghost m = self@;
        let ghost u = username@;
        let ghost p = password@;
        imap_insert(&mut self.map, username, password);
        proof {
            if unique_keys(m) {
                crate::model::lemma_insert_unique(m, u, p);
            }
        }
    }

    /// Retrieve the stored password for the given username, or `None` when
    /// the username is not in the store.
    pub fn get(&self, username: &str) -> (r: Option<String>)
        ensures
            opt_chars(r) == spec_get(self@, username@),
            r is None <==> !has_key(self@, username@),
    {
        let r = imap_get(&self.map, username);
        proof {
            crate::model::lemma_get_none_iff_absent(self@, username@);
        }
        r
    }

    /// Lookup that treats an absent username as a caller error: callers
    /// establish that the username is present, and the result is its stored
    /// password, never a default.  Reached from unverified code with an
    /// absent username it stops the process instead of returning a value.
    pub fn index(&self, username: &str) -> (r: String)
        requires
            has_key(self@, username@),
        ensures
            spec_get(self@, username@) == Some(r@),
    {
        let r = self.get(username);
        r.unwrap()
    }

    /// Serialize the store as one `<username>:<password>` line per entry,
    /// in insertion order.  Fails, producing nothing, when some username
    /// holds a colon or newline or some password holds a newline.
    pub fn write(&self) -> (r: Result<String, CredsError>)
        ensures
            match r {
                Ok(s) => all_valid(self@) && s@ == serialize(self@),
                Err(e) => !all_valid(self@) && e == CredsError::InvalidData,
            },
    {
        let n = imap_len(&self.map);
        let mut out = String::new();
        let mut i: usize = 0;
        while i < n
            invariant
                n == self@.len(),
                i <= n,
                forall|j: int| 0 <= j < i ==> valid_entry(#[trigger] self@[j]),
                out@ == serialize(self@.take(i as int)),
            decreases n - i,
        {
            let (username, password) = imap_entry(&self.map, i);
            proof {
                assert((username@, password@) == self@[i as int]);
            }
            if !check_username(username.as_str()) {
                proof {
                    assert(!valid_entry(self@[i as int]));
                    assert(!all_valid(self@));
                }
                return Err(CredsError::InvalidData);
            }
            if !check_password(password.as_str()) {
                proof {
                    assert(!valid_entry(self@[i as int]));
                    assert(!all_valid(self@));
                }
                return Err(CredsError::InvalidData);
            }
            let ghost before = out@;
            out.append(username.as_str());
            out.append(":");
            out.append(password.as_str());
            out.append("\n");
            proof {
                reveal_strlit(":");
                reveal_strlit("\n");
                assert((":")@ =~= seq![':']);
                assert(("\n")@ =~= seq!['\n']);
                crate::model::lemma_serialize_push(self@.take(i as int), self@[i as int]);
                assert(self@.take(i as int).push(self@[i as int]) =~= self@.take(i as int + 1));
                assert(out@ =~= before + line_of(self@[i as int]));
            }
            i += 1;
        }
        proof {
            assert(self@.take(n as int) =~= self@);
        }
        Ok(out)
    }

    /// Parse a store from text: each line is split at its first colon into
    /// a username and a password, lines without a colon are skipped, and a
    /// later line for an already seen username overwrites its password in
    /// place.
    pub fn read(input: &str) -> (r: Self)
        ensures
            r@ == parse_text(input@),
            r.wf(),
    {
        let n = input.unicode_len();
        let mut creds = Creds::new();
        let mut pos: usize = 0;
        proof {
            assert(input@.skip(0) =~= input@);
        }
        while pos < n
            invariant
                n == input@.len(),
                pos <= n,
                creds.wf(),
                parse_lines(split_lines(input@.skip(pos as int)), creds@) == parse_text(input@),
            decreases n - pos,
        {
            let end = find_from(input, pos, '\n');
            let line = input.substring_char(pos, end);
            let linelen = end - pos;
            let ghost w = input@.subrange(pos as int, end as int);
            let ghost old_creds = creds@;
            proof {
                assert(line@ == w);
                assert(forall|k: int| 0 <= k < w.len() ==> w[k] != '\n') by {
                    assert forall|k: int| 0 <= k < w.len() implies w[k] != '\n' by {
                        assert(w[k] == input@[pos as int + k]);
                    }
                }
            }
            let c = find_from(line, 0, ':');
            if c < linelen {
                let username = String::from_str(line.substring_char(0, c));
                let password = String::from_str(line.substring_char(c + 1, linelen));
                let ghost u = username@;
                let ghost p = password@;
                creds.insert(username, password);
                proof {
                    assert(u == w.subrange(0, c as int));
                    assert(p == w.subrange(c as int + 1, w.len() as int));
                    assert(w =~= u + seq![':'] + p);
                    assert(forall|k: int| 0 <= k < u.len() ==> u[k] != ':') by {
                        assert forall|k: int| 0 <= k < u.len() implies u[k] != ':' by {
                            assert(u[k] == line@[k]);
                        }
                    }
                    crate::model::lemma_split_colon_of_join(u, p);
                    assert(creds@ == spec_insert(old_creds, u, p));
                    assert(parse_line(old_creds, w) == creds@);
                }
            } else {
                proof {
                    crate::model::lemma_split_colon_none(w);
                    assert(parse_line(old_creds, w) == creds@);
                }
            }
            proof {
                if end < n {
                    assert(input@[end as int] == '\n');
                    assert(input@.skip(pos as int) =~= w + seq!['\n'] + input@.skip(
                        end as int + 1,
                    ));
                    crate::model::lemma_split_lines_newline(
                        w,
                        input@.skip(end as int + 1),
                        Seq::empty(),
                    );
                    assert(Seq::<char>::empty() + w =~= w);
                    let ls = split_lines(input@.skip(end as int + 1));
                    assert(split_lines(input@.skip(pos as int)) == seq![w] + ls);
                    assert((seq![w] + ls).drop_first() =~= ls);
                    assert((seq![w] + ls)[0] == w);
                    assert(parse_lines(seq![w] + ls, old_creds) == parse_lines(
                        ls,
                        parse_line(old_creds, w),
                    ));
                } else {
                    assert(input@.skip(pos as int) =~= w);
                    crate::model::lemma_split_lines_last(w, Seq::empty());
                    assert(Seq::<char>::empty() + w =~= w);
                    assert(w.len() > 0);
                    assert(split_lines(input@.skip(pos as int)) == seq![w]);
                    assert((seq![w]).drop_first() =~= Seq::<Seq<char>>::empty());
                    assert(parse_lines(seq![w], old_creds) == parse_lines(
                        Seq::<Seq<char>>::empty(),
                        parse_line(old_creds, w),
                    ));
                    assert(input@.skip(n as int) =~= Seq::<char>::empty());
                }
            }
            pos = if end < n {
                end + 1
            } else {
                n
            };
        }
        proof {
            assert(input@.skip(n as int) =~= Seq::<char>::empty());
        }
        creds
    }
}

/// First position at or after `from` holding `target`, or the length when
/// there is none.
fn find_from(s: &str, from: usize, target: char) -> (r: usize)
    requires
        from <= s@.len(),
    ensures
        from <= r <= s@.len(),
        forall|j: int| from <= j < r ==> s@[j] != target,
        r < s@.len() ==> s@[r as int] == target,
{
    let n = s.unicode_len();
    let mut i: usize = from;
    while i < n
        invariant
            n == s@.len(),
            from <= i <= n,
            forall|j: int| from <= j < i ==> s@[j] != target,
        decreases n - i,
    {
        if s.get_char(i) == target {
            return i;
        }
        i += 1;
    }
    n
}

/// Whether the text format can carry this username: no colon, no newline.
fn check_username(s: &str) -> (r: bool)
    ensures
        r == valid_username(s@),
{
    let n = s.unicode_len();
    let a = find_from(s, 0, ':');
    if a < n {
        proof {
            assert(s@[a as int] == ':');
        }
        return false;
    }
    let b = find_from(s, 0, '\n');
    if b < n {
        proof {
            assert(s@[b as int] == '\n');
        }
        return false;
    }
    true
}

/// Whether the text format can carry this password: no newline.
fn check_password(s: &str) -> (r: bool)
    ensures
        r == valid_password(s@),
{
    let n = s.unicode_len();
    let b = find_from(s, 0, '\n');
    if b < n {
        proof {
            assert(s@[b as int] == '\n');
        }
        return false;
    }
    true
}

impl Clone for Creds {
    /// The copy holds the same entries in the same order.
    fn clone(&self) -> (r: Self)
        ensures
            r@ == self@,
    {
        Creds { map: imap_clone(&self.map) }
    }
}

impl Default for Creds {
    /// The default store is empty.
    fn default() -> (r: Self)
        ensures
            r@ == Seq::<Entry>::empty(),
            r.wf(),
    {
        Creds::new()
    }
}

} // verus!
