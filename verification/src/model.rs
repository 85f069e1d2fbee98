//! The mathematical model of the credential store and of its text format.
//!
//! A store is modelled as a sequence of entries, each a pair of the
//! username's characters and the password's characters, in insertion order
//! with at most one entry per username.  The text format puts one entry per
//! line as `<username>:<password>` followed by a newline; on parsing, a line
//! is split at its first colon and a line without a colon is skipped.
//!
//! The split at the *first* colon is what makes the round trip safe: a
//! password may legally contain colons, and the parse still recovers it only
//! because usernames are barred from containing one.  Any relaxation of the
//! username restriction would silently corrupt such entries.

use vstd::prelude::*;

verus! {

/// One stored entry: the username's characters and the password's characters.
pub type Entry = (Seq<char>, Seq<char>);

/// A username the text format can carry: no colon, no newline.
pub open spec fn valid_username(u: Seq<char>) -> bool {
    forall|i: int| 0 <= i < u.len() ==> u[i] != ':' && u[i] != '\n'
}

/// A password the text format can carry: no newline.
pub open spec fn valid_password(p: Seq<char>) -> bool {
    forall|i: int| 0 <= i < p.len() ==> p[i] != '\n'
}

/// An entry every character of which the text format can carry.
pub open spec fn valid_entry(e: Entry) -> bool {
    valid_username(e.0) && valid_password(e.1)
}

/// Every entry of the store can be carried by the text format.
pub open spec fn all_valid(m: Seq<Entry>) -> bool {
    forall|i: int| 0 <= i < m.len() ==> valid_entry(#[trigger] m[i])
}

/// No two entries share a username.
pub open spec fn unique_keys(m: Seq<Entry>) -> bool {
    forall|i: int, j: int|
        0 <= i < j < m.len() ==> (#[trigger] m[i]).0 != (#[trigger] m[j]).0
}

/// Some entry holds this username.
pub open spec fn has_key(m: Seq<Entry>, u: Seq<char>) -> bool {
    exists|i: int| 0 <= i < m.len() && (#[trigger] m[i]).0 == u
}

/// The password stored for a username: the value of the first entry with
/// that username, or `None` when there is none.
pub open spec fn spec_get(m: Seq<Entry>, u: Seq<char>) -> Option<Seq<char>>
    decreases m.len(),
{
    if m.len() == 0 {
        None
    } else if m[0].0 == u {
        Some(m[0].1)
    } else {
        spec_get(m.drop_first(), u)
    }
}

/// Inserting a pair: an existing username keeps its place in the order and
/// has its password replaced; a new username goes last.
pub open spec fn spec_insert(m: Seq<Entry>, u: Seq<char>, p: Seq<char>) -> Seq<Entry>
    decreases m.len(),
{
    if m.len() == 0 {
        seq![(u, p)]
    } else if m[0].0 == u {
        seq![(u, p)] + m.drop_first()
    } else {
        seq![m[0]] + spec_insert(m.drop_first(), u, p)
    }
}

/// The line an entry serializes to, newline included.
pub open spec fn line_of(e: Entry) -> Seq<char> {
    e.0 + seq![':'] + e.1 + seq!['\n']
}

/// The text a store serializes to: each entry's line, in store order.
pub open spec fn serialize(m: Seq<Entry>) -> Seq<char>
    decreases m.len(),
{
    if m.len() == 0 {
        Seq::empty()
    } else {
        line_of(m[0]) + serialize(m.drop_first())
    }
}

/// Splitting a line at its first colon: everything before it is the
/// username, everything after it is the password.  A line without a colon
/// yields nothing.
pub open spec fn split_first_colon(l: Seq<char>) -> Option<Entry>
    decreases l.len(),
{
    if l.len() == 0 {
        None
    } else if l[0] == ':' {
        Some((Seq::empty(), l.drop_first()))
    } else {
        match split_first_colon(l.drop_first()) {
            Some(e) => Some((seq![l[0]] + e.0, e.1)),
            None => None,
        }
    }
}

/// Splitting text into lines at newline characters, the terminators
/// stripped; `cur` is the part of the current line already read.  Text after
/// the last newline forms a final line; a trailing newline adds no empty
/// line.
pub open spec fn split_lines_rec(t: Seq<char>, cur: Seq<char>) -> Seq<Seq<char>>
    decreases t.len(),
{
    if t.len() == 0 {
        if cur.len() == 0 {
            Seq::empty()
        } else {
            seq![cur]
        }
    } else if t[0] == '\n' {
        seq![cur] + split_lines_rec(t.drop_first(), Seq::empty())
    } else {
        split_lines_rec(t.drop_first(), cur.push(t[0]))
    }
}

/// The lines of a text.
pub open spec fn split_lines(t: Seq<char>) -> Seq<Seq<char>> {
    split_lines_rec(t, Seq::empty())
}

/// One parsed line applied to a store: a line with a colon is inserted as a
/// pair, a line without one is skipped.
pub open spec fn parse_line(m: Seq<Entry>, l: Seq<char>) -> Seq<Entry> {
    match split_first_colon(l) {
        Some(e) => spec_insert(m, e.0, e.1),
        None => m,
    }
}

/// All lines applied in order to a store, later lines overwriting earlier
/// ones with the same username.
pub open spec fn parse_lines(ls: Seq<Seq<char>>, m: Seq<Entry>) -> Seq<Entry>
    decreases ls.len(),
{
    if ls.len() == 0 {
        m
    } else {
        parse_lines(ls.drop_first(), parse_line(m, ls[0]))
    }
}

/// The store a text parses to.
pub open spec fn parse_text(t: Seq<char>) -> Seq<Entry> {
    parse_lines(split_lines(t), Seq::empty())
}

/// An optional password's characters.
pub open spec fn opt_chars(o: Option<String>) -> Option<Seq<char>> {
    match o {
        Some(s) => Some(s@),
        None => None,
    }
}

/// A lookup misses exactly on the usernames the store does not hold: `get`
/// answers absence with `None`, never with a failure.
pub proof fn lemma_get_none_iff_absent(m: Seq<Entry>, u: Seq<char>)
    ensures
        spec_get(m, u) is None <==> !has_key(m, u),
    decreases m.len(),
{
    if m.len() == 0 {
    } else if m[0].0 == u {
        assert(has_key(m, u));
    } else {
        lemma_get_none_iff_absent(m.drop_first(), u);
        if has_key(m, u) {
            let i = choose|i: int| 0 <= i < m.len() && (#[trigger] m[i]).0 == u;
            assert(m.drop_first()[i - 1].0 == u);
            assert(has_key(m.drop_first(), u));
        }
        if has_key(m.drop_first(), u) {
            let i = choose|i: int| 0 <= i < m.drop_first().len() && (#[trigger] m.drop_first()[i]).0 == u;
            assert(m[i + 1].0 == u);
            assert(has_key(m, u));
        }
    }
}

/// Inserting never creates a second entry for a username: a store with
/// unique usernames keeps them unique.
pub proof fn lemma_insert_unique(m: Seq<Entry>, u: Seq<char>, p: Seq<char>)
    requires
        unique_keys(m),
    ensures
        unique_keys(spec_insert(m, u, p)),
    decreases m.len(),
{
    let r = spec_insert(m, u, p);
    if m.len() == 0 {
        assert(r =~= seq![(u, p)]);
    } else if m[0].0 == u {
        assert forall|i: int, j: int| 0 <= i < j < r.len() implies r[i].0 != r[j].0 by {
            if i == 0 {
                assert(r[j] == m.drop_first()[j - 1]);
                assert(r[j] == m[j]);
                assert(m[0].0 != m[j].0);
            } else {
                assert(r[i] == m[i] && r[j] == m[j]);
            }
        }
    } else {
        assert(unique_keys(m.drop_first())) by {
            assert forall|i: int, j: int|
                0 <= i < j < m.drop_first().len() implies (#[trigger] m.drop_first()[i]).0
                != (#[trigger] m.drop_first()[j]).0 by {
                assert(m.drop_first()[i] == m[i + 1]);
                assert(m.drop_first()[j] == m[j + 1]);
            }
        }
        lemma_insert_unique(m.drop_first(), u, p);
        let rr = spec_insert(m.drop_first(), u, p);
        lemma_insert_keys(m.drop_first(), u, p);
        assert forall|i: int, j: int| 0 <= i < j < r.len() implies r[i].0 != r[j].0 by {
            if i == 0 {
                assert(r[j] == rr[j - 1]);
                if has_key(m.drop_first(), rr[j - 1].0) {
                    let k = choose|k: int|
                        0 <= k < m.drop_first().len() && (#[trigger] m.drop_first()[k]).0 == rr[j
                            - 1].0;
                    assert(m[k + 1].0 == rr[j - 1].0);
                    assert(m[0].0 != m[k + 1].0);
                } else {
                    assert(rr[j - 1].0 == u);
                }
            } else {
                assert(r[i] == rr[i - 1] && r[j] == rr[j - 1]);
            }
        }
    }
}

/// Every username after an insert is either one that was already present or
/// the inserted one.
proof fn lemma_insert_keys(m: Seq<Entry>, u: Seq<char>, p: Seq<char>)
    ensures
        forall|j: int|
            0 <= j < spec_insert(m, u, p).len() ==> has_key(
                m,
                (#[trigger] spec_insert(m, u, p)[j]).0,
            ) || spec_insert(m, u, p)[j].0 == u,
    decreases m.len(),
{
    let r = spec_insert(m, u, p);
    if m.len() == 0 {
    } else if m[0].0 == u {
        assert forall|j: int| 0 <= j < r.len() implies has_key(m, (#[trigger] r[j]).0) || r[j].0
            == u by {
            if j > 0 {
                assert(r[j] == m[j]);
                assert(has_key(m, m[j].0));
            }
        }
    } else {
        lemma_insert_keys(m.drop_first(), u, p);
        let rr = spec_insert(m.drop_first(), u, p);
        assert forall|j: int| 0 <= j < r.len() implies has_key(m, (#[trigger] r[j]).0) || r[j].0
            == u by {
            if j == 0 {
                assert(r[0] == m[0]);
                assert(has_key(m, m[0].0));
            } else {
                assert(r[j] == rr[j - 1]);
                if has_key(m.drop_first(), rr[j - 1].0) {
                    let k = choose|k: int|
                        0 <= k < m.drop_first().len() && (#[trigger] m.drop_first()[k]).0 == rr[j
                            - 1].0;
                    assert(m[k + 1].0 == rr[j - 1].0);
                    assert(has_key(m, r[j].0));
                }
            }
        }
    }
}

/// Inserting a username the store does not hold appends the pair.
pub proof fn lemma_insert_absent_is_push(m: Seq<Entry>, u: Seq<char>, p: Seq<char>)
    requires
        !has_key(m, u),
    ensures
        spec_insert(m, u, p) == m.push((u, p)),
    decreases m.len(),
{
    if m.len() == 0 {
        assert(spec_insert(m, u, p) =~= m.push((u, p)));
    } else {
        assert(m[0].0 != u);
        assert(!has_key(m.drop_first(), u)) by {
            if has_key(m.drop_first(), u) {
                let i = choose|i: int|
                    0 <= i < m.drop_first().len() && (#[trigger] m.drop_first()[i]).0 == u;
                assert(m[i + 1].0 == u);
            }
        }
        lemma_insert_absent_is_push(m.drop_first(), u, p);
        assert(seq![m[0]] + m.drop_first().push((u, p)) =~= m.push((u, p)));
    }
}

/// Splitting a line built from a colonless username, a colon, and a
/// password recovers the two parts exactly.
pub proof fn lemma_split_colon_of_join(u: Seq<char>, p: Seq<char>)
    requires
        forall|i: int| 0 <= i < u.len() ==> u[i] != ':',
    ensures
        split_first_colon(u + seq![':'] + p) == Some((u, p)),
    decreases u.len(),
{
    let l = u + seq![':'] + p;
    if u.len() == 0 {
        assert(l[0] == ':');
        assert(l.drop_first() =~= p);
        assert(split_first_colon(l) == Some((Seq::<char>::empty(), p)));
        assert(Seq::<char>::empty() =~= u);
    } else {
        assert(l[0] == u[0]);
        assert(l[0] != ':');
        lemma_split_colon_of_join(u.drop_first(), p);
        assert(l.drop_first() =~= u.drop_first() + seq![':'] + p);
        assert(seq![u[0]] + u.drop_first() =~= u);
    }
}

/// A line without a colon splits to nothing.
pub proof fn lemma_split_colon_none(l: Seq<char>)
    requires
        forall|i: int| 0 <= i < l.len() ==> l[i] != ':',
    ensures
        split_first_colon(l) is None,
    decreases l.len(),
{
    if l.len() == 0 {
    } else {
        assert(l[0] != ':');
        lemma_split_colon_none(l.drop_first());
    }
}

/// A newlineless prefix up to a newline forms one line; the rest of the
/// text is split on its own.
pub proof fn lemma_split_lines_newline(w: Seq<char>, rest: Seq<char>, cur: Seq<char>)
    requires
        forall|i: int| 0 <= i < w.len() ==> w[i] != '\n',
    ensures
        split_lines_rec(w + seq!['\n'] + rest, cur) == seq![cur + w] + split_lines_rec(
            rest,
            Seq::empty(),
        ),
    decreases w.len(),
{
    let t = w + seq!['\n'] + rest;
    if w.len() == 0 {
        assert(t[0] == '\n');
        assert(t.drop_first() =~= rest);
        assert(cur + w =~= cur);
    } else {
        assert(t[0] == w[0]);
        assert(t[0] != '\n');
        lemma_split_lines_newline(w.drop_first(), rest, cur.push(w[0]));
        assert(t.drop_first() =~= w.drop_first() + seq!['\n'] + rest);
        assert(cur.push(w[0]) + w.drop_first() =~= cur + w);
    }
}

/// Text without a newline forms at most one line: none when it and the part
/// already read are both empty, one line otherwise.
pub proof fn lemma_split_lines_last(w: Seq<char>, cur: Seq<char>)
    requires
        forall|i: int| 0 <= i < w.len() ==> w[i] != '\n',
    ensures
        (cur + w).len() == 0 ==> split_lines_rec(w, cur) == Seq::<Seq<char>>::empty(),
        (cur + w).len() != 0 ==> split_lines_rec(w, cur) == seq![cur + w],
    decreases w.len(),
{
    if w.len() == 0 {
        assert(cur + w =~= cur);
    } else {
        assert(w[0] != '\n');
        lemma_split_lines_last(w.drop_first(), cur.push(w[0]));
        assert(cur.push(w[0]) + w.drop_first() =~= cur + w);
        assert((cur + w).len() != 0);
    }
}

/// Serializing one more entry appends its line to the text.
pub proof fn lemma_serialize_push(m: Seq<Entry>, e: Entry)
    ensures
        serialize(m.push(e)) == serialize(m) + line_of(e),
    decreases m.len(),
{
    if m.len() == 0 {
        assert(m.push(e)[0] == e);
        assert(m.push(e).drop_first() =~= Seq::<Entry>::empty());
        assert(serialize(m.push(e)) == line_of(e) + serialize(Seq::<Entry>::empty()));
        assert(serialize(Seq::<Entry>::empty()) == Seq::<char>::empty());
        assert(line_of(e) + Seq::<char>::empty() =~= Seq::<char>::empty() + line_of(e));
    } else {
        assert(m.push(e)[0] == m[0]);
        assert(m.push(e).drop_first() =~= m.drop_first().push(e));
        lemma_serialize_push(m.drop_first(), e);
        assert(line_of(m[0]) + (serialize(m.drop_first()) + line_of(e)) =~= (line_of(m[0])
            + serialize(m.drop_first())) + line_of(e));
    }
}

/// Parsing the serialized form of a store whose entries are all valid and
/// whose usernames are unique, on top of entries none of those usernames
/// appear in, appends the store's entries unchanged.
proof fn lemma_parse_serialize(m: Seq<Entry>, acc: Seq<Entry>)
    requires
        all_valid(m),
        unique_keys(m),
        forall|i: int| 0 <= i < m.len() ==> !has_key(acc, (#[trigger] m[i]).0),
    ensures
        parse_lines(split_lines(serialize(m)), acc) == acc + m,
    decreases m.len(),
{
    if m.len() == 0 {
        assert(serialize(m) == Seq::<char>::empty());
        assert(split_lines(Seq::<char>::empty()) == Seq::<Seq<char>>::empty());
        assert(acc + m =~= acc);
    } else {
        let e = m[0];
        let w = e.0 + seq![':'] + e.1;
        let rest = serialize(m.drop_first());
        assert(valid_entry(e));
        assert(serialize(m) =~= w + seq!['\n'] + rest) by {
            assert(serialize(m) == line_of(e) + rest);
        }
        assert(forall|i: int| 0 <= i < w.len() ==> w[i] != '\n') by {
            assert forall|i: int| 0 <= i < w.len() implies w[i] != '\n' by {
                if i < e.0.len() {
                    assert(w[i] == e.0[i]);
                } else if i == e.0.len() {
                    assert(w[i] == ':');
                } else {
                    assert(w[i] == e.1[i - e.0.len() - 1]);
                }
            }
        }
        lemma_split_lines_newline(w, rest, Seq::empty());
        assert(Seq::<char>::empty() + w =~= w);
        let ls = split_lines(rest);
        assert(split_lines(serialize(m)) == seq![w] + ls);
        assert((seq![w] + ls).drop_first() =~= ls);
        assert((seq![w] + ls)[0] == w);
        assert(parse_lines(seq![w] + ls, acc) == parse_lines(ls, parse_line(acc, w)));
        assert(forall|i: int| 0 <= i < e.0.len() ==> e.0[i] != ':');
        lemma_split_colon_of_join(e.0, e.1);
        assert(parse_line(acc, w) == spec_insert(acc, e.0, e.1));
        assert(!has_key(acc, e.0)) by {
            assert(m[0].0 == e.0);
        }
        lemma_insert_absent_is_push(acc, e.0, e.1);
        assert(e =~= (e.0, e.1));
        let acc2 = acc.push(e);
        assert(spec_insert(acc, e.0, e.1) == acc2);
        assert(all_valid(m.drop_first())) by {
            assert forall|i: int| 0 <= i < m.drop_first().len() implies valid_entry(
                #[trigger] m.drop_first()[i],
            ) by {
                assert(m.drop_first()[i] == m[i + 1]);
                assert(valid_entry(m[i + 1]));
            }
        }
        assert(unique_keys(m.drop_first())) by {
            assert forall|i: int, j: int|
                0 <= i < j < m.drop_first().len() implies (#[trigger] m.drop_first()[i]).0
                != (#[trigger] m.drop_first()[j]).0 by {
                assert(m.drop_first()[i] == m[i + 1]);
                assert(m.drop_first()[j] == m[j + 1]);
            }
        }
        assert(forall|i: int|
            0 <= i < m.drop_first().len() ==> !has_key(acc2, (#[trigger] m.drop_first()[i]).0)) by {
            assert forall|i: int| 0 <= i < m.drop_first().len() implies !has_key(
                acc2,
                (#[trigger] m.drop_first()[i]).0,
            ) by {
                assert(m.drop_first()[i] == m[i + 1]);
                let k = m[i + 1].0;
                assert(!has_key(acc, k));
                assert(k != e.0) by {
                    assert(m[0].0 != m[i + 1].0);
                }
                if has_key(acc2, k) {
                    let j = choose|j: int| 0 <= j < acc2.len() && (#[trigger] acc2[j]).0 == k;
                    if j < acc.len() {
                        assert(acc[j].0 == k);
                        assert(has_key(acc, k));
                    } else {
                        assert(acc2[j] == e);
                    }
                }
            }
        }
        lemma_parse_serialize(m.drop_first(), acc2);
        assert(parse_lines(ls, acc2) == acc2 + m.drop_first());
        assert(acc2 + m.drop_first() =~= acc + m);
    }
}

/// Round trip: parsing the text a store serializes to reproduces the
/// store's entries exactly, mapping and order alike, whenever every entry
/// satisfies the character restriction (no colon or newline in a username,
/// no newline in a password) and usernames are unique.
pub proof fn lemma_round_trip(m: Seq<Entry>)
    requires
        all_valid(m),
        unique_keys(m),
    ensures
        parse_text(serialize(m)) == m,
{
    lemma_parse_serialize(m, Seq::<Entry>::empty());
    assert(Seq::<Entry>::empty() + m =~= m);
}

/// Last write wins: inserting a password and then another one for the same
/// username leaves the store exactly as inserting only the second would
/// have.
pub proof fn lemma_overwrite_last_wins(m: Seq<Entry>, u: Seq<char>, p1: Seq<char>, p2: Seq<char>)
    ensures
        spec_insert(spec_insert(m, u, p1), u, p2) == spec_insert(m, u, p2),
    decreases m.len(),
{
    let inner = spec_insert(m, u, p1);
    if m.len() == 0 {
        assert(inner == seq![(u, p1)]);
        assert(inner[0].0 == u);
        assert(spec_insert(inner, u, p2) == seq![(u, p2)] + inner.drop_first());
        assert(seq![(u, p2)] + inner.drop_first() =~= seq![(u, p2)]);
    } else if m[0].0 == u {
        assert(inner == seq![(u, p1)] + m.drop_first());
        assert(inner[0] == (u, p1));
        assert(spec_insert(inner, u, p2) == seq![(u, p2)] + inner.drop_first());
        assert(inner.drop_first() =~= m.drop_first());
    } else {
        assert(inner == seq![m[0]] + spec_insert(m.drop_first(), u, p1));
        assert(inner[0] == m[0]);
        assert(inner.len() > 0 && inner[0].0 != u);
        lemma_overwrite_last_wins(m.drop_first(), u, p1, p2);
        assert(inner.drop_first() =~= spec_insert(m.drop_first(), u, p1));
        assert(spec_insert(inner, u, p2) == seq![m[0]] + spec_insert(inner.drop_first(), u, p2));
    }
}

/// Overwriting in place: inserting for a username a store with unique
/// usernames already holds keeps the length and every other entry, and puts
/// the new password at the username's original position.  Inserting a new
/// username appends the pair.
pub proof fn lemma_insert_characterization(m: Seq<Entry>, u: Seq<char>, p: Seq<char>)
    requires
        unique_keys(m),
    ensures
        has_key(m, u) ==> spec_insert(m, u, p).len() == m.len(),
        has_key(m, u) ==> forall|j: int|
            0 <= j < m.len() && (#[trigger] m[j]).0 != u ==> spec_insert(m, u, p)[j] == m[j],
        has_key(m, u) ==> forall|j: int|
            0 <= j < m.len() && (#[trigger] m[j]).0 == u ==> spec_insert(m, u, p)[j] == (u, p),
        !has_key(m, u) ==> spec_insert(m, u, p) == m.push((u, p)),
        spec_get(spec_insert(m, u, p), u) == Some(p),
    decreases m.len(),
{
    let r = spec_insert(m, u, p);
    if m.len() == 0 {
        assert(!has_key(m, u));
        assert(r =~= m.push((u, p)));
        assert(r[0].0 == u);
    } else if m[0].0 == u {
        assert(has_key(m, u));
        assert(r == seq![(u, p)] + m.drop_first());
        assert(r[0] == (u, p));
        assert(spec_get(r, u) == Some(p));
        assert forall|j: int| 0 <= j < m.len() && (#[trigger] m[j]).0 != u implies r[j] == m[j] by {
            assert(j != 0);
            assert(r[j] == m.drop_first()[j - 1]);
        }
        assert forall|j: int| 0 <= j < m.len() && (#[trigger] m[j]).0 == u implies r[j] == (
        u,
        p,
        ) by {
            if j != 0 {
                assert(m[0].0 != m[j].0);
            }
        }
    } else {
        assert(unique_keys(m.drop_first())) by {
            assert forall|i: int, j: int|
                0 <= i < j < m.drop_first().len() implies (#[trigger] m.drop_first()[i]).0
                != (#[trigger] m.drop_first()[j]).0 by {
                assert(m.drop_first()[i] == m[i + 1]);
                assert(m.drop_first()[j] == m[j + 1]);
            }
        }
        lemma_insert_characterization(m.drop_first(), u, p);
        let rr = spec_insert(m.drop_first(), u, p);
        assert(r == seq![m[0]] + rr);
        assert(r[0] == m[0]);
        assert(r.drop_first() =~= rr);
        assert(spec_get(r, u) == spec_get(rr, u));
        assert(has_key(m, u) <==> has_key(m.drop_first(), u)) by {
            if has_key(m, u) {
                let i = choose|i: int| 0 <= i < m.len() && (#[trigger] m[i]).0 == u;
                assert(i != 0);
                assert(m.drop_first()[i - 1].0 == u);
            }
            if has_key(m.drop_first(), u) {
                let i = choose|i: int|
                    0 <= i < m.drop_first().len() && (#[trigger] m.drop_first()[i]).0 == u;
                assert(m[i + 1].0 == u);
            }
        }
        if has_key(m, u) {
            assert forall|j: int| 0 <= j < m.len() && (#[trigger] m[j]).0 != u implies r[j]
                == m[j] by {
                if j != 0 {
                    assert(m.drop_first()[j - 1] == m[j]);
                    assert(rr[j - 1] == m.drop_first()[j - 1]);
                }
            }
            assert forall|j: int| 0 <= j < m.len() && (#[trigger] m[j]).0 == u implies r[j] == (
            u,
            p,
            ) by {
                assert(j != 0);
                assert(m.drop_first()[j - 1] == m[j]);
                assert(rr[j - 1] == (u, p));
            }
        } else {
            assert(rr == m.drop_first().push((u, p)));
            assert(r =~= m.push((u, p)));
        }
    }
}

} // verus!
