//! Names of channels and handlers: their order, and sorted vectors of them.

use vstd::prelude::*;
use vstd::string::StringExecFns;

verus! {

/// Strict lexicographic order on names, character by character, by code point.
pub open spec fn precedes(a: Seq<char>, b: Seq<char>) -> bool
    decreases a.len(),
{
    if b.len() == 0 {
        false
    } else if a.len() == 0 {
        true
    } else if a[0] == b[0] {
        precedes(a.drop_first(), b.drop_first())
    } else {
        (a[0] as int) < (b[0] as int)
    }
}

/// No name precedes itself.
pub proof fn lemma_precedes_irreflexive(a: Seq<char>)
    ensures
        !precedes(a, a),
    decreases a.len(),
{
    if a.len() > 0 {
        lemma_precedes_irreflexive(a.drop_first());
    }
}

/// Of two different names, one precedes the other.
pub proof fn lemma_precedes_total(a: Seq<char>, b: Seq<char>)
    ensures
        a == b || precedes(a, b) || precedes(b, a),
    decreases a.len(),
{
    if a.len() > 0 && b.len() > 0 && a[0] == b[0] {
        lemma_precedes_total(a.drop_first(), b.drop_first());
        if a.drop_first() == b.drop_first() {
            assert(a =~= seq![a[0]] + a.drop_first());
            assert(b =~= seq![b[0]] + b.drop_first());
        }
    } else if a.len() == 0 && b.len() == 0 {
        assert(a =~= b);
    }
}

/// The order is transitive.
pub proof fn lemma_precedes_transitive(a: Seq<char>, b: Seq<char>, c: Seq<char>)
    requires
        precedes(a, b),
        precedes(b, c),
    ensures
        precedes(a, c),
    decreases a.len(),
{
    if a.len() > 0 && a[0] == b[0] && b[0] == c[0] {
        lemma_precedes_transitive(a.drop_first(), b.drop_first(), c.drop_first());
    }
}

/// The names that a vector of string slices holds.
pub open spec fn names(v: Seq<&'static str>) -> Seq<Seq<char>> {
    v.map_values(|s: &'static str| s@)
}

/// Each name precedes all that follow it: sorted, and nothing twice.
pub open spec fn ascending(s: Seq<Seq<char>>) -> bool {
    forall|i: int, j: int| 0 <= i < j < s.len() ==> precedes(#[trigger] s[i], #[trigger] s[j])
}

/// How many names of `s` precede `key`: where `key` stands in an ascending
/// `s`, or would be put.
pub open spec fn rank(s: Seq<Seq<char>>, key: Seq<char>) -> int
    decreases s.len(),
{
    if s.len() == 0 {
        0
    } else {
        rank(s.drop_last(), key) + if precedes(s.last(), key) {
            1int
        } else {
            0int
        }
    }
}

/// In an ascending sequence the rank of a name is the one index that parts
/// the names before it from the rest.
pub proof fn lemma_rank_is_split(s: Seq<Seq<char>>, key: Seq<char>, at: int)
    requires
        ascending(s),
        0 <= at <= s.len(),
        forall|i: int| 0 <= i < at ==> precedes(#[trigger] s[i], key),
        at < s.len() ==> !precedes(s[at], key),
    ensures
        rank(s, key) == at,
    decreases s.len(),
{
    if s.len() > 0 {
        let front = s.drop_last();
        if at == s.len() {
            lemma_rank_is_split(front, key, at - 1);
        } else {
            if at < s.len() - 1 {
                if precedes(s.last(), key) {
                    lemma_precedes_transitive(s[at], s.last(), key);
                }
            }
            lemma_rank_is_split(front, key, at);
        }
    }
}

/// The rank of a name parts an ascending sequence: the names before it
/// precede the name, and those from it on do not.
pub proof fn lemma_rank_splits(s: Seq<Seq<char>>, key: Seq<char>)
    requires
        ascending(s),
    ensures
        0 <= rank(s, key) <= s.len(),
        forall|i: int| 0 <= i < rank(s, key) ==> precedes(#[trigger] s[i], key),
        forall|i: int| rank(s, key) <= i < s.len() ==> !precedes(#[trigger] s[i], key),
    decreases s.len(),
{
    if s.len() > 0 {
        let front = s.drop_last();
        lemma_rank_splits(front, key);
        if precedes(s.last(), key) {
            assert forall|i: int| 0 <= i < s.len() - 1 implies precedes(#[trigger] s[i], key) by {
                lemma_precedes_transitive(s[i], s.last(), key);
            }
            assert forall|i: int| 0 <= i < front.len() implies precedes(
                #[trigger] front[i],
                key,
            ) by {
                assert(front[i] == s[i]);
            }
            lemma_rank_is_split(front, key, front.len() as int);
        } else {
            assert forall|i: int| 0 <= i < rank(s, key) implies precedes(#[trigger] s[i], key) by {
                assert(front[i] == s[i]);
            }
            assert forall|i: int| rank(s, key) <= i < s.len() implies !precedes(
                #[trigger] s[i],
                key,
            ) by {
                if i < s.len() - 1 {
                    assert(front[i] == s[i]);
                }
            }
        }
    }
}

/// A name that an ascending sequence lacks can be put in at its rank, and
/// the sequence still ascends.
pub proof fn lemma_insert_ascending(s: Seq<Seq<char>>, key: Seq<char>)
    requires
        ascending(s),
        !s.contains(key),
    ensures
        ascending(s.insert(rank(s, key), key)),
{
    lemma_rank_splits(s, key);
    let at = rank(s, key);
    let t = s.insert(at, key);
    assert forall|i: int, j: int| 0 <= i < j < t.len() implies precedes(
        #[trigger] t[i],
        #[trigger] t[j],
    ) by {
        if i < at && j > at {
            assert(t[i] == s[i]);
            assert(t[j] == s[j - 1]);
        } else if i == at {
            assert(t[j] == s[j - 1]);
            lemma_precedes_total(s[j - 1], key);
        } else if j == at {
            assert(t[i] == s[i]);
        } else if j < at {
            assert(t[i] == s[i] && t[j] == s[j]);
        } else {
            assert(t[i] == s[i - 1] && t[j] == s[j - 1]);
        }
    }
}

/// An ascending sequence holds no name twice.
pub proof fn lemma_ascending_no_duplicates(s: Seq<Seq<char>>)
    requires
        ascending(s),
    ensures
        s.no_duplicates(),
{
    assert forall|i: int, j: int| 0 <= i < s.len() && 0 <= j < s.len() && i != j implies s[i]
        != s[j] by {
        lemma_precedes_irreflexive(s[i]);
    }
}

/// Wraps `==` of std's `str`: true exactly when both hold the same characters.
#[verifier::external_body]
pub(crate) fn same_text(a: &str, b: &str) -> (r: bool)
    ensures
        r == (a@ == b@),
{
    a == b
}

/// Wraps `<` of std's `str`, which std documents as the lexicographic order
/// of the bytes, and so of the code points.
#[verifier::external_body]
pub(crate) fn text_before(a: &str, b: &str) -> (r: bool)
    ensures
        r == precedes(a@, b@),
{
    a < b
}

/// Finds `key` in an ascending vector: the index where it stands or would be
/// put, and whether it stands there.
pub fn locate(v: &Vec<&'static str>, key: &str) -> (r: (usize, bool))
    requires
        ascending(names(v@)),
    ensures
        r.0 == rank(names(v@), key@),
        r.0 <= v@.len(),
        r.1 == names(v@).contains(key@),
        r.1 ==> r.0 < v@.len() && v@[r.0 as int]@ == key@,
        forall|j: int| 0 <= j < r.0 ==> precedes(#[trigger] names(v@)[j], key@),
        forall|j: int|
            r.0 <= j < v@.len() && !(r.1 && j == r.0) ==> precedes(key@, #[trigger] names(v@)[j]),
{
    let ghost s = names(v@);
    let mut i: usize = 0;
    while i < v.len()
        invariant
            i <= v.len(),
            s == names(v@),
            ascending(s),
            forall|j: int| 0 <= j < i ==> precedes(#[trigger] s[j], key@),
        decreases v.len() - i,
    {
        if !text_before(v[i], key) {
            let found = same_text(v[i], key);
            proof {
                lemma_rank_is_split(s, key@, i as int);
                lemma_precedes_total(s[i as int], key@);
                assert forall|j: int| i <= j < s.len() && !(found && j == i) implies precedes(
                    key@,
                    #[trigger] s[j],
                ) by {
                    if j > i {
                        if found {
                            assert(precedes(s[i as int], s[j]));
                        } else {
                            lemma_precedes_transitive(key@, s[i as int], s[j]);
                        }
                    }
                }
                if !found {
                    assert forall|j: int| 0 <= j < s.len() implies s[j] != key@ by {
                        lemma_precedes_irreflexive(key@);
                    }
                } else {
                    assert(s[i as int] == key@);
                }
            }
            return (i, found);
        }
        i += 1;
    }
    proof {
        lemma_rank_is_split(s, key@, i as int);
        assert forall|j: int| 0 <= j < s.len() implies s[j] != key@ by {
            lemma_precedes_irreflexive(key@);
        }
    }
    (i, false)
}

/// Where `key` first stands in a vector of any order.
pub fn position(v: &Vec<&'static str>, key: &str) -> (r: Option<usize>)
    ensures
        r is None <==> !names(v@).contains(key@),
        r matches Some(at) ==> at < v@.len() && names(v@)[at as int] == key@ && forall|j: int|
            0 <= j < at ==> names(v@)[j] != key@,
{
    let mut i: usize = 0;
    while i < v.len()
        invariant
            i <= v.len(),
            forall|j: int| 0 <= j < i ==> names(v@)[j] != key@,
        decreases v.len() - i,
    {
        if same_text(v[i], key) {
            assert(names(v@)[i as int] == key@);
            return Some(i);
        }
        i += 1;
    }
    None
}

/// A copy of a vector from index `from` on.
pub fn tail(v: &Vec<&'static str>, from: usize) -> (r: Vec<&'static str>)
    requires
        from <= v@.len(),
    ensures
        r@ == v@.subrange(from as int, v@.len() as int),
{
    let mut out: Vec<&'static str> = Vec::new();
    let mut i: usize = from;
    while i < v.len()
        invariant
            from <= i <= v.len(),
            out@ == v@.subrange(from as int, i as int),
        decreases v.len() - i,
    {
        out.push(v[i]);
        assert(out@ =~= v@.subrange(from as int, i + 1));
        i += 1;
    }
    out
}

/// The names of `s` one after the other, with `sep` between each two.
pub open spec fn joined(s: Seq<Seq<char>>, sep: Seq<char>) -> Seq<char>
    decreases s.len(),
{
    if s.len() == 0 {
        Seq::empty()
    } else if s.len() == 1 {
        s[0]
    } else {
        joined(s.drop_last(), sep) + sep + s.last()
    }
}

/// Writes the names of `v` one after the other, with `sep` between each two.
pub fn join(v: &Vec<&'static str>, sep: &str) -> (r: String)
    ensures
        r@ == joined(names(v@), sep@),
{
    let mut out = String::new();
    let mut i: usize = 0;
    assert(names(v@).subrange(0, 0) =~= Seq::<Seq<char>>::empty());
    while i < v.len()
        invariant
            i <= v@.len(),
            out@ == joined(names(v@).subrange(0, i as int), sep@),
        decreases v@.len() - i,
    {
        let ghost seen = names(v@).subrange(0, i as int);
        let ghost more = names(v@).subrange(0, i + 1);
        proof {
            assert(more.drop_last() =~= seen);
            assert(more.last() == v@[i as int]@);
        }
        if i > 0 {
            out.append(sep);
        } else {
            assert(out@ + v@[i as int]@ =~= v@[i as int]@);
            assert(more[0] == v@[i as int]@);
        }
        out.append(v[i]);
        i += 1;
    }
    assert(names(v@).subrange(0, v@.len() as int) =~= names(v@));
    out
}

/// A name in quotes, as Rust's `Debug` writes a string.
pub uninterp spec fn quoted(name: Seq<char>) -> Seq<char>;

/// Wraps `format!` with `{:?}` on std's `str`, which writes the string in
/// quotes, with what is not printable escaped: what it returns rests on the
/// characters alone and is named `quoted`.
#[verifier::external_body]
pub(crate) fn quote(name: &str) -> (r: String)
    ensures
        r@ == quoted(name@),
{
    format!("{:?}", name)
}

} // verus!
