//! Keys are byte strings ordered lexicographically. Every ordering fact the
//! index and the lookup algorithm rely on is proved here once.

use vstd::prelude::*;

verus! {

/// Strict lexicographic order on byte strings: `a` comes before `b`.
pub open spec fn lex_lt(a: Seq<u8>, b: Seq<u8>) -> bool
    decreases a.len(),
{
    if b.len() == 0 {
        false
    } else if a.len() == 0 {
        true
    } else if a[0] < b[0] {
        true
    } else if a[0] > b[0] {
        false
    } else {
        lex_lt(a.skip(1), b.skip(1))
    }
}

/// Non-strict lexicographic order on byte strings.
pub open spec fn lex_le(a: Seq<u8>, b: Seq<u8>) -> bool {
    lex_lt(a, b) || a == b
}

/// The order is irreflexive.
pub proof fn lemma_lex_irrefl(a: Seq<u8>)
    ensures
        !lex_lt(a, a),
    decreases a.len(),
{
    if a.len() > 0 {
        lemma_lex_irrefl(a.skip(1));
    }
}

/// Any two byte strings are ordered one way or the other, or are equal.
pub proof fn lemma_lex_total(a: Seq<u8>, b: Seq<u8>)
    ensures
        lex_lt(a, b) || lex_lt(b, a) || a == b,
    decreases a.len(),
{
    if a.len() > 0 && b.len() > 0 && a[0] == b[0] {
        lemma_lex_total(a.skip(1), b.skip(1));
        if !lex_lt(a, b) && !lex_lt(b, a) {
            assert(a.skip(1) == b.skip(1));
            assert(a =~= b) by {
                assert(forall|i: int|
                    0 < i < a.len() ==> a[i] == a.skip(1)[i - 1] && b[i] == b.skip(1)[i - 1]);
            }
        }
    }
}

/// The order is asymmetric.
pub proof fn lemma_lex_asym(a: Seq<u8>, b: Seq<u8>)
    ensures
        lex_lt(a, b) ==> !lex_lt(b, a),
    decreases a.len(),
{
    if a.len() > 0 && b.len() > 0 && a[0] == b[0] {
        lemma_lex_asym(a.skip(1), b.skip(1));
    }
}

/// The order is transitive.
pub proof fn lemma_lex_trans(a: Seq<u8>, b: Seq<u8>, c: Seq<u8>)
    ensures
        lex_lt(a, b) && lex_lt(b, c) ==> lex_lt(a, c),
    decreases a.len(),
{
    if a.len() > 0 && b.len() > 0 && c.len() > 0 {
        if a[0] == b[0] && b[0] == c[0] {
            lemma_lex_trans(a.skip(1), b.skip(1), c.skip(1));
        }
    }
}

/// With a common prefix of length `i` removed, the order of the remainders
/// decides the order of the whole strings.
proof fn lemma_lex_common_prefix(a: Seq<u8>, b: Seq<u8>, i: int)
    requires
        0 <= i <= a.len(),
        i <= b.len(),
        forall|j: int| 0 <= j < i ==> a[j] == b[j],
    ensures
        lex_lt(a, b) == lex_lt(a.skip(i), b.skip(i)),
    decreases i,
{
    if i == 0 {
        assert(a.skip(0) =~= a);
        assert(b.skip(0) =~= b);
    } else {
        assert(a.len() > 0 && b.len() > 0 && a[0] == b[0]);
        lemma_lex_common_prefix(a.skip(1), b.skip(1), i - 1);
        assert(a.skip(1).skip(i - 1) =~= a.skip(i));
        assert(b.skip(1).skip(i - 1) =~= b.skip(i));
    }
}

/// The outcome of comparing two keys.
#[derive(Clone, Copy, PartialEq, Eq, Structural, Debug)]
pub enum KeyOrdering {
    Less,
    Equal,
    Greater,
}

/// Compares two keys in lexicographic order.
pub fn compare_keys(a: &Vec<u8>, b: &Vec<u8>) -> (r: KeyOrdering)
    ensures
        (r == KeyOrdering::Less) == lex_lt(a@, b@),
        (r == KeyOrdering::Greater) == lex_lt(b@, a@),
        (r == KeyOrdering::Equal) == (a@ == b@),
{
    let mut i: usize = 0;
    while i < a.len() && i < b.len()
        invariant
            0 <= i <= a.len(),
            i <= b.len(),
            forall|j: int| 0 <= j < i ==> a@[j] == b@[j],
        decreases a.len() - i,
    {
        if a[i] < b[i] {
            proof {
                lemma_lex_common_prefix(a@, b@, i as int);
                assert(a@.skip(i as int)[0] == a@[i as int]);
                assert(b@.skip(i as int)[0] == b@[i as int]);
                assert(lex_lt(a@.skip(i as int), b@.skip(i as int)));
                lemma_lex_asym(a@, b@);
                lemma_lex_irrefl(a@);
            }
            return KeyOrdering::Less;
        }
        if a[i] > b[i] {
            proof {
                lemma_lex_common_prefix(b@, a@, i as int);
                assert(b@.skip(i as int)[0] == b@[i as int]);
                assert(a@.skip(i as int)[0] == a@[i as int]);
                assert(lex_lt(b@.skip(i as int), a@.skip(i as int)));
                lemma_lex_asym(b@, a@);
                lemma_lex_irrefl(b@);
            }
            return KeyOrdering::Greater;
        }
        i = i + 1;
    }
    proof {
        lemma_lex_common_prefix(a@, b@, i as int);
        lemma_lex_common_prefix(b@, a@, i as int);
        lemma_lex_asym(a@, b@);
        lemma_lex_asym(b@, a@);
        lemma_lex_irrefl(a@);
        lemma_lex_irrefl(b@);
        if a.len() < b.len() {
            assert(a@.skip(i as int).len() == 0);
            assert(b@.skip(i as int).len() > 0);
            assert(lex_lt(a@.skip(i as int), b@.skip(i as int)));
        } else if a.len() > b.len() {
            assert(lex_lt(b@.skip(i as int), a@.skip(i as int)));
        } else {
            assert(a@ =~= b@);
        }
    }
    if a.len() < b.len() {
        KeyOrdering::Less
    } else if a.len() > b.len() {
        KeyOrdering::Greater
    } else {
        KeyOrdering::Equal
    }
}

} // verus!
