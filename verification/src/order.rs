//! Laws of the total order: reflexivity, antisymmetry by reversal,
//! agreement of the `Equal` verdict with equality, and transitivity.

use vstd::prelude::*;

verus! {

use core::cmp::Ordering;
use crate::model::{compare, compare_terms, reverse, seek_index, Model};

/// Equality is reflexive: every value compares equal to itself.
pub proof fn lemma_compare_refl(a: Model)
    ensures
        compare(a, a) == Ordering::Equal,
    decreases a,
{
    lemma_compare_terms_refl(a.terms);
}

pub proof fn lemma_compare_terms_refl(s: Seq<(Model, u32)>)
    ensures
        compare_terms(s, s) == Ordering::Equal,
    decreases s,
{
    if s.len() > 0 {
        lemma_compare_refl(s[0].0);
        lemma_compare_terms_refl(s.drop_first());
    }
}

/// Equality is symmetric, and the order antisymmetric: swapping the
/// operands reverses the verdict.
pub proof fn lemma_compare_reverse(a: Model, b: Model)
    ensures
        compare(b, a) == reverse(compare(a, b)),
    decreases a,
{
    lemma_compare_terms_reverse(a.terms, b.terms);
}

pub proof fn lemma_compare_terms_reverse(s: Seq<(Model, u32)>, t: Seq<(Model, u32)>)
    ensures
        compare_terms(t, s) == reverse(compare_terms(s, t)),
    decreases s,
{
    if s.len() > 0 && t.len() > 0 {
        lemma_compare_reverse(s[0].0, t[0].0);
        lemma_compare_terms_reverse(s.drop_first(), t.drop_first());
    }
}

/// The `Equal` verdict is exactly equality of the two values, so equality
/// of values is consistent with the total order.
pub proof fn lemma_compare_equal(a: Model, b: Model)
    ensures
        compare(a, b) == Ordering::Equal <==> a == b,
    decreases a,
{
    lemma_compare_terms_equal(a.terms, b.terms);
}

pub proof fn lemma_compare_terms_equal(s: Seq<(Model, u32)>, t: Seq<(Model, u32)>)
    ensures
        compare_terms(s, t) == Ordering::Equal <==> s == t,
    decreases s,
{
    if s.len() == 0 && t.len() == 0 {
        assert(s =~= t);
    } else if s.len() > 0 && t.len() > 0 {
        lemma_compare_equal(s[0].0, t[0].0);
        lemma_compare_terms_equal(s.drop_first(), t.drop_first());
        if compare_terms(s, t) == Ordering::Equal {
            assert(s[0] == t[0]);
            assert(s =~= t) by {
                assert forall|i: int| 0 <= i < s.len() implies s[i] == t[i] by {
                    if i > 0 {
                        assert(s[i] == s.drop_first()[i - 1]);
                        assert(t[i] == t.drop_first()[i - 1]);
                    }
                }
            }
        }
        if s == t {
            lemma_compare_refl(s[0].0);
        }
    }
}

/// The order is transitive.
pub proof fn lemma_compare_trans(a: Model, b: Model, c: Model)
    requires
        compare(a, b) == Ordering::Less,
        compare(b, c) == Ordering::Less,
    ensures
        compare(a, c) == Ordering::Less,
    decreases a,
{
    if a.pos == b.pos && b.pos == c.pos {
        lemma_compare_terms_trans(a.terms, b.terms, c.terms);
    }
}

pub proof fn lemma_compare_terms_trans(
    s: Seq<(Model, u32)>,
    t: Seq<(Model, u32)>,
    u: Seq<(Model, u32)>,
)
    requires
        compare_terms(s, t) == Ordering::Less,
        compare_terms(t, u) == Ordering::Less,
    ensures
        compare_terms(s, u) == Ordering::Less,
    decreases s,
{
    if s.len() > 0 {
        let c1 = compare(s[0].0, t[0].0);
        let c2 = compare(t[0].0, u[0].0);
        lemma_compare_equal(s[0].0, t[0].0);
        lemma_compare_equal(t[0].0, u[0].0);
        if c1 == Ordering::Less && c2 == Ordering::Less {
            lemma_compare_trans(s[0].0, t[0].0, u[0].0);
        } else if c1 == Ordering::Equal && c2 == Ordering::Equal {
            if s[0].1 == t[0].1 && t[0].1 == u[0].1 {
                lemma_compare_terms_trans(s.drop_first(), t.drop_first(), u.drop_first());
            }
        }
    }
}

/// Where `seek_index` points: every earlier key comes strictly before `k`,
/// and the key at the found position, if any, does not.
pub proof fn lemma_seek_index(s: Seq<(Model, u32)>, k: Model)
    ensures
        0 <= seek_index(s, k) <= s.len(),
        forall|j: int|
            0 <= j < seek_index(s, k) ==> compare(k, (#[trigger] s[j]).0) == Ordering::Greater,
        seek_index(s, k) < s.len() ==> compare(k, s[seek_index(s, k)].0) != Ordering::Greater,
    decreases s,
{
    if s.len() > 0 && compare(k, s[0].0) == Ordering::Greater {
        lemma_seek_index(s.drop_first(), k);
        assert forall|j: int| 0 <= j < seek_index(s, k) implies compare(
            k,
            (#[trigger] s[j]).0,
        ) == Ordering::Greater by {
            if j > 0 {
                assert(s[j] == s.drop_first()[j - 1]);
            }
        }
        if seek_index(s, k) < s.len() {
            assert(s[seek_index(s, k)] == s.drop_first()[seek_index(s.drop_first(), k)]);
        }
    }
}

} // verus!
