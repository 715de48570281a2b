//! Laws of the algebra, stated over the mathematical model and proved once
//! and for all.

use vstd::prelude::*;

verus! {

use core::cmp::Ordering;
use crate::model::{compare, has_key, merge_term, merge_terms, mul_row, mul_terms, mult_of,
    put_term, seek_index, wf_terms, Model};
use crate::order::{lemma_compare_equal, lemma_compare_refl, lemma_seek_index};
use crate::reduced::{lemma_seek_found, lemma_sorted_unique};
use crate::wf::{lemma_insert_wf, lemma_merge_term_wf, lemma_update_wf, lemma_wf_terms_drop_first};

/// The integer zero is the empty box, and the sum of two empty boxes is the
/// empty box.
pub proof fn lemma_empty_add()
    ensures
        Model::from_count(0) == Model::empty(),
        Model::empty().add(Model::empty()) == Model::empty(),
{
    assert(merge_terms(Model::empty().terms, Model::empty().terms) =~= Model::empty().terms);
    assert(Model::empty().add(Model::empty()) =~= Model::empty());
}

/// Adding two integer values adds the integers, whenever the sum stays
/// within the multiplicity width.
pub proof fn lemma_from_count_add(a: u32, b: u32)
    requires
        a + b <= u32::MAX,
    ensures
        Model::from_count(a).add(Model::from_count(b)) == Model::from_count((a + b) as u32),
{
    let e = Model::empty();
    let am = Model::from_count(a);
    let bm = Model::from_count(b);
    if b == 0 {
        assert(merge_terms(am.terms, bm.terms) == am.terms);
        assert(am.add(bm) =~= Model::from_count((a + b) as u32));
    } else {
        assert(bm.terms[0] == (e, b));
        assert(bm.terms.drop_first() =~= Seq::<(Model, u32)>::empty());
        assert(merge_terms(am.terms, bm.terms) == merge_terms(
            merge_term(am.terms, e, b),
            bm.terms.drop_first(),
        ));
        assert(merge_terms(merge_term(am.terms, e, b), bm.terms.drop_first()) == merge_term(
            am.terms,
            e,
            b,
        ));
        if a == 0 {
            assert(seek_index(am.terms, e) == 0);
            assert(merge_term(am.terms, e, b) == am.terms.insert(0, (e, b)));
            assert(am.add(bm).terms =~= Model::from_count((a + b) as u32).terms);
            assert(am.add(bm) =~= Model::from_count((a + b) as u32));
        } else {
            lemma_compare_refl(e);
            assert(am.terms[0] == (e, a));
            assert(compare(e, am.terms[0].0) == Ordering::Equal);
            assert(seek_index(am.terms, e) == 0);
            assert(merge_term(am.terms, e, b) == am.terms.update(0, (e, a.wrapping_add(b))));
            assert(a.wrapping_add(b) == a + b);
            assert(am.add(bm).terms =~= Model::from_count((a + b) as u32).terms);
            assert(am.add(bm) =~= Model::from_count((a + b) as u32));
        }
    }
}

/// Multiplying two integer values multiplies the integers, whenever the
/// product stays within the multiplicity width.
pub proof fn lemma_from_count_mul(a: u32, b: u32)
    requires
        a as nat * b as nat <= u32::MAX,
    ensures
        Model::from_count(a).mul(Model::from_count(b)) == Model::from_count((a as nat * b as nat) as u32),
{
    let e = Model::empty();
    let am = Model::from_count(a);
    let bm = Model::from_count(b);
    let none = Seq::<(Model, u32)>::empty();
    if a == 0 {
        assert(mul_terms(none, am.terms, bm.terms) == none);
        assert(am.mul(bm) =~= Model::from_count(0));
    } else if b == 0 {
        assert(am.terms[0] == (e, a));
        assert(am.terms.drop_first() =~= none);
        assert(mul_row(none, e, a, bm.terms) == none);
        assert(mul_terms(none, am.terms, bm.terms) == mul_terms(
            mul_row(none, e, a, bm.terms),
            am.terms.drop_first(),
            bm.terms,
        ));
        assert(am.mul(bm) =~= Model::from_count(0));
    } else {
        lemma_empty_add();
        let ab = a.wrapping_mul(b);
        assert(ab == a as nat * b as nat) by {
            assert((a as nat * b as nat) % 0x1_0000_0000 == a as nat * b as nat) by (nonlinear_arith)
                requires a as nat * b as nat <= u32::MAX;
        }
        assert(am.terms[0] == (e, a));
        assert(bm.terms[0] == (e, b));
        assert(am.terms.drop_first() =~= none);
        assert(bm.terms.drop_first() =~= none);
        assert(seek_index(none, e.add(e)) == 0);
        assert(put_term(none, e.add(e), ab) == none.insert(0, (e.add(e), ab)));
        assert(mul_row(none, e, a, bm.terms) == mul_row(put_term(none, e.add(e), ab), e, a,
            bm.terms.drop_first()));
        assert(mul_row(put_term(none, e.add(e), ab), e, a, bm.terms.drop_first()) == put_term(
            none,
            e.add(e),
            ab,
        ));
        assert(mul_terms(none, am.terms, bm.terms) == mul_terms(
            mul_row(none, e, a, bm.terms),
            am.terms.drop_first(),
            bm.terms,
        ));
        assert(a as nat * b as nat >= 1) by (nonlinear_arith)
            requires
                a >= 1,
                b >= 1,
        ;
        assert(ab >= 1);
        assert(am.mul(bm).terms =~= Model::from_count(ab).terms);
        assert(am.mul(bm) =~= Model::from_count(ab));
    }
}

/// The sign-product rule holds for addition and for multiplication alike:
/// operands of equal sign give a box, of mixed signs an anti-box.
pub proof fn lemma_sign_rule(a: Model, b: Model)
    ensures
        a.add(b).pos == (a.pos == b.pos),
        a.mul(b).pos == (a.pos == b.pos),
{
}

/// The power laws: exponent zero gives the integer one, exponent one gives
/// the value itself.
pub proof fn lemma_pow_laws(v: Model)
    ensures
        v.pow(0) == Model::from_count(1),
        v.pow(1) == v,
{
}

/// Wrapping a value and then flipping the sign twice is the wrap alone.
pub proof fn lemma_wrap_flip_involution(v: Model)
    ensures
        v.wrap().flip().flip() == v.wrap(),
{
    assert(v.wrap().flip().flip() =~= v.wrap());
}

/// A key occurs in a nonempty sequence exactly when it is the head's key or
/// occurs in the tail.
proof fn lemma_has_key_shift(t: Seq<(Model, u32)>, k: Model)
    requires
        t.len() > 0,
    ensures
        has_key(t, k) <==> (t[0].0 == k || has_key(t.drop_first(), k)),
{
    if has_key(t, k) && t[0].0 != k {
        let j = choose|j: int| 0 <= j < t.len() && (#[trigger] t[j]).0 == k;
        assert(t.drop_first()[j - 1] == t[j]);
    }
    if has_key(t.drop_first(), k) {
        let j = choose|j: int| 0 <= j < t.drop_first().len() && (#[trigger] t.drop_first()[j]).0 == k;
        assert(t.drop_first()[j] == t[j + 1]);
    }
}

/// In a well-formed sequence, the stored multiplicity of a key is the value
/// beside it.
proof fn lemma_mult_of_at(s: Seq<(Model, u32)>, j: int)
    requires
        wf_terms(s),
        0 <= j < s.len(),
    ensures
        mult_of(s, s[j].0) == s[j].1,
    decreases j,
{
    if j == 0 {
    } else {
        if s[0].0 == s[j].0 {
            lemma_sorted_unique(s, 0, j);
        }
        lemma_wf_terms_drop_first(s);
        assert(s.drop_first()[j - 1] == s[j]);
        lemma_mult_of_at(s.drop_first(), j - 1);
    }
}

/// A key that does not occur has multiplicity zero.
proof fn lemma_mult_of_absent(s: Seq<(Model, u32)>, k: Model)
    requires
        !has_key(s, k),
    ensures
        mult_of(s, k) == 0,
    decreases s,
{
    if s.len() > 0 {
        lemma_has_key_shift(s, k);
        lemma_mult_of_absent(s.drop_first(), k);
    }
}

/// What one merge does, key by key: the merged key appears, its
/// multiplicity grows by the merged value or starts at it, and every other
/// key keeps its multiplicity.
proof fn lemma_merge_term_mult(s: Seq<(Model, u32)>, k0: Model, v: u32, k: Model)
    requires
        wf_terms(s),
        k0.wf(),
    ensures
        has_key(merge_term(s, k0, v), k) <==> (has_key(s, k) || k == k0),
        k == k0 ==> mult_of(merge_term(s, k0, v), k) == if has_key(s, k0) {
            mult_of(s, k0).wrapping_add(v)
        } else {
            v
        },
        k != k0 ==> mult_of(merge_term(s, k0, v), k) == mult_of(s, k),
{
    let p = seek_index(s, k0);
    lemma_seek_index(s, k0);
    lemma_seek_found(s, k0);
    let fin = merge_term(s, k0, v);
    if p < s.len() && compare(k0, s[p].0) == Ordering::Equal {
        lemma_compare_equal(k0, s[p].0);
        assert(s[p].0 == k0);
        lemma_update_wf(s, p, s[p].1.wrapping_add(v));
        assert(fin == s.update(p, (s[p].0, s[p].1.wrapping_add(v))));
        assert forall|j: int| 0 <= j < fin.len() implies (#[trigger] fin[j]).0 == s[j].0 by {}
        assert(has_key(fin, k) <==> has_key(s, k)) by {
            if has_key(fin, k) {
                let j = choose|j: int| 0 <= j < fin.len() && (#[trigger] fin[j]).0 == k;
                assert(s[j].0 == k);
            }
            if has_key(s, k) {
                let j = choose|j: int| 0 <= j < s.len() && (#[trigger] s[j]).0 == k;
                assert(fin[j].0 == k);
            }
        }
        if k == k0 {
            lemma_mult_of_at(s, p);
            lemma_mult_of_at(fin, p);
            assert(fin[p].0 == k0);
        } else {
            if has_key(s, k) {
                let j = choose|j: int| 0 <= j < s.len() && (#[trigger] s[j]).0 == k;
                assert(j != p);
                assert(fin[j] == s[j]);
                lemma_mult_of_at(s, j);
                lemma_mult_of_at(fin, j);
            } else {
                lemma_mult_of_absent(s, k);
                lemma_mult_of_absent(fin, k);
            }
        }
    } else {
        assert(!has_key(s, k0));
        lemma_insert_wf(s, k0, v);
        assert(fin == s.insert(p, (k0, v)));
        assert(fin[p] == (k0, v));
        assert(has_key(fin, k) <==> (has_key(s, k) || k == k0)) by {
            if has_key(fin, k) && k != k0 {
                let j = choose|j: int| 0 <= j < fin.len() && (#[trigger] fin[j]).0 == k;
                if j < p {
                    assert(fin[j] == s[j]);
                } else {
                    assert(j != p);
                    assert(fin[j] == s[j - 1]);
                }
            }
            if has_key(s, k) {
                let j = choose|j: int| 0 <= j < s.len() && (#[trigger] s[j]).0 == k;
                if j < p {
                    assert(fin[j] == s[j]);
                } else {
                    assert(fin[j + 1] == s[j]);
                }
            }
        }
        if k == k0 {
            lemma_mult_of_at(fin, p);
        } else {
            if has_key(s, k) {
                let j = choose|j: int| 0 <= j < s.len() && (#[trigger] s[j]).0 == k;
                lemma_mult_of_at(s, j);
                if j < p {
                    assert(fin[j] == s[j]);
                    lemma_mult_of_at(fin, j);
                } else {
                    assert(fin[j + 1] == s[j]);
                    lemma_mult_of_at(fin, j + 1);
                }
            } else {
                lemma_mult_of_absent(s, k);
                assert(!has_key(fin, k));
                lemma_mult_of_absent(fin, k);
            }
        }
    }
}

/// The full merge, key by key.
proof fn lemma_merge_terms_mult(s: Seq<(Model, u32)>, t: Seq<(Model, u32)>, k: Model)
    requires
        wf_terms(s),
        wf_terms(t),
    ensures
        has_key(merge_terms(s, t), k) <==> (has_key(s, k) || has_key(t, k)),
        mult_of(merge_terms(s, t), k) == if has_key(s, k) && has_key(t, k) {
            mult_of(s, k).wrapping_add(mult_of(t, k))
        } else if has_key(t, k) {
            mult_of(t, k)
        } else {
            mult_of(s, k)
        },
    decreases t,
{
    if t.len() == 0 {
        assert(!has_key(t, k));
    } else {
        let k0 = t[0].0;
        let s2 = merge_term(s, k0, t[0].1);
        assert(k0.wf());
        lemma_merge_term_mult(s, k0, t[0].1, k);
        lemma_merge_term_wf(s, k0, t[0].1);
        lemma_wf_terms_drop_first(t);
        lemma_merge_terms_mult(s2, t.drop_first(), k);
        lemma_has_key_shift(t, k);
        if t[0].0 == k {
            // a well-formed sequence holds each key once
            assert(!has_key(t.drop_first(), k)) by {
                if has_key(t.drop_first(), k) {
                    let j = choose|j: int|
                        0 <= j < t.drop_first().len() && (#[trigger] t.drop_first()[j]).0 == k;
                    assert(t.drop_first()[j] == t[j + 1]);
                    lemma_sorted_unique(t, 0, j + 1);
                }
            }
            lemma_mult_of_at(t, 0);
        } else {
            assert(mult_of(t, k) == mult_of(t.drop_first(), k));
        }
    }
}

/// Addition is the multiset union of the terms: a key occurs in a sum
/// exactly when it occurs in an operand, and its multiplicity there is the
/// sum of its multiplicities in the operands (wrapping around the integer
/// width), while the sign follows the sign-product rule.
pub proof fn lemma_add_is_union(a: Model, b: Model, k: Model)
    requires
        a.wf(),
        b.wf(),
    ensures
        a.add(b).pos == (a.pos == b.pos),
        has_key(a.add(b).terms, k) <==> (has_key(a.terms, k) || has_key(b.terms, k)),
        mult_of(a.add(b).terms, k) == if has_key(a.terms, k) && has_key(b.terms, k) {
            mult_of(a.terms, k).wrapping_add(mult_of(b.terms, k))
        } else if has_key(b.terms, k) {
            mult_of(b.terms, k)
        } else {
            mult_of(a.terms, k)
        },
{
    lemma_merge_terms_mult(a.terms, b.terms, k);
}

} // verus!
