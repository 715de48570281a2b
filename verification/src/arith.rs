//! Addition, multiplication and exponentiation of box values.
//!
//! Multiplicities combine with wrapping arithmetic: overflow wraps around
//! the unsigned integer width silently, it is not reported.

use vstd::prelude::*;

verus! {

use core::cmp::Ordering;
use crate::model::{merge_term, merge_terms, mul_row, mul_terms, Model};
use crate::order::lemma_seek_index;
use crate::value::{lemma_model_terms, model_terms, seek, MBox};
use crate::wf::{lemma_from_count_wf, lemma_merge_terms_wf, lemma_mul_wf, lemma_pow_wf};

/// Merge multiplicity `value` under `key` into a term vector: an existing
/// equal key grows by `value` (wrapping), otherwise the pair enters at its
/// ordered place.
pub(crate) fn merge_entry(v: &mut Vec<(MBox, u32)>, key: MBox, value: u32)
    ensures
        model_terms(final(v)@) == merge_term(model_terms(old(v)@), key@, value),
{
    proof {
        broadcast use lemma_model_terms;
    }
    let ghost sm = model_terms(v@);
    let p = seek(v, &key);
    proof {
        lemma_seek_index(sm, key@);
    }
    if p < v.len() {
        let c = key.cmp(&v[p].0);
        if matches!(c, Ordering::Equal) {
            let grown = v[p].1.wrapping_add(value);
            v[p].1 = grown;
            proof {
                assert(model_terms(v@) =~= sm.update(p as int, (sm[p as int].0, grown)));
            }
            return ;
        }
    }
    v.insert(p, (key, value));
    proof {
        assert(model_terms(v@) =~= sm.insert(p as int, (key@, value)));
    }
}

impl MBox {
    /// Addition: the multiset union of the two values' terms — where keys
    /// meet, multiplicities add — under the sign-product rule: operands of
    /// equal sign give a box, of mixed signs an anti-box.
    pub fn add(self, other: MBox) -> (r: MBox)
        ensures
            r@ == self@.add(other@),
            self@.wf() && other@.wf() ==> r@.wf(),
    {
        let ghost am = self@;
        let ghost bm = other@;
        let pos = self.is_box() == other.is_box();
        let mut v = self.boxes();
        let b = other.boxes();
        let mut j: usize = 0;
        proof {
            assert(bm.terms.skip(0) =~= bm.terms);
        }
        while j < b.len()
            invariant
                j <= b@.len(),
                model_terms(b@) == bm.terms,
                merge_terms(model_terms(v@), bm.terms.skip(j as int)) == merge_terms(
                    am.terms,
                    bm.terms,
                ),
            decreases b@.len() - j,
        {
            proof {
                broadcast use lemma_model_terms;
            }
            let k = b[j].0.clone();
            let m = b[j].1;
            proof {
                assert(bm.terms.skip(j as int)[0] == bm.terms[j as int]);
                assert(bm.terms.skip(j as int).drop_first() =~= bm.terms.skip(j + 1 as int));
            }
            merge_entry(&mut v, k, m);
            j += 1;
        }
        proof {
            broadcast use lemma_model_terms;

            assert(bm.terms.skip(j as int) =~= Seq::<(Model, u32)>::empty());
        }
        let r = if pos {
            MBox::Positive(v)
        } else {
            MBox::Negative(v)
        };
        proof {
            assert(r@ =~= am.add(bm));
            if am.wf() && bm.wf() {
                lemma_merge_terms_wf(am.terms, bm.terms);
            }
        }
        r
    }

    /// Multiplication: every pair of terms, taken in ascending order of each
    /// operand, contributes the sum of its keys with the product of its
    /// multiplicities; a later pair whose key already occurs overwrites the
    /// earlier term. The sign follows the sign-product rule.
    pub fn mul(self, other: MBox) -> (r: MBox)
        ensures
            r@ == self@.mul(other@),
            self@.wf() && other@.wf() ==> r@.wf(),
    {
        let ghost am = self@;
        let ghost bm = other@;
        let pos = self.is_box() == other.is_box();
        let a = self.boxes();
        let b = other.boxes();
        let mut out: Vec<(MBox, u32)> = Vec::new();
        let ghost total = mul_terms(Seq::<(Model, u32)>::empty(), am.terms, bm.terms);
        let mut i: usize = 0;
        proof {
            broadcast use lemma_model_terms;

            assert(model_terms(out@) =~= Seq::<(Model, u32)>::empty());
            assert(am.terms.skip(0) =~= am.terms);
        }
        while i < a.len()
            invariant
                i <= a@.len(),
                model_terms(a@) == am.terms,
                model_terms(b@) == bm.terms,
                mul_terms(model_terms(out@), am.terms.skip(i as int), bm.terms) == total,
            decreases a@.len() - i,
        {
            let mut j: usize = 0;
            proof {
                broadcast use lemma_model_terms;

                assert(am.terms.skip(i as int)[0] == am.terms[i as int]);
                assert(am.terms.skip(i as int).drop_first() =~= am.terms.skip(i + 1 as int));
                assert(bm.terms.skip(0) =~= bm.terms);
            }
            while j < b.len()
                invariant
                    i < a@.len(),
                    j <= b@.len(),
                    model_terms(a@) == am.terms,
                    model_terms(b@) == bm.terms,
                    mul_terms(
                        mul_row(
                            model_terms(out@),
                            am.terms[i as int].0,
                            am.terms[i as int].1,
                            bm.terms.skip(j as int),
                        ),
                        am.terms.skip(i + 1 as int),
                        bm.terms,
                    ) == total,
                decreases b@.len() - j,
            {
                proof {
                    broadcast use lemma_model_terms;

                    assert(bm.terms.skip(j as int)[0] == bm.terms[j as int]);
                    assert(bm.terms.skip(j as int).drop_first() =~= bm.terms.skip(j + 1 as int));
                }
                let key = a[i].0.clone().add(b[j].0.clone());
                let m = a[i].1.wrapping_mul(b[j].1);
                crate::value::put_entry(&mut out, key, m);
                j += 1;
            }
            proof {
                broadcast use lemma_model_terms;

                assert(bm.terms.skip(j as int) =~= Seq::<(Model, u32)>::empty());
            }
            i += 1;
        }
        proof {
            broadcast use lemma_model_terms;

            assert(am.terms.skip(i as int) =~= Seq::<(Model, u32)>::empty());
        }
        let r = if pos {
            MBox::Positive(out)
        } else {
            MBox::Negative(out)
        };
        proof {
            assert(r@ =~= am.mul(bm));
            if am.wf() && bm.wf() {
                lemma_mul_wf(am, bm);
            }
        }
        r
    }

    /// Exponentiation: the integer one at exponent zero, otherwise the value
    /// multiplied into itself from the left, one factor per step.
    pub fn pow(self, exp: u32) -> (r: MBox)
        ensures
            r@ == self@.pow(exp),
            self@.wf() ==> r@.wf(),
    {
        if exp > 0 {
            let ghost sm = self@;
            let mut m = self.clone();
            let mut i: u32 = 0;
            while i < exp - 1
                invariant
                    i <= exp - 1,
                    self@ == sm,
                    m@ == sm.pow((i + 1) as u32),
                    sm.wf() ==> m@.wf(),
                decreases exp - 1 - i,
            {
                m = m.mul(self.clone());
                proof {
                    if sm.wf() {
                        lemma_pow_wf(sm, (i + 2) as u32);
                    }
                }
                i += 1;
            }
            m
        } else {
            let r = MBox::from_count(1);
            proof {
                lemma_from_count_wf(1);
            }
            r
        }
    }
}

} // verus!
