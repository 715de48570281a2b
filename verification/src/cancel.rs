//! Cancellation: the pass that collapses box/anti-box twin pairs at every
//! nesting depth, bringing a value to its reduced form.

use vstd::prelude::*;

verus! {

use core::cmp::Ordering;
use crate::arith::merge_entry;
use crate::model::{annihilate_step, annihilate_terms, compare, Model};
use crate::order::lemma_seek_index;
use crate::value::{lemma_model_terms, model_terms, put_entry, seek, MBox};
use crate::wf::lemma_annihilate_wf;

impl MBox {
    /// Cancellation: every child is reduced recursively, then folded into a
    /// fresh value of the same sign; a negative child consumes its positive
    /// twin — same terms, opposite sign — as far as the multiplicities
    /// reach, and the difference remains under the surviving sign.
    pub fn annihilate(self) -> (r: MBox)
        ensures
            r@ == self@.annihilate(),
            self@.wf() ==> r@.wf(),
    {
        self.reduce()
    }

    /// The cancellation worker, by reference so that children can recurse.
    fn reduce(&self) -> (r: MBox)
        ensures
            r@ == self@.annihilate(),
            self@.wf() ==> r@.wf(),
        decreases *self,
    {
        proof {
            broadcast use lemma_model_terms;

            if self@.wf() {
                lemma_annihilate_wf(self@);
            }
        }
        let terms = self.boxes_ref();
        if terms.len() == 0 {
            return self.clone();
        }
        let ghost sm = self@.terms;
        let mut out: Vec<(MBox, u32)> = Vec::new();
        let mut i: usize = 0;
        proof {
            assert(model_terms(out@) =~= Seq::<(Model, u32)>::empty());
            assert(sm.skip(0) =~= sm);
        }
        while i < terms.len()
            invariant
                i <= terms@.len(),
                terms@ == self.spec_terms(),
                sm == model_terms(terms@),
                annihilate_terms(sm.skip(i as int), model_terms(out@)) == annihilate_terms(
                    sm,
                    Seq::<(Model, u32)>::empty(),
                ),
            decreases terms@.len() - i,
        {
            proof {
                broadcast use lemma_model_terms;

                assert(sm.skip(i as int)[0] == sm[i as int]);
                assert(sm.skip(i as int).drop_first() =~= sm.skip(i + 1 as int));
            }
            let reduced = terms[i].0.reduce();
            let v1 = terms[i].1;
            let ghost acc0 = model_terms(out@);
            let ghost bm = reduced@;
            if reduced.is_anti_box() {
                let twin = reduced.clone().into_anti();
                let p = seek(&out, &twin);
                proof {
                    lemma_seek_index(acc0, twin@);
                }
                let mut matched = false;
                if p < out.len() {
                    let c = twin.cmp(&out[p].0);
                    matched = matches!(c, Ordering::Equal);
                }
                if matched {
                    let v2 = out[p].1;
                    if v1 >= v2 {
                        out.remove(p);
                        proof {
                            broadcast use lemma_model_terms;

                            assert(model_terms(out@) =~= acc0.remove(p as int));
                        }
                        if v1 > v2 {
                            put_entry(&mut out, reduced, v1 - v2);
                        }
                    } else {
                        let shrunk = v2 - v1;
                        out[p].1 = shrunk;
                        proof {
                            broadcast use lemma_model_terms;

                            assert(model_terms(out@) =~= acc0.update(
                                p as int,
                                (acc0[p as int].0, shrunk),
                            ));
                        }
                    }
                } else {
                    merge_entry(&mut out, reduced, v1);
                }
                proof {
                    assert(model_terms(out@) == annihilate_step(acc0, bm, v1));
                }
            } else {
                merge_entry(&mut out, reduced, v1);
                proof {
                    assert(model_terms(out@) == annihilate_step(acc0, bm, v1));
                }
            }
            i += 1;
        }
        proof {
            broadcast use lemma_model_terms;

            assert(sm.skip(i as int) =~= Seq::<(Model, u32)>::empty());
        }
        let r = if self.is_box() {
            MBox::Positive(out)
        } else {
            MBox::Negative(out)
        };
        proof {
            assert(r@ =~= self@.annihilate());
        }
        r
    }
}

} // verus!
