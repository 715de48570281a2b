//! The box value itself: construction, sign queries, access to the child
//! terms, comparison, equality and mapping-style insertion.

use vstd::prelude::*;

verus! {

use core::cmp::Ordering;
use crate::model::{compare, compare_terms, put_term, seek_index, Model};
use crate::order::{lemma_compare_equal, lemma_seek_index};
use crate::wf::{lemma_from_count_wf, lemma_put_term_wf};

/// A box value: a positive box or a negative anti-box, holding child values
/// with their multiplicities. The children sit in ascending key order under
/// the total order, so the vector represents a mapping from child values to
/// multiplicities, as long as the value is kept well-formed.
#[derive(Debug)]
pub enum MBox {
    Positive(Vec<(MBox, u32)>),
    Negative(Vec<(MBox, u32)>),
}

/// The models of a sequence of (child, multiplicity) pairs.
pub open spec fn model_terms(s: Seq<(MBox, u32)>) -> Seq<(Model, u32)>
    decreases s,
{
    if s.len() == 0 {
        Seq::empty()
    } else {
        seq![(s[0].0.model(), s[0].1)] + model_terms(s.drop_first())
    }
}

/// `model_terms` pair by pair.
pub broadcast proof fn lemma_model_terms(s: Seq<(MBox, u32)>)
    ensures
        (#[trigger] model_terms(s)).len() == s.len(),
        forall|i: int| 0 <= i < s.len() ==> model_terms(s)[i] == (s[i].0.model(), s[i].1),
    decreases s,
{
    if s.len() > 0 {
        lemma_model_terms(s.drop_first());
        assert forall|i: int| 0 <= i < s.len() implies model_terms(s)[i] == (
            s[i].0.model(),
            s[i].1,
        ) by {
            if i > 0 {
                assert(model_terms(s)[i] == model_terms(s.drop_first())[i - 1]);
                assert(s[i] == s.drop_first()[i - 1]);
            }
        }
    }
}

impl MBox {
    /// The sign: true for a box, false for an anti-box.
    pub open spec fn spec_is_pos(self) -> bool {
        match self {
            MBox::Positive(_) => true,
            MBox::Negative(_) => false,
        }
    }

    /// The child terms as stored.
    pub open spec fn spec_terms(self) -> Seq<(MBox, u32)> {
        match self {
            MBox::Positive(v) => v@,
            MBox::Negative(v) => v@,
        }
    }

    /// The mathematical value this box stands for.
    pub open spec fn model(self) -> Model
        decreases self,
    {
        Model { pos: self.spec_is_pos(), terms: model_terms(self.spec_terms()) }
    }
}

impl View for MBox {
    type V = Model;

    open spec fn view(&self) -> Model {
        self.model()
    }
}

impl MBox {
    /// The empty box: the identity element.
    pub fn new() -> (r: Self)
        ensures
            r@ == Model::empty(),
            r@.wf(),
    {
        let r = MBox::Positive(Vec::new());
        proof {
            assert(r@.terms =~= Model::empty().terms);
            assert(Model::empty().wf());
        }
        r
    }

    /// The empty anti-box.
    pub fn new_anti() -> (r: Self)
        ensures
            r@ == Model::empty_anti(),
            r@.wf(),
    {
        MBox::new().into_anti()
    }

    /// The same terms under the opposite sign.
    pub fn into_anti(self) -> (r: Self)
        ensures
            r@ == self@.flip(),
            self@.wf() ==> r@.wf(),
    {
        let ghost m = self@;
        let r = match self {
            MBox::Positive(v) => MBox::Negative(v),
            MBox::Negative(v) => MBox::Positive(v),
        };
        proof {
            assert(r@.terms == m.terms);
        }
        r
    }

    /// The sign as an integer: one for a box, minus one for an anti-box.
    pub fn box_type(&self) -> (r: i32)
        ensures
            r == if self@.pos {
                1int
            } else {
                -1int
            },
    {
        match self {
            MBox::Positive(_) => 1,
            MBox::Negative(_) => -1,
        }
    }

    pub fn is_box(&self) -> (r: bool)
        ensures
            r == self@.pos,
    {
        self.box_type() == 1
    }

    pub fn is_anti_box(&self) -> (r: bool)
        ensures
            r == !self@.pos,
    {
        self.box_type() == -1
    }

    /// The positive empty box.
    pub fn is_zero(&self) -> (r: bool)
        ensures
            r == (self@ == Model::empty()),
    {
        proof {
            broadcast use lemma_model_terms;

            if self@.pos && self@.terms.len() == 0 {
                assert(self@ =~= Model::empty());
            }
        }
        self.is_box() && self.boxes_ref().len() == 0
    }

    /// The negative empty box.
    pub fn is_anti_zero(&self) -> (r: bool)
        ensures
            r == (self@ == Model::empty_anti()),
    {
        proof {
            broadcast use lemma_model_terms;

            if !self@.pos && self@.terms.len() == 0 {
                assert(self@ =~= Model::empty_anti());
            }
        }
        self.is_anti_box() && self.boxes_ref().len() == 0
    }

    /// The child terms, the value consumed.
    pub fn boxes(self) -> (r: Vec<(MBox, u32)>)
        ensures
            r@ == self.spec_terms(),
            model_terms(r@) == self@.terms,
    {
        match self {
            MBox::Positive(v) => v,
            MBox::Negative(v) => v,
        }
    }

    /// A read-only view of the child terms.
    pub fn boxes_ref(&self) -> (r: &Vec<(MBox, u32)>)
        ensures
            r@ == self.spec_terms(),
            model_terms(r@) == self@.terms,
    {
        match self {
            MBox::Positive(v) => v,
            MBox::Negative(v) => v,
        }
    }

    /// Mutable access to the child terms, for callers building a value in
    /// place; the sign stays as it is. The caller answers for keeping the
    /// terms in ascending key order.
    pub fn boxes_mut_ref(&mut self) -> (r: &mut Vec<(MBox, u32)>)
        ensures
            (*r)@ == old(self).spec_terms(),
            final(self).spec_terms() == final(r)@,
            final(self)@.pos == old(self)@.pos,
    {
        match self {
            MBox::Positive(v) => v,
            MBox::Negative(v) => v,
        }
    }

    /// A fresh positive box holding `self` once.
    pub fn wrap(self) -> (r: Self)
        ensures
            r@ == self@.wrap(),
            self@.wf() ==> r@.wf(),
    {
        let mut v: Vec<(MBox, u32)> = Vec::new();
        let ghost m = self@;
        v.push((self, 1));
        let r = MBox::Positive(v);
        proof {
            broadcast use lemma_model_terms;

            assert(model_terms(v@)[0] == (v@[0].0.model(), v@[0].1));
            assert(r@.terms =~= m.wrap().terms);
            if m.wf() {
                assert forall|i: int| 0 <= i < r@.terms.len() implies (
                #[trigger] r@.terms[i]).0.wf() by {
                    assert(r@.terms[i].0 == m);
                }
                assert(r@.wf());
            }
        }
        r
    }

    /// A fresh negative box holding `self` once.
    pub fn wrap_anti(self) -> (r: Self)
        ensures
            r@ == self@.wrap_anti(),
            self@.wf() ==> r@.wf(),
    {
        let ghost m = self@;
        let r = self.wrap().into_anti();
        proof {
            assert(r@ =~= m.wrap_anti());
        }
        r
    }

    /// The ordinary integer `n`.
    pub fn from_count(n: u32) -> (r: Self)
        ensures
            r@ == Model::from_count(n),
            r@.wf(),
    {
        if n == 0 {
            MBox::new()
        } else {
            let mut v: Vec<(MBox, u32)> = Vec::new();
            v.push((MBox::new(), n));
            let r = MBox::Positive(v);
            proof {
                broadcast use lemma_model_terms;

                assert(model_terms(v@)[0] == (v@[0].0.model(), v@[0].1));
                assert(r@.terms =~= Model::from_count(n).terms);
                lemma_from_count_wf(n);
            }
            r
        }
    }

    /// The distinguished generator: the integer one, wrapped once.
    pub fn alpha() -> (r: Self)
        ensures
            r@ == Model::alpha(),
            r@.wf(),
    {
        MBox::from_count(1).wrap()
    }

    /// The total order's verdict on two values.
    pub fn cmp(&self, other: &MBox) -> (r: Ordering)
        ensures
            r == compare(self@, other@),
        decreases *self,
    {
        proof {
            broadcast use lemma_model_terms;
        }
        if self.is_box() && other.is_anti_box() {
            return Ordering::Less;
        }
        if self.is_anti_box() && other.is_box() {
            return Ordering::Greater;
        }
        let s = self.boxes_ref();
        let t = other.boxes_ref();
        let ghost sm = model_terms(s@);
        let ghost tm = model_terms(t@);
        let mut i: usize = 0;
        proof {
            assert(sm.skip(0) =~= sm);
            assert(tm.skip(0) =~= tm);
        }
        loop
            invariant
                i <= s@.len(),
                i <= t@.len(),
                s@ == self.spec_terms(),
                t@ == other.spec_terms(),
                sm == model_terms(s@),
                tm == model_terms(t@),
                self@.pos == other@.pos,
                compare_terms(sm.skip(i as int), tm.skip(i as int)) == compare(self@, other@),
            decreases s@.len() - i,
        {
            proof {
                broadcast use lemma_model_terms;
            }
            if i == s.len() && i == t.len() {
                proof {
                    assert(sm.skip(i as int) =~= Seq::<(Model, u32)>::empty());
                    assert(tm.skip(i as int) =~= Seq::<(Model, u32)>::empty());
                }
                return Ordering::Equal;
            }
            if i == s.len() {
                proof {
                    assert(sm.skip(i as int) =~= Seq::<(Model, u32)>::empty());
                }
                return Ordering::Less;
            }
            if i == t.len() {
                proof {
                    assert(tm.skip(i as int) =~= Seq::<(Model, u32)>::empty());
                }
                return Ordering::Greater;
            }
            let c = s[i].0.cmp(&t[i].0);
            proof {
                assert(sm.skip(i as int)[0] == sm[i as int]);
                assert(tm.skip(i as int)[0] == tm[i as int]);
            }
            match c {
                Ordering::Equal => {},
                _ => {
                    return c;
                },
            }
            if s[i].1 < t[i].1 {
                return Ordering::Less;
            }
            if s[i].1 > t[i].1 {
                return Ordering::Greater;
            }
            proof {
                assert(sm.skip(i as int).drop_first() =~= sm.skip(i + 1 as int));
                assert(tm.skip(i as int).drop_first() =~= tm.skip(i + 1 as int));
            }
            i += 1;
        }
    }
}

impl PartialEq for MBox {
    /// Two values are equal when the total order calls them equal, which is
    /// exactly agreement of their mathematical values.
    fn eq(&self, other: &Self) -> (r: bool) {
        proof {
            lemma_compare_equal(self@, other@);
        }
        let c = self.cmp(other);
        matches!(c, Ordering::Equal)
    }
}

impl vstd::std_specs::cmp::PartialEqSpecImpl for MBox {
    open spec fn obeys_eq_spec() -> bool {
        true
    }

    open spec fn eq_spec(&self, other: &MBox) -> bool {
        self@ == other@
    }
}

impl PartialOrd for MBox {
    /// The partial order is the total order.
    fn partial_cmp(&self, other: &Self) -> (r: Option<Ordering>) {
        Some(self.cmp(other))
    }
}

impl vstd::std_specs::cmp::PartialOrdSpecImpl for MBox {
    open spec fn obeys_partial_cmp_spec() -> bool {
        true
    }

    open spec fn partial_cmp_spec(&self, other: &MBox) -> Option<Ordering> {
        Some(compare(self@, other@))
    }
}

impl Clone for MBox {
    /// A clone stands for the same mathematical value.
    fn clone(&self) -> (r: Self)
        ensures
            r@ == self@,
        decreases *self,
    {
        let src = self.boxes_ref();
        let mut out: Vec<(MBox, u32)> = Vec::new();
        let mut i: usize = 0;
        while i < src.len()
            invariant
                i <= src@.len(),
                src@ == self.spec_terms(),
                model_terms(out@) == model_terms(src@.take(i as int)),
            decreases src@.len() - i,
        {
            let k = src[i].0.clone();
            let m = src[i].1;
            out.push((k, m));
            proof {
                broadcast use lemma_model_terms;

                assert(src@.take(i + 1 as int)[i as int] == src@[i as int]);
                assert forall|j: int| 0 <= j < i + 1 implies model_terms(out@)[j] == model_terms(
                    src@.take(i + 1 as int),
                )[j] by {
                    assert(src@.take(i + 1 as int)[j] == src@[j]);
                    if j < i {
                        assert(src@.take(i as int)[j] == src@[j]);
                        assert(model_terms(out@)[j] == model_terms(src@.take(i as int))[j]);
                    }
                }
                assert(model_terms(out@) =~= model_terms(src@.take(i + 1 as int)));
            }
            i += 1;
        }
        proof {
            assert(src@.take(i as int) =~= src@);
        }
        let r = if self.is_box() {
            MBox::Positive(out)
        } else {
            MBox::Negative(out)
        };
        proof {
            assert(r@ =~= self@);
        }
        r
    }
}

/// Index of the first stored key that does not come strictly after `key`.
pub(crate) fn seek(v: &Vec<(MBox, u32)>, key: &MBox) -> (r: usize)
    ensures
        r == seek_index(model_terms(v@), key@),
{
    proof {
        broadcast use lemma_model_terms;
    }
    let ghost sm = model_terms(v@);
    let mut i: usize = 0;
    while i < v.len()
        invariant
            i <= v@.len(),
            sm == model_terms(v@),
            forall|j: int| 0 <= j < i ==> compare(key@, (#[trigger] sm[j]).0) == Ordering::Greater,
        decreases v@.len() - i,
    {
        proof {
            broadcast use lemma_model_terms;
        }
        let c = key.cmp(&v[i].0);
        match c {
            Ordering::Greater => {},
            _ => {
                proof {
                    broadcast use lemma_model_terms;

                    lemma_seek_index(sm, key@);
                    assert(sm[i as int].0 == v@[i as int].0.model());
                    let q = seek_index(sm, key@);
                    if q < i as int {
                        assert(compare(key@, sm[q].0) == Ordering::Greater);
                        assert(false);
                    }
                    if q > i as int {
                        assert(compare(key@, sm[i as int].0) == Ordering::Greater);
                        assert(false);
                    }
                }
                return i;
            },
        }
        i += 1;
    }
    proof {
        broadcast use lemma_model_terms;

        lemma_seek_index(sm, key@);
        let q = seek_index(sm, key@);
        if q < i as int {
            assert(compare(key@, sm[q].0) == Ordering::Greater);
            assert(false);
        }
    }
    i
}

/// Put multiplicity `value` under `key` in a sorted term vector, replacing
/// the multiplicity of an existing equal key.
pub(crate) fn put_entry(v: &mut Vec<(MBox, u32)>, key: MBox, value: u32)
    ensures
        model_terms(final(v)@) == put_term(model_terms(old(v)@), key@, value),
{
    proof {
        broadcast use lemma_model_terms;
    }
    let ghost sm = model_terms(v@);
    let p = seek(v, &key);
    proof {
        lemma_seek_index(sm, key@);
    }
    if p < v.len() {
        let c = key.cmp(&v[p].0);
        if matches!(c, Ordering::Equal) {
            v[p].1 = value;
            proof {
                assert(model_terms(v@) =~= sm.update(p as int, (sm[p as int].0, value)));
            }
            return ;
        }
    }
    v.insert(p, (key, value));
    proof {
        assert(model_terms(v@) =~= sm.insert(p as int, (key@, value)));
    }
}

/// Insert behaves as a mapping insertion: it replaces the multiplicity of
/// an existing equal key, and otherwise adds the pair at its ordered place.
impl MBox {
    pub fn insert(&mut self, key: MBox, value: u32)
        ensures
            final(self)@ == (Model { pos: old(self)@.pos, terms: put_term(old(self)@.terms, key@, value) }),
            old(self)@.wf() && key@.wf() ==> final(self)@.wf(),
    {
        proof {
            if old(self)@.wf() && key@.wf() {
                lemma_put_term_wf(old(self)@.terms, key@, value);
            }
        }
        match self {
            MBox::Positive(v) => put_entry(v, key, value),
            MBox::Negative(v) => put_entry(v, key, value),
        }
    }
}

} // verus!
