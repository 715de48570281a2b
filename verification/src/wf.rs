//! Well-formedness — terms strictly ascending by key, keys well-formed —
//! is preserved by every operation on term sequences, and so by the
//! algebraic operations themselves.

use vstd::prelude::*;

verus! {

use core::cmp::Ordering;
use crate::model::{
    annihilate_step, annihilate_terms, compare, merge_term, merge_terms, mul_row, mul_terms,
    put_term, seek_index, wf_terms, Model,
};
use crate::order::{lemma_compare_reverse, lemma_compare_trans, lemma_seek_index};

/// A suffix of a well-formed term sequence is well-formed.
pub proof fn lemma_wf_terms_drop_first(s: Seq<(Model, u32)>)
    requires
        wf_terms(s),
        s.len() > 0,
    ensures
        wf_terms(s.drop_first()),
{
    let t = s.drop_first();
    assert forall|i: int| 0 <= i < t.len() implies (#[trigger] t[i]).0.wf() by {
        assert(t[i] == s[i + 1]);
    }
    assert forall|i: int, j: int| 0 <= i < j < t.len() implies compare(
        (#[trigger] t[i]).0,
        (#[trigger] t[j]).0,
    ) == Ordering::Less by {
        assert(t[i] == s[i + 1]);
        assert(t[j] == s[j + 1]);
    }
}

/// Inserting a well-formed key at its seek position, where it does not
/// already occur, keeps a term sequence well-formed.
pub proof fn lemma_insert_wf(s: Seq<(Model, u32)>, k: Model, v: u32)
    requires
        wf_terms(s),
        k.wf(),
        seek_index(s, k) < s.len() ==> compare(k, s[seek_index(s, k)].0) == Ordering::Less,
    ensures
        wf_terms(s.insert(seek_index(s, k), (k, v))),
{
    let p = seek_index(s, k);
    lemma_seek_index(s, k);
    let t = s.insert(p, (k, v));
    assert forall|i: int| 0 <= i < t.len() implies (#[trigger] t[i]).0.wf() by {
        if i < p {
            assert(t[i] == s[i]);
        } else if i == p {
            assert(t[i] == (k, v));
        } else {
            assert(t[i] == s[i - 1]);
        }
    }
    assert forall|i: int, j: int| 0 <= i < j < t.len() implies compare(
        (#[trigger] t[i]).0,
        (#[trigger] t[j]).0,
    ) == Ordering::Less by {
        if i < p {
            assert(t[i] == s[i]);
        } else if i == p {
            assert(t[i] == (k, v));
        } else {
            assert(t[i] == s[i - 1]);
        }
        if j < p {
            assert(t[j] == s[j]);
        } else if j == p {
            assert(t[j] == (k, v));
        } else {
            assert(t[j] == s[j - 1]);
        }
        if j == p {
            lemma_compare_reverse(s[i].0, k);
        } else if i == p && j > p {
            if j - 1 > p {
                lemma_compare_trans(k, s[p].0, s[j - 1].0);
            }
        }
    }
}

/// Replacing one multiplicity keeps a term sequence well-formed.
pub proof fn lemma_update_wf(s: Seq<(Model, u32)>, p: int, v: u32)
    requires
        wf_terms(s),
        0 <= p < s.len(),
    ensures
        wf_terms(s.update(p, (s[p].0, v))),
{
    let t = s.update(p, (s[p].0, v));
    assert forall|i: int| 0 <= i < t.len() implies (#[trigger] t[i]).0.wf() by {
        assert(t[i].0 == s[i].0);
    }
    assert forall|i: int, j: int| 0 <= i < j < t.len() implies compare(
        (#[trigger] t[i]).0,
        (#[trigger] t[j]).0,
    ) == Ordering::Less by {
        assert(t[i].0 == s[i].0);
        assert(t[j].0 == s[j].0);
    }
}

/// Removing one term keeps a term sequence well-formed.
pub proof fn lemma_remove_wf(s: Seq<(Model, u32)>, p: int)
    requires
        wf_terms(s),
        0 <= p < s.len(),
    ensures
        wf_terms(s.remove(p)),
{
    let t = s.remove(p);
    assert forall|i: int| 0 <= i < t.len() implies (#[trigger] t[i]).0.wf() by {
        if i < p {
            assert(t[i] == s[i]);
        } else {
            assert(t[i] == s[i + 1]);
        }
    }
    assert forall|i: int, j: int| 0 <= i < j < t.len() implies compare(
        (#[trigger] t[i]).0,
        (#[trigger] t[j]).0,
    ) == Ordering::Less by {
        if i < p {
            assert(t[i] == s[i]);
        } else {
            assert(t[i] == s[i + 1]);
        }
        if j < p {
            assert(t[j] == s[j]);
        } else {
            assert(t[j] == s[j + 1]);
        }
    }
}

/// Merging a well-formed key in keeps a term sequence well-formed.
pub proof fn lemma_merge_term_wf(s: Seq<(Model, u32)>, k: Model, v: u32)
    requires
        wf_terms(s),
        k.wf(),
    ensures
        wf_terms(merge_term(s, k, v)),
{
    let p = seek_index(s, k);
    lemma_seek_index(s, k);
    if p < s.len() && compare(k, s[p].0) == Ordering::Equal {
        lemma_update_wf(s, p, s[p].1.wrapping_add(v));
    } else {
        lemma_insert_wf(s, k, v);
    }
}

/// Putting a well-formed key in keeps a term sequence well-formed.
pub proof fn lemma_put_term_wf(s: Seq<(Model, u32)>, k: Model, v: u32)
    requires
        wf_terms(s),
        k.wf(),
    ensures
        wf_terms(put_term(s, k, v)),
{
    let p = seek_index(s, k);
    lemma_seek_index(s, k);
    if p < s.len() && compare(k, s[p].0) == Ordering::Equal {
        lemma_update_wf(s, p, v);
    } else {
        lemma_insert_wf(s, k, v);
    }
}

/// The multiset union of two well-formed term sequences is well-formed.
pub proof fn lemma_merge_terms_wf(s: Seq<(Model, u32)>, t: Seq<(Model, u32)>)
    requires
        wf_terms(s),
        wf_terms(t),
    ensures
        wf_terms(merge_terms(s, t)),
    decreases t,
{
    if t.len() > 0 {
        assert(t[0].0.wf());
        lemma_merge_term_wf(s, t[0].0, t[0].1);
        lemma_wf_terms_drop_first(t);
        lemma_merge_terms_wf(merge_term(s, t[0].0, t[0].1), t.drop_first());
    }
}

/// Addition of well-formed values gives a well-formed value.
pub proof fn lemma_add_wf(a: Model, b: Model)
    requires
        a.wf(),
        b.wf(),
    ensures
        a.add(b).wf(),
{
    lemma_merge_terms_wf(a.terms, b.terms);
}

/// One product row over well-formed terms stays well-formed.
pub proof fn lemma_mul_row_wf(acc: Seq<(Model, u32)>, k1: Model, v1: u32, t: Seq<(Model, u32)>)
    requires
        wf_terms(acc),
        k1.wf(),
        wf_terms(t),
    ensures
        wf_terms(mul_row(acc, k1, v1, t)),
    decreases t,
{
    if t.len() > 0 {
        assert(t[0].0.wf());
        lemma_add_wf(k1, t[0].0);
        lemma_put_term_wf(acc, k1.add(t[0].0), v1.wrapping_mul(t[0].1));
        lemma_wf_terms_drop_first(t);
        lemma_mul_row_wf(put_term(acc, k1.add(t[0].0), v1.wrapping_mul(t[0].1)), k1, v1,
            t.drop_first());
    }
}

/// The full product of well-formed term sequences stays well-formed.
pub proof fn lemma_mul_terms_wf(acc: Seq<(Model, u32)>, s: Seq<(Model, u32)>, t: Seq<(Model, u32)>)
    requires
        wf_terms(acc),
        wf_terms(s),
        wf_terms(t),
    ensures
        wf_terms(mul_terms(acc, s, t)),
    decreases s,
{
    if s.len() > 0 {
        assert(s[0].0.wf());
        lemma_mul_row_wf(acc, s[0].0, s[0].1, t);
        lemma_wf_terms_drop_first(s);
        lemma_mul_terms_wf(mul_row(acc, s[0].0, s[0].1, t), s.drop_first(), t);
    }
}

/// Multiplication of well-formed values gives a well-formed value.
pub proof fn lemma_mul_wf(a: Model, b: Model)
    requires
        a.wf(),
        b.wf(),
    ensures
        a.mul(b).wf(),
{
    assert(wf_terms(Seq::<(Model, u32)>::empty()));
    lemma_mul_terms_wf(Seq::empty(), a.terms, b.terms);
}

/// Every integer value is well-formed.
pub proof fn lemma_from_count_wf(n: u32)
    ensures
        Model::from_count(n).wf(),
{
    assert(Model::empty().wf());
    let m = Model::from_count(n);
    assert forall|i: int| 0 <= i < m.terms.len() implies (#[trigger] m.terms[i]).0.wf() by {
        assert(m.terms[i].0 == Model::empty());
    }
}

/// A power of a well-formed value is well-formed.
pub proof fn lemma_pow_wf(a: Model, exp: u32)
    requires
        a.wf(),
    ensures
        a.pow(exp).wf(),
    decreases exp,
{
    if exp == 0 {
        lemma_from_count_wf(1);
    } else if exp > 1 {
        lemma_pow_wf(a, (exp - 1) as u32);
        lemma_mul_wf(a.pow((exp - 1) as u32), a);
    }
}

/// Folding one reduced, well-formed child into a well-formed accumulator
/// keeps it well-formed.
pub proof fn lemma_annihilate_step_wf(acc: Seq<(Model, u32)>, b: Model, v1: u32)
    requires
        wf_terms(acc),
        b.wf(),
    ensures
        wf_terms(annihilate_step(acc, b, v1)),
{
    if !b.pos {
        let twin = b.flip();
        assert(twin.wf());
        let p = seek_index(acc, twin);
        lemma_seek_index(acc, twin);
        if p < acc.len() && compare(twin, acc[p].0) == Ordering::Equal {
            let v2 = acc[p].1;
            if v1 >= v2 {
                lemma_remove_wf(acc, p);
                if v1 > v2 {
                    lemma_put_term_wf(acc.remove(p), b, (v1 - v2) as u32);
                }
            } else {
                lemma_update_wf(acc, p, (v2 - v1) as u32);
            }
        } else {
            lemma_merge_term_wf(acc, b, v1);
        }
    } else {
        lemma_merge_term_wf(acc, b, v1);
    }
}

/// Cancellation gives a well-formed value of the same sign.
pub proof fn lemma_annihilate_wf(a: Model)
    requires
        a.wf(),
    ensures
        a.annihilate().wf(),
        a.annihilate().pos == a.pos,
    decreases a,
{
    if a.terms.len() > 0 {
        assert(wf_terms(Seq::<(Model, u32)>::empty()));
        lemma_annihilate_terms_wf(a.terms, Seq::empty());
    }
}

pub proof fn lemma_annihilate_terms_wf(s: Seq<(Model, u32)>, acc: Seq<(Model, u32)>)
    requires
        wf_terms(s),
        wf_terms(acc),
    ensures
        wf_terms(annihilate_terms(s, acc)),
    decreases s,
{
    if s.len() > 0 {
        assert(s[0].0.wf());
        lemma_annihilate_wf(s[0].0);
        lemma_annihilate_step_wf(acc, s[0].0.annihilate(), s[0].1);
        lemma_wf_terms_drop_first(s);
        lemma_annihilate_terms_wf(s.drop_first(), annihilate_step(acc, s[0].0.annihilate(), s[0].1));
    }
}

} // verus!
