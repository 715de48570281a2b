//! Cancellation is idempotent: the value it returns is a fixed point.
//!
//! The proof goes in three steps. Reducing the children of a well-formed
//! value yields terms whose keys are themselves fixed points and among
//! which no box/anti-box twin pair survives — positive children arrive
//! before negative ones, so every surviving negative key has outlived its
//! positive twin. Folding such a sequence of terms once more rebuilds it
//! unchanged. Idempotence on the children follows by induction.

use vstd::prelude::*;

verus! {

use core::cmp::Ordering;
use crate::model::{annihilate_step, annihilate_terms, compare, has_key, merge_term, seek_index,
    wf_terms, Model};
use crate::order::{lemma_compare_equal, lemma_compare_refl, lemma_compare_reverse,
    lemma_compare_trans, lemma_seek_index};
use crate::wf::{lemma_annihilate_step_wf, lemma_annihilate_terms_wf, lemma_annihilate_wf,
    lemma_remove_wf, lemma_wf_terms_drop_first};

/// Every key is a fixed point of cancellation.
pub open spec fn all_reduced(s: Seq<(Model, u32)>) -> bool {
    forall|i: int| 0 <= i < s.len() ==> (#[trigger] s[i]).0.annihilate() == s[i].0
}

/// No key is another key's opposite-sign twin.
pub open spec fn no_twins(s: Seq<(Model, u32)>) -> bool {
    forall|i: int, j: int|
        0 <= i < s.len() && 0 <= j < s.len() ==> (#[trigger] s[i]).0 != (#[trigger] s[j]).0.flip()
}

/// Some key is negative.
pub open spec fn has_neg(s: Seq<(Model, u32)>) -> bool {
    exists|i: int| 0 <= i < s.len() && !(#[trigger] s[i]).0.pos
}

/// Every key is negative.
pub open spec fn all_neg(s: Seq<(Model, u32)>) -> bool {
    forall|i: int| 0 <= i < s.len() ==> !(#[trigger] s[i]).0.pos
}

/// Distinct positions of a well-formed term sequence hold distinct keys.
pub proof fn lemma_sorted_unique(s: Seq<(Model, u32)>, i: int, j: int)
    requires
        wf_terms(s),
        0 <= i < s.len(),
        0 <= j < s.len(),
        s[i].0 == s[j].0,
    ensures
        i == j,
{
    lemma_compare_refl(s[i].0);
    if i < j {
        assert(compare(s[i].0, s[j].0) == Ordering::Less);
    } else if j < i {
        assert(compare(s[j].0, s[i].0) == Ordering::Less);
    }
}

/// The test "the sought position holds an equal key" is exactly occurrence.
pub proof fn lemma_seek_found(s: Seq<(Model, u32)>, k: Model)
    requires
        wf_terms(s),
    ensures
        (seek_index(s, k) < s.len() && compare(k, s[seek_index(s, k)].0) == Ordering::Equal)
            <==> has_key(s, k),
{
    let p = seek_index(s, k);
    lemma_seek_index(s, k);
    if p < s.len() && compare(k, s[p].0) == Ordering::Equal {
        lemma_compare_equal(k, s[p].0);
        assert(s[p].0 == k);
    }
    if has_key(s, k) {
        let j = choose|j: int| 0 <= j < s.len() && (#[trigger] s[j]).0 == k;
        lemma_compare_refl(k);
        assert(compare(k, s[j].0) == Ordering::Equal);
        if p > j {
            assert(compare(k, s[j].0) == Ordering::Greater);
            assert(false);
        }
        if p < j {
            assert(compare(k, s[p].0) != Ordering::Greater);
            assert(compare(s[p].0, s[j].0) == Ordering::Less);
            lemma_compare_reverse(s[p].0, s[j].0);
            if compare(k, s[p].0) == Ordering::Equal {
            } else {
                assert(compare(k, s[p].0) == Ordering::Less);
                // k comes before s[p].0, which comes before s[j].0 == k
                lemma_compare_equal(k, s[p].0);
                lemma_compare_trans(k, s[p].0, s[j].0);
                assert(compare(k, s[j].0) == Ordering::Less);
                assert(false);
            }
        }
        if p == j {
            assert(compare(k, s[p].0) == Ordering::Equal);
        }
    }
}

/// One cancellation step keeps the accumulator's invariants: keys stay
/// fixed points, no twin pair appears, and a negative key can only appear
/// where one was already present or the child itself is negative.
proof fn lemma_step_props(acc: Seq<(Model, u32)>, b: Model, v1: u32)
    requires
        wf_terms(acc),
        b.wf(),
        b.annihilate() == b,
        all_reduced(acc),
        no_twins(acc),
        b.pos ==> !has_neg(acc),
    ensures
        wf_terms(annihilate_step(acc, b, v1)),
        all_reduced(annihilate_step(acc, b, v1)),
        no_twins(annihilate_step(acc, b, v1)),
        has_neg(annihilate_step(acc, b, v1)) ==> (has_neg(acc) || !b.pos),
{
    lemma_annihilate_step_wf(acc, b, v1);
    let out = annihilate_step(acc, b, v1);
    assert(b.flip().flip() =~= b);
    if !b.pos {
        let twin = b.flip();
        let p = seek_index(acc, twin);
        lemma_seek_index(acc, twin);
        lemma_seek_found(acc, twin);
        if p < acc.len() && compare(twin, acc[p].0) == Ordering::Equal {
            lemma_compare_equal(twin, acc[p].0);
            assert(acc[p].0 == twin);
            let v2 = acc[p].1;
            if v1 >= v2 {
                let trimmed = acc.remove(p);
                assert forall|j: int| 0 <= j < trimmed.len() implies (#[trigger] trimmed[j]).0
                    != twin && ((trimmed[j].0 == b) ==> false) && trimmed[j].0.annihilate()
                    == trimmed[j].0 by {
                    if j < p {
                        assert(trimmed[j] == acc[j]);
                        if acc[j].0 == twin {
                            lemma_sorted_unique(acc, j, p);
                        }
                        if acc[j].0 == b {
                            // a twin pair inside the accumulator
                            assert(acc[j].0 == acc[p].0.flip());
                            assert(false);
                        }
                    } else {
                        assert(trimmed[j] == acc[j + 1]);
                        if acc[j + 1].0 == twin {
                            lemma_sorted_unique(acc, j + 1, p);
                        }
                        if acc[j + 1].0 == b {
                            assert(acc[j + 1].0 == acc[p].0.flip());
                            assert(false);
                        }
                    }
                }
                assert forall|i: int, j: int|
                    0 <= i < trimmed.len() && 0 <= j < trimmed.len() implies (#[trigger] trimmed[i]).0
                    != (#[trigger] trimmed[j]).0.flip() by {
                    let ii: int = if i < p { i } else { i + 1 };
                    let jj: int = if j < p { j } else { j + 1 };
                    assert(trimmed[i] == acc[ii]);
                    assert(trimmed[j] == acc[jj]);
                }
                if v1 > v2 {
                    lemma_remove_wf(acc, p);
                    let q = seek_index(trimmed, b);
                    lemma_seek_index(trimmed, b);
                    if q < trimmed.len() && compare(b, trimmed[q].0) == Ordering::Equal {
                        lemma_compare_equal(b, trimmed[q].0);
                        assert(false);
                    }
                    let fin = trimmed.insert(q, (b, (v1 - v2) as u32));
                    assert(out == fin);
                    assert forall|j: int| 0 <= j < fin.len() implies ((#[trigger] fin[j]).0 == b
                        || (exists|jj: int|
                            0 <= jj < trimmed.len() && (#[trigger] trimmed[jj]).0 == fin[j].0)) by {
                        if j < q {
                            assert(fin[j] == trimmed[j]);
                        } else if j == q {
                        } else {
                            assert(fin[j] == trimmed[j - 1]);
                        }
                    }
                    assert forall|j: int| 0 <= j < fin.len() implies (#[trigger] fin[j]).0.annihilate()
                        == fin[j].0 by {
                        if fin[j].0 != b {
                            let jj = choose|jj: int|
                                0 <= jj < trimmed.len() && (#[trigger] trimmed[jj]).0 == fin[j].0;
                            assert(trimmed[jj].0.annihilate() == trimmed[jj].0);
                        }
                    }
                    assert forall|i: int, j: int| 0 <= i < fin.len() && 0 <= j < fin.len() implies (
                    #[trigger] fin[i]).0 != (#[trigger] fin[j]).0.flip() by {
                        if fin[i].0 == fin[j].0.flip() {
                            if fin[i].0 == b && fin[j].0 == b {
                                assert(b != b.flip());
                            } else if fin[i].0 == b {
                                let jj = choose|jj: int|
                                    0 <= jj < trimmed.len() && (#[trigger] trimmed[jj]).0 == fin[j].0;
                                // fin[j].0 == b.flip() == twin, yet the twin was removed
                                assert(trimmed[jj].0 == twin);
                            } else if fin[j].0 == b {
                                let ii = choose|ii: int|
                                    0 <= ii < trimmed.len() && (#[trigger] trimmed[ii]).0 == fin[i].0;
                                assert(trimmed[ii].0 == twin);
                            } else {
                                let ii = choose|ii: int|
                                    0 <= ii < trimmed.len() && (#[trigger] trimmed[ii]).0 == fin[i].0;
                                let jj = choose|jj: int|
                                    0 <= jj < trimmed.len() && (#[trigger] trimmed[jj]).0 == fin[j].0;
                                assert(trimmed[ii].0 != trimmed[jj].0.flip());
                            }
                        }
                    }
                } else {
                    assert(out == trimmed);
                }
            } else {
                let fin = acc.update(p, (acc[p].0, (v2 - v1) as u32));
                assert(out == fin);
                assert forall|j: int| 0 <= j < fin.len() implies (#[trigger] fin[j]).0 == acc[j].0 by {}
                assert forall|j: int| 0 <= j < fin.len() implies (#[trigger] fin[j]).0.annihilate()
                    == fin[j].0 by {
                    assert(fin[j].0 == acc[j].0);
                }
                assert forall|i: int, j: int| 0 <= i < fin.len() && 0 <= j < fin.len() implies (
                #[trigger] fin[i]).0 != (#[trigger] fin[j]).0.flip() by {
                    assert(fin[i].0 == acc[i].0);
                    assert(fin[j].0 == acc[j].0);
                }
            }
        } else {
            // the twin is absent: the child merges in
            assert(!has_key(acc, twin));
            lemma_merge_preserves(acc, b, v1);
        }
    } else {
        // a positive child: the accumulator holds no negative key, so no
        // twin of the child either
        let twin = b.flip();
        assert(!has_key(acc, twin)) by {
            if has_key(acc, twin) {
                let j = choose|j: int| 0 <= j < acc.len() && (#[trigger] acc[j]).0 == twin;
                assert(!acc[j].0.pos);
                assert(has_neg(acc));
            }
        }
        lemma_merge_preserves(acc, b, v1);
    }
    // a negative key of the result was already there, or is the child
    assert(has_neg(out) ==> (has_neg(acc) || !b.pos)) by {
        if has_neg(out) && b.pos && !has_neg(acc) {
            let j = choose|j: int| 0 <= j < out.len() && !(#[trigger] out[j]).0.pos;
            // out is merge_term(acc, b, v1) here
            lemma_merge_keys(acc, b, v1);
            if out[j].0 == b {
            } else {
                let jj = choose|jj: int|
                    0 <= jj < acc.len() && (#[trigger] acc[jj]).0 == out[j].0;
                assert(has_neg(acc));
            }
        }
    }
}

/// Every key of a merge is the merged key or one that was already there.
proof fn lemma_merge_keys(acc: Seq<(Model, u32)>, b: Model, v1: u32)
    ensures
        forall|j: int|
            0 <= j < merge_term(acc, b, v1).len() ==> ((#[trigger] merge_term(acc, b, v1)[j]).0 == b
                || has_key(acc, merge_term(acc, b, v1)[j].0)),
{
    let p = seek_index(acc, b);
    lemma_seek_index(acc, b);
    let fin = merge_term(acc, b, v1);
    if p < acc.len() && compare(b, acc[p].0) == Ordering::Equal {
        assert forall|j: int| 0 <= j < fin.len() implies ((#[trigger] fin[j]).0 == b || has_key(
            acc,
            fin[j].0,
        )) by {
            if j == p {
                assert(fin[j].0 == acc[j].0);
                assert(has_key(acc, fin[j].0));
            } else {
                assert(fin[j] == acc[j]);
                assert(has_key(acc, fin[j].0));
            }
        }
    } else {
        assert forall|j: int| 0 <= j < fin.len() implies ((#[trigger] fin[j]).0 == b || has_key(
            acc,
            fin[j].0,
        )) by {
            if j < p {
                assert(fin[j] == acc[j]);
                assert(has_key(acc, fin[j].0));
            } else if j > p {
                assert(fin[j] == acc[j - 1]);
                assert(has_key(acc, fin[j].0));
            }
        }
    }
}

/// Merging a fixed-point key whose twin is absent keeps the accumulator's
/// invariants.
proof fn lemma_merge_preserves(acc: Seq<(Model, u32)>, b: Model, v1: u32)
    requires
        wf_terms(acc),
        b.annihilate() == b,
        all_reduced(acc),
        no_twins(acc),
        !has_key(acc, b.flip()),
    ensures
        all_reduced(merge_term(acc, b, v1)),
        no_twins(merge_term(acc, b, v1)),
{
    let p = seek_index(acc, b);
    lemma_seek_index(acc, b);
    let fin = merge_term(acc, b, v1);
    assert(b.flip().flip() =~= b);
    lemma_merge_keys(acc, b, v1);
    assert forall|j: int| 0 <= j < fin.len() implies (#[trigger] fin[j]).0.annihilate()
        == fin[j].0 by {
        if fin[j].0 != b {
            let jj = choose|jj: int| 0 <= jj < acc.len() && (#[trigger] acc[jj]).0 == fin[j].0;
            assert(acc[jj].0.annihilate() == acc[jj].0);
        }
    }
    assert forall|i: int, j: int| 0 <= i < fin.len() && 0 <= j < fin.len() implies (
    #[trigger] fin[i]).0 != (#[trigger] fin[j]).0.flip() by {
        if fin[i].0 == fin[j].0.flip() {
            if fin[i].0 == b && fin[j].0 == b {
                assert(b != b.flip());
            } else if fin[i].0 == b {
                // the other key would be the absent twin
                let jj = choose|jj: int| 0 <= jj < acc.len() && (#[trigger] acc[jj]).0 == fin[j].0;
                assert(acc[jj].0 == b.flip());
            } else if fin[j].0 == b {
                let ii = choose|ii: int| 0 <= ii < acc.len() && (#[trigger] acc[ii]).0 == fin[i].0;
                assert(acc[ii].0 == b.flip());
            } else {
                let ii = choose|ii: int| 0 <= ii < acc.len() && (#[trigger] acc[ii]).0 == fin[i].0;
                let jj = choose|jj: int| 0 <= jj < acc.len() && (#[trigger] acc[jj]).0 == fin[j].0;
                assert(acc[ii].0 != acc[jj].0.flip());
            }
        }
    }
}

/// Folding the children of a well-formed value leaves only fixed-point
/// keys and no surviving twin pair.
proof fn lemma_annihilate_output(s: Seq<(Model, u32)>, acc: Seq<(Model, u32)>)
    requires
        wf_terms(s),
        wf_terms(acc),
        forall|i: int|
            0 <= i < s.len() ==> (#[trigger] s[i]).0.annihilate().annihilate()
                == s[i].0.annihilate(),
        all_reduced(acc),
        no_twins(acc),
        has_neg(acc) ==> all_neg(s),
    ensures
        all_reduced(annihilate_terms(s, acc)),
        no_twins(annihilate_terms(s, acc)),
    decreases s,
{
    if s.len() > 0 {
        let b = s[0].0.annihilate();
        let v = s[0].1;
        assert(s[0].0.wf());
        lemma_annihilate_wf(s[0].0);
        assert(b.annihilate() == b);
        if b.pos && has_neg(acc) {
            assert(!s[0].0.pos);
            assert(false);
        }
        lemma_step_props(acc, b, v);
        let acc2 = annihilate_step(acc, b, v);
        let rest = s.drop_first();
        lemma_wf_terms_drop_first(s);
        assert forall|i: int|
            0 <= i < rest.len() implies (#[trigger] rest[i]).0.annihilate().annihilate()
            == rest[i].0.annihilate() by {
            assert(rest[i] == s[i + 1]);
        }
        if has_neg(acc2) {
            if !b.pos {
                assert(!s[0].0.pos);
                assert forall|i: int| 0 <= i < rest.len() implies !(#[trigger] rest[i]).0.pos by {
                    assert(rest[i] == s[i + 1]);
                    if s[i + 1].0.pos {
                        assert(compare(s[0].0, s[i + 1].0) == Ordering::Less);
                        assert(false);
                    }
                }
            } else {
                assert(has_neg(acc));
                assert forall|i: int| 0 <= i < rest.len() implies !(#[trigger] rest[i]).0.pos by {
                    assert(rest[i] == s[i + 1]);
                }
            }
        }
        lemma_annihilate_output(rest, acc2);
    }
}

/// A prefix of a well-formed term sequence is well-formed.
proof fn lemma_wf_terms_take(s: Seq<(Model, u32)>, n: int)
    requires
        wf_terms(s),
        0 <= n <= s.len(),
    ensures
        wf_terms(s.take(n)),
{
    let t = s.take(n);
    assert forall|i: int| 0 <= i < t.len() implies (#[trigger] t[i]).0.wf() by {
        assert(t[i] == s[i]);
    }
    assert forall|i: int, j: int| 0 <= i < j < t.len() implies compare(
        (#[trigger] t[i]).0,
        (#[trigger] t[j]).0,
    ) == Ordering::Less by {
        assert(t[i] == s[i]);
        assert(t[j] == s[j]);
    }
}

/// Folding a well-formed sequence of fixed-point keys without twin pairs
/// rebuilds it unchanged.
proof fn lemma_rebuild(s: Seq<(Model, u32)>, n: int)
    requires
        wf_terms(s),
        all_reduced(s),
        no_twins(s),
        0 <= n <= s.len(),
    ensures
        annihilate_terms(s.skip(n), s.take(n)) == s,
    decreases s.len() - n,
{
    if n == s.len() {
        assert(s.skip(n) =~= Seq::<(Model, u32)>::empty());
        assert(s.take(n) =~= s);
    } else {
        let acc = s.take(n);
        let b = s[n].0;
        let v = s[n].1;
        assert(s.skip(n)[0] == s[n]);
        assert(b.annihilate() == b);
        lemma_wf_terms_take(s, n);
        // every stored key comes strictly before the next one
        assert forall|j: int| 0 <= j < n implies compare(b, (#[trigger] acc[j]).0)
            == Ordering::Greater by {
            assert(acc[j] == s[j]);
            assert(compare(s[j].0, b) == Ordering::Less);
            lemma_compare_reverse(s[j].0, b);
        }
        let p = seek_index(acc, b);
        lemma_seek_index(acc, b);
        if p < n {
            assert(compare(b, acc[p].0) != Ordering::Greater);
            assert(false);
        }
        assert(p == n);
        if !b.pos {
            let twin = b.flip();
            let q = seek_index(acc, twin);
            lemma_seek_index(acc, twin);
            if q < acc.len() && compare(twin, acc[q].0) == Ordering::Equal {
                lemma_compare_equal(twin, acc[q].0);
                assert(acc[q] == s[q]);
                assert(s[q].0 == s[n].0.flip());
                assert(false);
            }
            assert(annihilate_step(acc, b, v) == merge_term(acc, b, v));
        }
        assert(annihilate_step(acc, b, v) == merge_term(acc, b, v));
        assert(merge_term(acc, b, v) == acc.insert(p, (b, v)));
        assert(acc.insert(p, (b, v)) =~= s.take(n + 1)) by {
            assert forall|j: int| 0 <= j < n + 1 implies acc.insert(p, (b, v))[j] == s.take(
                n + 1,
            )[j] by {
                if j < n {
                    assert(acc.insert(p, (b, v))[j] == acc[j]);
                    assert(acc[j] == s[j]);
                } else {
                    assert(acc.insert(p, (b, v))[j] == (b, v));
                    assert(s[n] == (s[n].0, s[n].1));
                }
            }
        }
        assert(s.skip(n).drop_first() =~= s.skip(n + 1));
        lemma_rebuild(s, n + 1);
    }
}

/// A cancelled value is in reduced form: every key is itself a fixed point
/// of cancellation, and no box/anti-box twin pair survives among the keys.
pub proof fn lemma_annihilate_reduced(m: Model)
    requires
        m.wf(),
    ensures
        all_reduced(m.annihilate().terms),
        no_twins(m.annihilate().terms),
{
    if m.terms.len() > 0 {
        assert forall|i: int|
            0 <= i < m.terms.len() implies (#[trigger] m.terms[i]).0.annihilate().annihilate()
            == m.terms[i].0.annihilate() by {
            assert(m.terms[i].0.wf());
            lemma_annihilate_idempotent(m.terms[i].0);
        }
        let none = Seq::<(Model, u32)>::empty();
        assert(wf_terms(none));
        lemma_annihilate_output(m.terms, none);
    }
}

/// Cancellation is idempotent: cancelling twice is cancelling once.
pub proof fn lemma_annihilate_idempotent(m: Model)
    requires
        m.wf(),
    ensures
        m.annihilate().annihilate() == m.annihilate(),
    decreases m,
{
    let w = m.annihilate();
    lemma_annihilate_wf(m);
    if m.terms.len() > 0 {
        assert forall|i: int|
            0 <= i < m.terms.len() implies (#[trigger] m.terms[i]).0.annihilate().annihilate()
            == m.terms[i].0.annihilate() by {
            assert(m.terms[i].0.wf());
            lemma_annihilate_idempotent(m.terms[i].0);
        }
        let none = Seq::<(Model, u32)>::empty();
        assert(wf_terms(none));
        lemma_annihilate_output(m.terms, none);
        lemma_annihilate_terms_wf(m.terms, none);
        assert(w.terms == annihilate_terms(m.terms, none));
        if w.terms.len() > 0 {
            lemma_rebuild(w.terms, 0);
            assert(w.terms.skip(0) =~= w.terms);
            assert(w.terms.take(0) =~= Seq::<(Model, u32)>::empty());
            assert(annihilate_terms(w.terms, Seq::<(Model, u32)>::empty()) == w.terms);
            assert(w.annihilate() =~= w);
        }
    }
}

} // verus!
