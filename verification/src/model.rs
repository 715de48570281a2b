//! The mathematical model of a box value, and the specification-level
//! definitions of the total order and of the algebraic operations.

use vstd::prelude::*;

verus! {

use core::cmp::Ordering;

/// Model of a box value: a sign (`pos` is true for a box, false for an
/// anti-box) and the sequence of (child, multiplicity) terms. A well-formed
/// value keeps its terms in strictly ascending key order under `compare`,
/// so the sequence represents a mapping from child values to multiplicities.
#[verifier::ext_equal]
pub struct Model {
    pub pos: bool,
    pub terms: Seq<(Model, u32)>,
}

impl Model {
    /// The positive empty box: the identity element.
    pub open spec fn empty() -> Model {
        Model { pos: true, terms: Seq::empty() }
    }

    /// The negative empty box.
    pub open spec fn empty_anti() -> Model {
        Model { pos: false, terms: Seq::empty() }
    }

    /// The same terms under the opposite sign.
    pub open spec fn flip(self) -> Model {
        Model { pos: !self.pos, terms: self.terms }
    }

    /// The ordinary integer `n`: `n` copies of the empty box, or no terms
    /// at all when `n` is zero.
    pub open spec fn from_count(n: u32) -> Model {
        if n == 0 {
            Model::empty()
        } else {
            Model { pos: true, terms: seq![(Model::empty(), n)] }
        }
    }

    /// A fresh positive box holding `self` once.
    pub open spec fn wrap(self) -> Model {
        Model { pos: true, terms: seq![(self, 1u32)] }
    }

    /// A fresh negative box holding `self` once.
    pub open spec fn wrap_anti(self) -> Model {
        Model { pos: false, terms: seq![(self, 1u32)] }
    }

    /// The distinguished generator: the integer one, wrapped once.
    pub open spec fn alpha() -> Model {
        Model::from_count(1).wrap()
    }

    /// Well-formed: terms strictly ascending by key under the total order
    /// (hence keys unique), every key itself well-formed.
    pub open spec fn wf(self) -> bool
        decreases self,
    {
        wf_terms(self.terms)
    }
}

/// Well-formed term sequence: strictly ascending by key, keys well-formed.
pub open spec fn wf_terms(s: Seq<(Model, u32)>) -> bool
    decreases s,
{
    &&& sorted(s)
    &&& forall|i: int| 0 <= i < s.len() ==> (#[trigger] s[i]).0.wf()
}

/// Strictly ascending by key under the total order.
pub open spec fn sorted(s: Seq<(Model, u32)>) -> bool {
    forall|i: int, j: int|
        0 <= i < j < s.len() ==> compare(#[trigger] s[i].0, #[trigger] s[j].0) == Ordering::Less
}

/// The total order: every positive value comes before every negative one;
/// within one sign, the term sequences compare lexicographically.
pub open spec fn compare(a: Model, b: Model) -> Ordering
    decreases a,
{
    if a.pos && !b.pos {
        Ordering::Less
    } else if !a.pos && b.pos {
        Ordering::Greater
    } else {
        compare_terms(a.terms, b.terms)
    }
}

/// Lexicographic comparison of two term sequences: the first differing pair
/// decides, by key first and multiplicity second; a strict prefix is less.
/// The empty sequence therefore comes first.
pub open spec fn compare_terms(s: Seq<(Model, u32)>, t: Seq<(Model, u32)>) -> Ordering
    decreases s,
{
    if s.len() == 0 && t.len() == 0 {
        Ordering::Equal
    } else if s.len() == 0 {
        Ordering::Less
    } else if t.len() == 0 {
        Ordering::Greater
    } else {
        let c = compare(s[0].0, t[0].0);
        if c != Ordering::Equal {
            c
        } else if s[0].1 < t[0].1 {
            Ordering::Less
        } else if s[0].1 > t[0].1 {
            Ordering::Greater
        } else {
            compare_terms(s.drop_first(), t.drop_first())
        }
    }
}

/// The opposite verdict.
pub open spec fn reverse(o: Ordering) -> Ordering {
    match o {
        Ordering::Less => Ordering::Greater,
        Ordering::Equal => Ordering::Equal,
        Ordering::Greater => Ordering::Less,
    }
}

/// The key `k` occurs among the terms of `s`.
pub open spec fn has_key(s: Seq<(Model, u32)>, k: Model) -> bool {
    exists|j: int| 0 <= j < s.len() && (#[trigger] s[j]).0 == k
}

/// The multiplicity stored under the key `k`: the value at its first
/// occurrence, or zero where it does not occur.
pub open spec fn mult_of(s: Seq<(Model, u32)>, k: Model) -> u32
    decreases s,
{
    if s.len() == 0 {
        0
    } else if s[0].0 == k {
        s[0].1
    } else {
        mult_of(s.drop_first(), k)
    }
}

/// Index of the first term whose key does not come strictly after `k`,
/// or `s.len()` when every key does. On a sorted sequence this is where a
/// term keyed `k` sits, or where one would be inserted.
pub open spec fn seek_index(s: Seq<(Model, u32)>, k: Model) -> int
    decreases s,
{
    if s.len() == 0 {
        0
    } else if compare(k, s[0].0) == Ordering::Greater {
        1 + seek_index(s.drop_first(), k)
    } else {
        0
    }
}

/// Add multiplicity `v` under key `k`: an existing term keyed `k` grows by
/// `v` (wrapping around the integer width), otherwise `(k, v)` enters at its
/// ordered position.
pub open spec fn merge_term(s: Seq<(Model, u32)>, k: Model, v: u32) -> Seq<(Model, u32)> {
    let p = seek_index(s, k);
    if p < s.len() && compare(k, s[p].0) == Ordering::Equal {
        s.update(p, (s[p].0, s[p].1.wrapping_add(v)))
    } else {
        s.insert(p, (k, v))
    }
}

/// Put multiplicity `v` under key `k`: an existing term keyed `k` is
/// overwritten, otherwise `(k, v)` enters at its ordered position.
pub open spec fn put_term(s: Seq<(Model, u32)>, k: Model, v: u32) -> Seq<(Model, u32)> {
    let p = seek_index(s, k);
    if p < s.len() && compare(k, s[p].0) == Ordering::Equal {
        s.update(p, (s[p].0, v))
    } else {
        s.insert(p, (k, v))
    }
}

/// Each term of `t` merged into `s` in turn: the multiset union of the two
/// term sequences, multiplicities adding where keys meet.
pub open spec fn merge_terms(s: Seq<(Model, u32)>, t: Seq<(Model, u32)>) -> Seq<(Model, u32)>
    decreases t,
{
    if t.len() == 0 {
        s
    } else {
        merge_terms(merge_term(s, t[0].0, t[0].1), t.drop_first())
    }
}

impl Model {
    /// Addition: the multiset union of the terms, under the sign-product
    /// rule (equal signs give a positive result, mixed signs a negative one).
    pub open spec fn add(self, other: Model) -> Model {
        Model { pos: self.pos == other.pos, terms: merge_terms(self.terms, other.terms) }
    }
}

/// One row of the product: `(k1, v1)` paired against every term of `t` in
/// order, each candidate `(k1 + key, v1 * mult)` put into the accumulator.
/// A later candidate with an already-present key overwrites the earlier term.
pub open spec fn mul_row(
    acc: Seq<(Model, u32)>,
    k1: Model,
    v1: u32,
    t: Seq<(Model, u32)>,
) -> Seq<(Model, u32)>
    decreases t,
{
    if t.len() == 0 {
        acc
    } else {
        mul_row(put_term(acc, k1.add(t[0].0), v1.wrapping_mul(t[0].1)), k1, v1, t.drop_first())
    }
}

/// The full product of two term sequences: rows taken in ascending order
/// of `s`, accumulated left to right.
pub open spec fn mul_terms(
    acc: Seq<(Model, u32)>,
    s: Seq<(Model, u32)>,
    t: Seq<(Model, u32)>,
) -> Seq<(Model, u32)>
    decreases s,
{
    if s.len() == 0 {
        acc
    } else {
        mul_terms(mul_row(acc, s[0].0, s[0].1, t), s.drop_first(), t)
    }
}

impl Model {
    /// Multiplication: every pair of terms contributes the sum of its keys
    /// with the product of its multiplicities, under the sign-product rule.
    pub open spec fn mul(self, other: Model) -> Model {
        Model { pos: self.pos == other.pos, terms: mul_terms(Seq::empty(), self.terms, other.terms) }
    }

    /// Exponentiation: the integer one at exponent zero, otherwise repeated
    /// multiplication by `self` from the left.
    pub open spec fn pow(self, exp: u32) -> Model
        decreases exp,
    {
        if exp == 0 {
            Model::from_count(1)
        } else if exp == 1 {
            self
        } else {
            self.pow((exp - 1) as u32).mul(self)
        }
    }

    /// Cancellation: every child is reduced recursively, then folded into a
    /// fresh accumulator under the same sign, negative children consuming
    /// their positive twins.
    pub open spec fn annihilate(self) -> Model
        decreases self,
    {
        if self.terms.len() == 0 {
            self
        } else {
            Model { pos: self.pos, terms: annihilate_terms(self.terms, Seq::empty()) }
        }
    }
}

/// The reduced children of `s`, folded one after the other into `acc`.
pub open spec fn annihilate_terms(
    s: Seq<(Model, u32)>,
    acc: Seq<(Model, u32)>,
) -> Seq<(Model, u32)>
    decreases s,
{
    if s.len() == 0 {
        acc
    } else {
        annihilate_terms(s.drop_first(), annihilate_step(acc, s[0].0.annihilate(), s[0].1))
    }
}

/// One reduced child `b` with multiplicity `v1` folded into the accumulator.
/// A negative child cancels against its positive twin when the twin is
/// present: the smaller multiplicity is consumed and the difference remains
/// under the surviving sign. Otherwise the child merges in normally.
pub open spec fn annihilate_step(acc: Seq<(Model, u32)>, b: Model, v1: u32) -> Seq<(Model, u32)> {
    if !b.pos {
        let twin = b.flip();
        let p = seek_index(acc, twin);
        if p < acc.len() && compare(twin, acc[p].0) == Ordering::Equal {
            let v2 = acc[p].1;
            if v1 >= v2 {
                let trimmed = acc.remove(p);
                if v1 > v2 {
                    put_term(trimmed, b, (v1 - v2) as u32)
                } else {
                    trimmed
                }
            } else {
                acc.update(p, (acc[p].0, (v2 - v1) as u32))
            }
        } else {
            merge_term(acc, b, v1)
        }
    } else {
        merge_term(acc, b, v1)
    }
}

} // verus!
