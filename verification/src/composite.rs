//! Composite identifiers: non-empty sequences of digit levels, compared
//! lexicographically, with a `between` operation that extends precision
//! by one level whenever a single level admits no strictly-between
//! value.

use core::cmp::Ordering;
use smallvec::SmallVec;
use vstd::prelude::*;

use crate::digit::digit_between_ok;
use crate::digit::id_eq;
use crate::digit::id_lt;
use crate::digit::id_view;
use crate::digit::id_wf;
use crate::digit::lemma_first_rise_from;
use crate::digit::lemma_id_eq_not_lt;
use crate::digit::lemma_mid_gt_low;
use crate::digit::lemma_mid_lane;
use crate::digit::lemma_mid_lt_high;
use crate::digit::lex_lt_from;
use crate::digit::mid_seq;
use crate::digit::mid_view;
use crate::digit::rise;
use crate::digit::role_view;
use crate::digit::sig_lanes;
use crate::digit::Id;

verus! {

/// The backing store of a composite identifier: smallvec's vector, held
/// behind one opaque struct so that contracts can speak of its contents.
#[verifier::external_body]
#[derive(Debug)]
pub struct LevelStore {
    v: SmallVec<[Id; 1]>,
}

/// The digit levels that a backing store holds, in order.
pub uninterp spec fn sv_levels(v: LevelStore) -> Seq<Id>;

/// Relies on smallvec::SmallVec::new: the fresh vector is empty.
#[verifier::external_body]
fn sv_new() -> (r: LevelStore)
    ensures
        sv_levels(r) == Seq::<Id>::empty(),
{
    LevelStore { v: SmallVec::new() }
}

/// Relies on smallvec::SmallVec::push: appends one element at the back.
#[verifier::external_body]
fn sv_push(s: &mut LevelStore, d: Id)
    ensures
        sv_levels(*final(s)) == sv_levels(*old(s)).push(d),
{
    s.v.push(d)
}

/// Relies on smallvec::SmallVec::len: the number of elements held.
#[verifier::external_body]
fn sv_len(s: &LevelStore) -> (r: usize)
    ensures
        r == sv_levels(*s).len(),
{
    s.v.len()
}

/// Relies on smallvec's Index impl, which exposes the elements as a
/// slice: element `i`, copied out.
#[verifier::external_body]
fn sv_get(s: &LevelStore, i: usize) -> (r: Id)
    requires
        i < sv_levels(*s).len(),
    ensures
        r == sv_levels(*s)[i as int],
{
    s.v[i]
}

impl Clone for LevelStore {
    /// Relies on smallvec::SmallVec::clone; nothing is claimed of the
    /// copy.
    #[verifier::external_body]
    fn clone(&self) -> (r: LevelStore) {
        LevelStore { v: self.v.clone() }
    }
}

/// A composite identifier: a non-empty sequence of digit levels, most
/// significant first.
#[derive(Clone, Debug)]
pub struct CompositeId {
    pub entries: LevelStore,
}

/// The digit levels of `c`.
pub open spec fn levels(c: CompositeId) -> Seq<Id> {
    sv_levels(c.entries)
}

/// A digit whose canonical view reads 0 on every lane.
pub open spec fn is_zero_level(d: Id) -> bool {
    forall|i: int| 0 <= i < 16 ==> id_view(d)[i] == 0
}

/// A well-formed level sequence: non-empty, each digit well formed, and
/// no all-zero digit in last place unless it is the only level. The
/// constructors establish this shape and `between_with_max` preserves
/// it; its final clause is what makes an identifier a usable upper
/// bound.
pub open spec fn wf_levels(x: Seq<Id>) -> bool {
    &&& x.len() >= 1
    &&& forall|j: int| 0 <= j < x.len() ==> id_wf(x[j])
    &&& (x.len() == 1 || !is_zero_level(x.last()))
}

/// A well-formed composite identifier.
pub open spec fn cid_wf(c: CompositeId) -> bool {
    wf_levels(levels(c))
}

/// Lexicographic strict order on level sequences from position `i` on:
/// decided by the first differing level, a strict prefix ranking below
/// its extensions.
pub open spec fn cid_lt_from(x: Seq<Id>, y: Seq<Id>, i: int) -> bool
    recommends
        0 <= i,
    decreases x.len() - i,
{
    if 0 <= i && i < x.len() && i < y.len() {
        id_lt(x[i], y[i]) || (id_eq(x[i], y[i]) && cid_lt_from(x, y, i + 1))
    } else {
        i < y.len()
    }
}

/// Strict order on composite identifiers.
pub open spec fn cid_lt(a: CompositeId, b: CompositeId) -> bool {
    cid_lt_from(levels(a), levels(b), 0)
}

/// Level sequences equal level for level.
pub open spec fn eq_levels(x: Seq<Id>, y: Seq<Id>) -> bool {
    x.len() == y.len() && forall|j: int| 0 <= j < x.len() ==> id_eq(x[j], y[j])
}

/// Equality on composite identifiers: same level count, levels equal.
pub open spec fn cid_eq(a: CompositeId, b: CompositeId) -> bool {
    eq_levels(levels(a), levels(b))
}

/// When two level sequences agree strictly below `i`, their order is
/// decided from `i` on.
pub proof fn lemma_cid_from_prefix(x: Seq<Id>, y: Seq<Id>, i: int)
    requires
        0 <= i,
        i <= x.len(),
        i <= y.len(),
        forall|j: int| 0 <= j < i ==> id_eq(x[j], y[j]),
    ensures
        cid_lt_from(x, y, 0) == cid_lt_from(x, y, i),
    decreases i,
{
    if i > 0 {
        lemma_cid_from_prefix(x, y, i - 1);
        lemma_id_eq_not_lt(x[i - 1], y[i - 1]);
        assert(cid_lt_from(x, y, i - 1) == cid_lt_from(x, y, i));
    }
}

/// The canonical view of walk level `i` of the lower bound: the level's
/// view where one exists, the all-zero padding digit beyond the
/// sequence.
pub open spec fn low_view(x: Seq<Id>, i: int) -> Seq<u16> {
    if 0 <= i && i < x.len() {
        id_view(x[i])
    } else {
        Seq::new(16, |j: int| 0u16)
    }
}

/// The canonical view of walk level `i` of the upper bound: the padding
/// digit holding the configured maximum beyond the sequence.
pub open spec fn high_view(y: Seq<Id>, i: int, max: u16) -> Seq<u16> {
    if 0 <= i && i < y.len() {
        id_view(y[i])
    } else {
        Seq::new(
            16,
            |j: int|
                if j == 0 {
                    max
                } else {
                    0u16
                },
        )
    }
}

/// The upper-role view of walk level `i` of the upper bound: the level's
/// max-padded view where one exists, the all-max padding digit beyond.
pub open spec fn high_role(y: Seq<Id>, i: int, max: u16) -> Seq<u16> {
    if 0 <= i && i < y.len() {
        role_view(y[i], max)
    } else {
        Seq::new(16, |j: int| max)
    }
}

/// A walk pair whose two levels are equal: the walk copies it and
/// descends.
pub open spec fn eq_pair(x: Seq<Id>, y: Seq<Id>, max: u16, i: int) -> bool {
    low_view(x, i) == high_view(y, i, max)
}

/// A walk pair that ends the walk: its levels differ and a digit
/// midpoint exists between them at this precision.
pub open spec fn stop_pair(x: Seq<Id>, y: Seq<Id>, max: u16, i: int) -> bool {
    !eq_pair(x, y, max, i) && rise(low_view(x, i), high_role(y, i, max)) < 16
}

/// Level `j` that the walk copies from the lower bound: the actual
/// level where one exists, the padding digit `new(0)` beyond.
pub open spec fn copied_level(x: Seq<Id>, j: int, d: Id) -> bool {
    if 0 <= j && j < x.len() {
        d == x[j]
    } else {
        d.len == 1 && (forall|i: int| 0 <= i < 16 ==> d.entries@[i] == 0)
    }
}

/// The midpoint digit of walk pair `k`.
pub open spec fn mid_level(x: Seq<Id>, y: Seq<Id>, max: u16, k: int, d: Id) -> bool {
    let av = low_view(x, k);
    let bv = high_role(y, k, max);
    &&& d.entries@ == mid_seq(av, bv)
    &&& d.len as int == rise(av, bv) + 1
}

/// The walk relation: `r` copies the lower level over every pair that
/// is equal or exhausted, and ends with the midpoint of the first pair
/// that admits one. It determines the result of `between_with_max` in
/// full.
pub open spec fn between_rel(x: Seq<Id>, y: Seq<Id>, max: u16, r: Seq<Id>) -> bool {
    let k = r.len() - 1;
    &&& r.len() >= 1
    &&& forall|j: int| 0 <= j < k ==> !stop_pair(x, y, max, j)
    &&& forall|j: int| 0 <= j < k ==> copied_level(x, j, r[j])
    &&& stop_pair(x, y, max, k)
    &&& mid_level(x, y, max, k, r[k])
}

/// A copied level reads as the lower walk view.
proof fn lemma_copied_view(x: Seq<Id>, j: int, d: Id)
    requires
        copied_level(x, j, d),
    ensures
        id_view(d) == low_view(x, j),
{
    if !(0 <= j && j < x.len()) {
        assert(id_view(d) =~= low_view(x, j));
    }
}

/// The canonical view of a midpoint level.
proof fn lemma_mid_level_view(x: Seq<Id>, y: Seq<Id>, max: u16, k: int, d: Id)
    requires
        mid_level(x, y, max, k, d),
        rise(low_view(x, k), high_role(y, k, max)) < 16,
    ensures
        id_view(d) == mid_view(low_view(x, k), high_role(y, k, max)),
{
    let av = low_view(x, k);
    let bv = high_role(y, k, max);
    lemma_first_rise_from(mid_seq(av, bv), av, 0);
    assert(id_view(d) =~= mid_view(av, bv));
}

/// An all-zero view lies strictly below any view with a non-zero lane
/// at or beyond `i`.
proof fn lemma_zero_lex_from(x: Seq<u16>, y: Seq<u16>, i: int)
    requires
        x.len() == 16,
        y.len() == 16,
        0 <= i <= 16,
        forall|j: int| 0 <= j < 16 ==> x[j] == 0,
        exists|j: int| i <= j < 16 && y[j] != 0,
    ensures
        lex_lt_from(x, y, i),
    decreases 16 - i,
{
    if i < 16 {
        if y[i] != 0 {
            assert(x[i] < y[i]);
        } else {
            let w = choose|j: int| i <= j < 16 && y[j] != 0;
            assert(i + 1 <= w < 16 && y[w] != 0);
            lemma_zero_lex_from(x, y, i + 1);
        }
    }
}

/// The first walk pair, from `i` and strictly below `n`, whose levels
/// differ; `n` when every such pair is equal.
spec fn first_neq_from(x: Seq<Id>, y: Seq<Id>, max: u16, i: int, n: int) -> int
    decreases n - i,
{
    if 0 <= i && i < n {
        if !eq_pair(x, y, max, i) {
            i
        } else {
            first_neq_from(x, y, max, i + 1, n)
        }
    } else {
        n
    }
}

/// What `first_neq_from` returns.
proof fn lemma_first_neq_from(x: Seq<Id>, y: Seq<Id>, max: u16, i: int, n: int)
    requires
        0 <= i <= n,
    ensures
        i <= first_neq_from(x, y, max, i, n) <= n,
        forall|j: int| i <= j < first_neq_from(x, y, max, i, n) ==> eq_pair(x, y, max, j),
        first_neq_from(x, y, max, i, n) < n ==> !eq_pair(x, y, max, first_neq_from(x, y, max, i, n)),
    decreases n - i,
{
    if i < n && eq_pair(x, y, max, i) {
        lemma_first_neq_from(x, y, max, i + 1, n);
    }
}

/// The central theorem of the walk: a result standing in the walk
/// relation to ordered, well-formed inputs is well formed and lies
/// strictly between them.
pub proof fn lemma_between_strict(x: Seq<Id>, y: Seq<Id>, max: u16, r: Seq<Id>)
    requires
        wf_levels(x),
        wf_levels(y),
        cid_lt_from(x, y, 0),
        max >= 2,
        between_rel(x, y, max, r),
    ensures
        wf_levels(r),
        cid_lt_from(x, r, 0),
        cid_lt_from(r, y, 0),
{
    let k = r.len() - 1;
    let av = low_view(x, k);
    let bv = high_role(y, k, max);
    lemma_first_rise_from(mid_seq(av, bv), av, 0);
    lemma_mid_level_view(x, y, max, k, r[k]);
    lemma_mid_gt_low(av, bv);

    // === well-formedness of the result ===
    assert forall|j: int| 0 <= j < r.len() implies id_wf(r[j]) by {
        if j < k {
            if 0 <= j && j < x.len() {
            } else {
            }
        }
    }
    assert(id_view(r[k])[rise(av, bv)] != 0);
    assert(!is_zero_level(r[k]));
    assert(wf_levels(r));

    // === the result lies strictly above the lower bound ===
    assert(lex_lt_from(av, id_view(r[k]), 0));
    if k < x.len() {
        assert forall|j: int| 0 <= j < k implies id_eq(x[j], r[j]) by {
            lemma_copied_view(x, j, r[j]);
        }
        assert(id_lt(x[k as int], r[k as int]));
        lemma_cid_from_prefix(x, r, k);
        assert(cid_lt_from(x, r, k));
    } else {
        assert forall|j: int| 0 <= j < x.len() implies id_eq(x[j], r[j]) by {
            lemma_copied_view(x, j, r[j]);
        }
        lemma_cid_from_prefix(x, r, x.len() as int);
        assert(cid_lt_from(x, r, x.len() as int));
    }
    assert(cid_lt_from(x, r, 0));

    // === the result lies strictly below the upper bound ===
    let k0 = first_neq_from(x, y, max, 0, k + 1);
    lemma_first_neq_from(x, y, max, 0, k + 1);
    assert(!eq_pair(x, y, max, k0));
    // the first differing pair falls inside the upper bound's levels
    if k0 >= y.len() {
        if x.len() >= y.len() {
            assert forall|j: int| 0 <= j < y.len() implies id_eq(x[j], y[j]) by {
                assert(eq_pair(x, y, max, j));
            }
            lemma_cid_from_prefix(x, y, y.len() as int);
            assert(!cid_lt_from(x, y, y.len() as int));
            assert(false);
        } else {
            let last = y.len() - 1;
            assert(eq_pair(x, y, max, last));
            assert(last >= x.len());
            assert forall|i: int| 0 <= i < 16 implies id_view(y[last])[i] == 0 by {
                assert(high_view(y, last, max)[i] == low_view(x, last)[i]);
            }
            assert(is_zero_level(y[last]));
            assert(y.len() >= 2);
            assert(false);
        }
    }
    assert(k0 < y.len());
    // the result agrees with the upper bound strictly below the first
    // differing pair
    assert forall|j: int| 0 <= j < k0 implies id_eq(r[j], y[j]) by {
        lemma_copied_view(x, j, r[j]);
        assert(eq_pair(x, y, max, j));
    }
    // the lower walk view falls strictly below the upper level there
    let yz = id_view(y[k0 as int]);
    if k0 < x.len() {
        assert forall|j: int| 0 <= j < k0 implies id_eq(x[j], y[j]) by {
            assert(eq_pair(x, y, max, j));
        }
        lemma_cid_from_prefix(x, y, k0);
        assert(cid_lt_from(x, y, k0));
        assert(id_lt(x[k0 as int], y[k0 as int]));
        assert(lex_lt_from(low_view(x, k0), yz, 0));
    } else {
        assert forall|i: int| 0 <= i < 16 implies low_view(x, k0)[i] == 0 by {}
        if forall|i: int| 0 <= i < 16 ==> yz[i] == 0 {
            assert(low_view(x, k0) =~= high_view(y, k0, max));
            assert(false);
        }
        assert(exists|i: int| 0 <= i < 16 && yz[i] != 0);
        lemma_zero_lex_from(low_view(x, k0), yz, 0);
        assert(lex_lt_from(low_view(x, k0), yz, 0));
    }
    // and so does the result's own level at the first differing pair
    if k0 == k {
        let blen = y[k0 as int].len as int;
        assert forall|j: int| 0 <= j < blen implies high_role(y, k0, max)[j] == yz[j] by {}
        assert forall|j: int| blen <= j < 16 implies yz[j] == 0 by {}
        lemma_mid_lt_high(low_view(x, k0), yz, high_role(y, k0, max), blen);
        assert(lex_lt_from(id_view(r[k0 as int]), yz, 0));
    } else {
        lemma_copied_view(x, k0, r[k0 as int]);
        assert(lex_lt_from(id_view(r[k0 as int]), yz, 0));
    }
    assert(id_lt(r[k0 as int], y[k0 as int]));
    lemma_cid_from_prefix(r, y, k0);
    assert(cid_lt_from(r, y, k0));
    assert(cid_lt_from(r, y, 0));
}

impl CompositeId {
    /// A fresh identifier with a single level holding `value`.
    pub fn new(value: u16) -> (r: CompositeId)
        ensures
            cid_wf(r),
            levels(r).len() == 1,
            levels(r)[0].len == 1,
            forall|i: int| 0 <= i < 16 ==> levels(r)[0].entries@[i] == value,
    {
        let mut entries = sv_new();
        sv_push(&mut entries, Id::new(value));
        CompositeId { entries }
    }

    /// The identifier strictly between `a` and `b`: equal levels are
    /// copied; the first pair of levels that admits a digit midpoint
    /// supplies the final level; a pair too close for a midpoint at its
    /// own precision has the lower level copied instead, descending one
    /// level further, where the lower bound reads as 0 and the upper as
    /// `max` once a sequence is exhausted.
    ///
    /// `max` must be at least 2: with `max == 1` no digit midpoint
    /// exists even between the padding digits, so the walk described by
    /// the design would descend forever.
    pub fn between_with_max(a: &CompositeId, b: &CompositeId, max: u16) -> (r: CompositeId)
        requires
            cid_wf(*a),
            cid_wf(*b),
            cid_lt(*a, *b),
            max >= 2,
        ensures
            cid_wf(r),
            between_rel(levels(*a), levels(*b), max, levels(r)),
            cid_lt(*a, r),
            cid_lt(r, *b),
            levels(r).len() <= (if levels(*a).len() < levels(*b).len() {
                levels(*b).len()
            } else {
                levels(*a).len()
            }) + 1,
    {
        let ghost x = levels(*a);
        let ghost y = levels(*b);
        let alen = sv_len(&a.entries);
        let blen = sv_len(&b.entries);
        let n: usize = if alen < blen {
            blen
        } else {
            alen
        };
        let mut out = sv_new();
        let mut i: usize = 0;
        loop
            invariant
                x == levels(*a),
                y == levels(*b),
                cid_wf(*a),
                cid_wf(*b),
                cid_lt(*a, *b),
                max >= 2,
                alen == x.len(),
                blen == y.len(),
                n == if alen < blen {
                    blen
                } else {
                    alen
                },
                i <= n,
                sv_levels(out).len() == i,
                forall|j: int| 0 <= j < i ==> !stop_pair(x, y, max, j),
                forall|j: int| 0 <= j < i ==> copied_level(x, j, sv_levels(out)[j]),
            decreases n - i,
        {
            let ai: Id = if i < alen {
                sv_get(&a.entries, i)
            } else {
                Id::new(0)
            };
            let bi: Id = if i < blen {
                sv_get(&b.entries, i)
            } else {
                Id::new(max)
            };
            proof {
                assert(id_view(ai) =~= low_view(x, i as int));
                assert(id_view(bi) =~= high_view(y, i as int, max));
                assert(role_view(bi, max) =~= high_role(y, i as int, max));
                if i == n {
                    // beyond both sequences the pair is all-zero against
                    // all-max, which always stops the walk
                    assert(low_view(x, i as int)[0] == 0);
                    assert(high_view(y, i as int, max)[0] == max);
                    lemma_mid_lane(0u16, max);
                    assert(mid_seq(low_view(x, i as int), high_role(y, i as int, max))[0] > 0);
                    assert(rise(low_view(x, i as int), high_role(y, i as int, max)) == 0);
                    assert(stop_pair(x, y, max, i as int));
                }
            }
            if ai == bi {
                proof {
                    assert(eq_pair(x, y, max, i as int));
                    assert(i < n);
                }
                sv_push(&mut out, ai);
                i += 1;
            } else {
                proof {
                    assert(!eq_pair(x, y, max, i as int));
                }
                match Id::between_with_max(ai, bi, max) {
                    Result::Ok(m) => {
                        sv_push(&mut out, m);
                        let r = CompositeId { entries: out };
                        proof {
                            assert(digit_between_ok(ai, bi, max, m));
                            assert(stop_pair(x, y, max, i as int));
                            assert(mid_level(x, y, max, i as int, m));
                            assert(levels(r).len() == i + 1);
                            assert(between_rel(x, y, max, levels(r)));
                            lemma_between_strict(x, y, max, levels(r));
                        }
                        return r;
                    },
                    Result::Err(e) => {
                        proof {
                            assert(rise(low_view(x, i as int), high_role(y, i as int, max))
                                == 16);
                            assert(!stop_pair(x, y, max, i as int));
                            assert(i < n);
                            assert(copied_level(x, i as int, ai));
                        }
                        sv_push(&mut out, ai);
                        i += 1;
                    },
                }
            }
        }
    }

    /// The number of digit levels.
    pub fn level_count(&self) -> (r: usize)
        ensures
            r == levels(*self).len(),
    {
        sv_len(&self.entries)
    }

    /// Level `i`, most significant first.
    pub fn level(&self, i: usize) -> (r: Id)
        requires
            i < levels(*self).len(),
        ensures
            r == levels(*self)[i as int],
    {
        sv_get(&self.entries, i)
    }

    /// The diagnostic rendering of level `i`: its significant digit
    /// values, in order.
    pub fn level_digits(&self, i: usize) -> (r: Vec<u16>)
        requires
            cid_wf(*self),
            i < levels(*self).len(),
        ensures
            r@ == sig_lanes(levels(*self)[i as int]),
    {
        let d = sv_get(&self.entries, i);
        d.significant()
    }

    /// The total order of composite identifiers, as a three-way
    /// comparison: decided by the first differing level, a strict prefix
    /// ranking below its extensions.
    pub fn cmp(&self, other: &CompositeId) -> (r: Ordering)
        ensures
            r == Ordering::Less <==> cid_lt(*self, *other),
            r == Ordering::Equal <==> cid_eq(*self, *other),
            r == Ordering::Greater <==> !cid_lt(*self, *other) && !cid_eq(*self, *other),
    {
        let ghost x = levels(*self);
        let ghost y = levels(*other);
        let n = sv_len(&self.entries);
        let m = sv_len(&other.entries);
        let lim: usize = if n < m {
            n
        } else {
            m
        };
        let mut i: usize = 0;
        while i < lim
            invariant
                x == levels(*self),
                y == levels(*other),
                n == x.len(),
                m == y.len(),
                lim == if n < m {
                    n
                } else {
                    m
                },
                i <= lim,
                forall|j: int| 0 <= j < i ==> id_eq(x[j], y[j]),
            decreases lim - i,
        {
            let di = sv_get(&self.entries, i);
            let ei = sv_get(&other.entries, i);
            match di.cmp(&ei) {
                Ordering::Less => {
                    proof {
                        lemma_cid_from_prefix(x, y, i as int);
                        assert(cid_lt_from(x, y, i as int));
                        if cid_eq(*self, *other) {
                            lemma_id_eq_not_lt(x[i as int], y[i as int]);
                        }
                    }
                    return Ordering::Less;
                },
                Ordering::Greater => {
                    proof {
                        lemma_cid_from_prefix(x, y, i as int);
                        assert(!cid_lt_from(x, y, i as int));
                    }
                    return Ordering::Greater;
                },
                Ordering::Equal => {
                    i += 1;
                },
            }
        }
        proof {
            lemma_cid_from_prefix(x, y, lim as int);
        }
        if n < m {
            proof {
                assert(cid_lt_from(x, y, lim as int));
            }
            Ordering::Less
        } else if n > m {
            proof {
                assert(!cid_lt_from(x, y, lim as int));
            }
            Ordering::Greater
        } else {
            proof {
                assert(!cid_lt_from(x, y, lim as int));
            }
            Ordering::Equal
        }
    }
}

impl PartialEq for CompositeId {
    /// Identifiers are equal when their levels agree pairwise.
    fn eq(&self, other: &CompositeId) -> (r: bool) {
        matches!(self.cmp(other), Ordering::Equal)
    }
}

impl Eq for CompositeId {

}

impl vstd::std_specs::cmp::PartialEqSpecImpl for CompositeId {
    open spec fn obeys_eq_spec() -> bool {
        true
    }

    open spec fn eq_spec(&self, other: &CompositeId) -> bool {
        cid_eq(*self, *other)
    }
}

impl PartialOrd for CompositeId {
    /// Identifiers are ordered lexicographically over their levels.
    fn partial_cmp(&self, other: &CompositeId) -> (r: Option<Ordering>) {
        Some(self.cmp(other))
    }
}

impl vstd::std_specs::cmp::PartialOrdSpecImpl for CompositeId {
    open spec fn obeys_partial_cmp_spec() -> bool {
        true
    }

    open spec fn partial_cmp_spec(&self, other: &CompositeId) -> Option<Ordering> {
        if cid_lt(*self, *other) {
            Some(Ordering::Less)
        } else if cid_eq(*self, *other) {
            Some(Ordering::Equal)
        } else {
            Some(Ordering::Greater)
        }
    }
}

} // verus!
