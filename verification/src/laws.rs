//! The ordering laws of the library, proved once and for all: masking,
//! transitivity, determinism of the walk, and preservation of sorted
//! runs under insertion.

use vstd::prelude::*;

use crate::composite::between_rel;
use crate::composite::cid_lt;
use crate::composite::cid_lt_from;
use crate::composite::copied_level;
use crate::composite::eq_levels;
use crate::composite::eq_pair;
use crate::composite::high_view;
use crate::composite::is_zero_level;
use crate::composite::lemma_cid_from_prefix;
use crate::composite::levels;
use crate::composite::low_view;
use crate::composite::mid_level;
use crate::composite::stop_pair;
use crate::composite::wf_levels;
use crate::composite::CompositeId;
use crate::digit::id_eq;
use crate::digit::id_lt;
use crate::digit::id_view;
use crate::digit::lemma_id_eq_not_lt;
use crate::digit::lemma_lex_lt_witness;
use crate::digit::lex_lt_from;
use crate::digit::Id;

verus! {

/// Masking: lanes at or beyond the significant length play no part in
/// comparison. Two digits with the same length and the same significant
/// lanes are equal, and compare identically against any third digit,
/// whatever their remaining lanes hold.
pub proof fn lemma_masking_irrelevant(d: Id, e: Id, other: Id)
    requires
        d.len == e.len,
        forall|i: int| 0 <= i < d.len as int ==> d.entries@[i] == e.entries@[i],
    ensures
        id_eq(d, e),
        id_lt(d, other) == id_lt(e, other),
        id_lt(other, d) == id_lt(other, e),
{
    assert(id_view(d) =~= id_view(e));
}

/// The strict lane order is transitive, from any starting lane.
proof fn lemma_lex_trans_from(x: Seq<u16>, y: Seq<u16>, z: Seq<u16>, i: int)
    requires
        x.len() == 16,
        y.len() == 16,
        z.len() == 16,
        0 <= i <= 16,
        lex_lt_from(x, y, i),
        lex_lt_from(y, z, i),
    ensures
        lex_lt_from(x, z, i),
    decreases 16 - i,
{
    if i < 16 {
        if x[i] == y[i] && y[i] == z[i] {
            lemma_lex_trans_from(x, y, z, i + 1);
        }
    }
}

/// The strict order of digits is transitive.
pub proof fn lemma_id_lt_trans(a: Id, b: Id, c: Id)
    requires
        id_lt(a, b),
        id_lt(b, c),
    ensures
        id_lt(a, c),
{
    lemma_lex_trans_from(id_view(a), id_view(b), id_view(c), 0);
}

/// The strict order of level sequences is transitive, from any level.
proof fn lemma_cid_trans_from(x: Seq<Id>, y: Seq<Id>, z: Seq<Id>, i: int)
    requires
        0 <= i,
        cid_lt_from(x, y, i),
        cid_lt_from(y, z, i),
    ensures
        cid_lt_from(x, z, i),
    decreases x.len() - i,
{
    if i < x.len() && i < y.len() && i < z.len() {
        if id_lt(x[i], y[i]) && id_lt(y[i], z[i]) {
            lemma_id_lt_trans(x[i], y[i], z[i]);
        } else if id_eq(x[i], y[i]) && id_eq(y[i], z[i]) {
            lemma_cid_trans_from(x, y, z, i + 1);
        }
    }
}

/// Equal identifiers are not ordered: the strict order is irreflexive
/// over equality of levels.
pub proof fn lemma_eq_levels_not_lt(x: Seq<Id>, y: Seq<Id>)
    requires
        eq_levels(x, y),
    ensures
        !cid_lt_from(x, y, 0),
{
    lemma_cid_from_prefix(x, y, x.len() as int);
}

/// The strict order of composite identifiers is transitive.
pub proof fn lemma_cid_lt_trans(a: CompositeId, b: CompositeId, c: CompositeId)
    requires
        cid_lt(a, b),
        cid_lt(b, c),
    ensures
        cid_lt(a, c),
{
    lemma_cid_trans_from(levels(a), levels(b), levels(c), 0);
}

/// Determinism: the walk relation admits a single result. Two level
/// sequences that both stand in the relation to the same inputs have
/// the same length, and their digits agree lane for lane, significant
/// length included.
pub proof fn lemma_between_deterministic(
    x: Seq<Id>,
    y: Seq<Id>,
    max: u16,
    r1: Seq<Id>,
    r2: Seq<Id>,
)
    requires
        between_rel(x, y, max, r1),
        between_rel(x, y, max, r2),
    ensures
        r1.len() == r2.len(),
        forall|j: int|
            0 <= j < r1.len() ==> r1[j].len == r2[j].len && r1[j].entries@ == r2[j].entries@,
{
    let k1 = r1.len() - 1;
    let k2 = r2.len() - 1;
    if k1 < k2 {
        assert(stop_pair(x, y, max, k1));
        assert(!stop_pair(x, y, max, k1));
    }
    if k2 < k1 {
        assert(stop_pair(x, y, max, k2));
        assert(!stop_pair(x, y, max, k2));
    }
    assert(k1 == k2);
    assert forall|j: int|
        0 <= j < r1.len() implies r1[j].len == r2[j].len && r1[j].entries@ == r2[j].entries@ by {
        if j < k1 {
            assert(copied_level(x, j, r1[j]));
            assert(copied_level(x, j, r2[j]));
            if !(0 <= j && j < x.len()) {
                assert(r1[j].entries@ =~= r2[j].entries@);
            }
        } else {
            assert(mid_level(x, y, max, j, r1[j]));
            assert(mid_level(x, y, max, j, r2[j]));
        }
    }
}

/// The induction behind minimal extension: any well-formed `c` strictly
/// between the inputs, agreeing with the walk's lower levels strictly
/// below `j`, keeps more than `k` levels, all walk pairs strictly below
/// `k` being equal pairs.
proof fn lemma_minimal_from(x: Seq<Id>, y: Seq<Id>, max: u16, k: int, c: Seq<Id>, j: int)
    requires
        wf_levels(x),
        wf_levels(y),
        wf_levels(c),
        max >= 2,
        0 <= j <= k,
        k < y.len(),
        forall|l: int| 0 <= l < k ==> eq_pair(x, y, max, l),
        cid_lt_from(x, c, 0),
        cid_lt_from(c, y, 0),
        forall|l: int| 0 <= l < j ==> id_view(c[l]) == low_view(x, l),
    ensures
        c.len() > k,
    decreases k - j,
{
    // `c` holds more than `j` levels: with fewer it would not exceed the
    // lower bound, or it would end in an all-zero level
    if c.len() <= j {
        if c.len() <= x.len() {
            assert forall|l: int| 0 <= l < c.len() implies id_eq(x[l], c[l]) by {
                assert(id_view(c[l]) == low_view(x, l));
            }
            lemma_cid_from_prefix(x, c, c.len() as int);
            assert(!cid_lt_from(x, c, c.len() as int));
            assert(false);
        } else {
            let last = c.len() - 1;
            assert(last >= x.len());
            assert(last < j);
            assert forall|i2: int| 0 <= i2 < 16 implies id_view(c[last])[i2] == 0 by {
                assert(id_view(c[last]) == low_view(x, last));
            }
            assert(is_zero_level(c[last]));
            assert(c.len() >= 2);
            assert(false);
        }
    }
    assert(c.len() > j);
    if j < k {
        // this pair is equal: the walk level reads as the upper level
        assert(eq_pair(x, y, max, j));
        assert(j < y.len());
        assert(low_view(x, j) == id_view(y[j]));
        // `c` agrees with the upper bound strictly below `j`
        assert forall|l: int| 0 <= l < j implies id_eq(c[l], y[l]) by {
            assert(eq_pair(x, y, max, l));
            assert(id_view(c[l]) == low_view(x, l));
        }
        lemma_cid_from_prefix(c, y, j);
        assert(cid_lt_from(c, y, j));
        // squeezed between two equal levels, `c`'s level equals them
        if id_lt(c[j], y[j]) {
            if j < x.len() {
                assert forall|l: int| 0 <= l < j implies id_eq(x[l], c[l]) by {
                    assert(id_view(c[l]) == low_view(x, l));
                }
                lemma_cid_from_prefix(x, c, j);
                assert(cid_lt_from(x, c, j));
                if id_lt(x[j], c[j]) {
                    lemma_id_lt_trans(x[j], c[j], y[j]);
                    lemma_id_eq_not_lt(x[j], y[j]);
                    assert(false);
                }
                assert(id_eq(x[j], c[j]));
                assert(id_view(c[j]) == low_view(x, j));
            } else {
                // nothing lies strictly below the all-zero walk level
                lemma_lex_lt_witness(id_view(c[j]), id_view(y[j]), 0);
                let w = choose|w: int|
                    0 <= w < 16 && id_view(c[j])[w] < id_view(y[j])[w] && (forall|l: int|
                        0 <= l < w ==> id_view(c[j])[l] == id_view(y[j])[l]);
                assert(id_view(y[j])[w] == low_view(x, j)[w]);
                assert(false);
            }
        } else {
            assert(id_eq(c[j], y[j]));
            assert(id_view(c[j]) == low_view(x, j));
        }
        lemma_minimal_from(x, y, max, k, c, j + 1);
    }
}

/// Minimal extension: when every walk pair before the stop pair is an
/// equal pair, the result of `between_with_max` has the smallest level
/// count of any well-formed identifier strictly between the inputs.
/// (A pair whose levels differ but admit no midpoint at their own
/// precision may cost the walk one level more than the order demands;
/// such pairs are excluded here.)
pub proof fn lemma_minimal_extension(x: Seq<Id>, y: Seq<Id>, max: u16, r: Seq<Id>, c: Seq<Id>)
    requires
        wf_levels(x),
        wf_levels(y),
        wf_levels(c),
        cid_lt_from(x, y, 0),
        max >= 2,
        between_rel(x, y, max, r),
        forall|j: int| 0 <= j < r.len() - 1 ==> eq_pair(x, y, max, j),
        cid_lt_from(x, c, 0),
        cid_lt_from(c, y, 0),
    ensures
        c.len() >= r.len(),
{
    let k = r.len() - 1;
    assert(stop_pair(x, y, max, k));
    // the stop pair falls inside the upper bound's levels
    if k >= y.len() {
        if x.len() >= y.len() {
            assert forall|j: int| 0 <= j < y.len() implies id_eq(x[j], y[j]) by {
                assert(eq_pair(x, y, max, j));
            }
            lemma_cid_from_prefix(x, y, y.len() as int);
            assert(!cid_lt_from(x, y, y.len() as int));
            assert(false);
        } else {
            let last = y.len() - 1;
            assert(eq_pair(x, y, max, last));
            assert(last >= x.len());
            assert forall|i: int| 0 <= i < 16 implies id_view(y[last])[i] == 0 by {
                assert(high_view(y, last, max)[i] == low_view(x, last)[i]);
            }
            assert(is_zero_level(y[last]));
            assert(y.len() >= 2);
            assert(false);
        }
    }
    lemma_minimal_from(x, y, max, k, c, 0);
}

/// A strictly ascending run of identifiers: every element lies strictly
/// below its successor.
pub open spec fn strictly_sorted(s: Seq<CompositeId>) -> bool {
    forall|i: int| 0 <= i && i + 1 < s.len() ==> #[trigger] cid_lt(s[i], s[i + 1])
}

/// Insertion keeps a run sorted: inserting an identifier strictly
/// between two neighbours of a strictly ascending run, at the interior
/// position between them, leaves the run strictly ascending.
pub proof fn lemma_insert_preserves_sorted(s: Seq<CompositeId>, idx: int, c: CompositeId)
    requires
        strictly_sorted(s),
        1 <= idx < s.len(),
        cid_lt(s[idx - 1], c),
        cid_lt(c, s[idx]),
    ensures
        strictly_sorted(s.insert(idx, c)),
{
    let t = s.insert(idx, c);
    s.insert_ensures(idx, c);
    assert forall|i: int| 0 <= i && i + 1 < t.len() implies #[trigger] cid_lt(t[i], t[i + 1]) by {
        if i + 1 < idx {
            assert(t[i] == s[i]);
            assert(t[i + 1] == s[i + 1]);
        } else if i + 1 == idx {
            assert(t[i] == s[i]);
            assert(t[i + 1] == c);
        } else if i == idx {
            assert(t[i] == c);
            assert(t[i + 1] == s[i]);
        } else {
            assert(t[i] == s[i - 1]);
            assert(t[i + 1] == s[i]);
        }
    }
}

} // verus!
