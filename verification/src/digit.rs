//! One precision level of an identifier: a fixed vector of 16 unsigned
//! lanes, of which only a leading prefix is significant.

use core::cmp::Ordering;
use vstd::prelude::*;

verus! {

/// A single digit level. `entries` holds 16 lanes; only the first `len`
/// lanes are significant. Lanes at index `>= len` are retained in storage
/// but read as a role-dependent padding value for comparison and
/// arithmetic.
#[derive(Clone, Copy, Debug)]
pub struct Id {
    pub entries: [u16; 16],
    pub len: u8,
}

/// A digit is well formed when between 1 and 16 lanes are significant.
pub open spec fn id_wf(d: Id) -> bool {
    1 <= d.len <= 16
}

/// Lane `i` of the role view of `d`: significant lanes read as stored,
/// the rest as `pad`.
pub open spec fn role_lane(d: Id, pad: u16, i: int) -> u16 {
    if i < d.len as int {
        d.entries@[i]
    } else {
        pad
    }
}

/// The 16-lane role view of `d`: non-significant lanes forced to `pad`
/// (0 in the lower-bound role, the configured maximum in the upper-bound
/// role).
pub open spec fn role_view(d: Id, pad: u16) -> Seq<u16> {
    Seq::new(16, |i: int| role_lane(d, pad, i))
}

/// The canonical comparable form of `d`: non-significant lanes read as 0.
pub open spec fn id_view(d: Id) -> Seq<u16> {
    role_view(d, 0)
}

/// The significant lanes of `d`, in order.
pub open spec fn sig_lanes(d: Id) -> Seq<u16> {
    id_view(d).subrange(0, d.len as int)
}

/// Lexicographic strict order on two 16-lane views, decided from lane `i`
/// on; lane 0 is the most significant.
pub open spec fn lex_lt_from(x: Seq<u16>, y: Seq<u16>, i: int) -> bool
    recommends
        x.len() == 16,
        y.len() == 16,
        0 <= i <= 16,
    decreases 16 - i,
{
    if 0 <= i && i < 16 {
        x[i] < y[i] || (x[i] == y[i] && lex_lt_from(x, y, i + 1))
    } else {
        false
    }
}

/// Strict order on digits: lexicographic order of their canonical views.
pub open spec fn id_lt(a: Id, b: Id) -> bool {
    lex_lt_from(id_view(a), id_view(b), 0)
}

/// Equality on digits: their canonical views agree lane for lane.
pub open spec fn id_eq(a: Id, b: Id) -> bool {
    id_view(a) == id_view(b)
}

/// When two views agree strictly below lane `i`, the order is decided
/// from lane `i` on.
pub proof fn lemma_lex_from_prefix(x: Seq<u16>, y: Seq<u16>, i: int)
    requires
        x.len() == 16,
        y.len() == 16,
        0 <= i <= 16,
        forall|j: int| 0 <= j < i ==> x[j] == y[j],
    ensures
        lex_lt_from(x, y, 0) == lex_lt_from(x, y, i),
    decreases i,
{
    if i > 0 {
        lemma_lex_from_prefix(x, y, i - 1);
        assert(lex_lt_from(x, y, i - 1) == lex_lt_from(x, y, i));
    }
}

/// Equal views are not ordered.
pub proof fn lemma_id_eq_not_lt(a: Id, b: Id)
    requires
        id_eq(a, b),
    ensures
        !id_lt(a, b),
{
    lemma_lex_from_prefix(id_view(a), id_view(b), 16);
}

/// An ordered pair of views has a first lane where the smaller falls
/// strictly below the larger, with agreement before it.
pub proof fn lemma_lex_lt_witness(x: Seq<u16>, y: Seq<u16>, i: int)
    requires
        x.len() == 16,
        y.len() == 16,
        0 <= i <= 16,
        lex_lt_from(x, y, i),
    ensures
        exists|w: int|
            i <= w < 16 && x[w] < y[w] && (forall|j: int| i <= j < w ==> x[j] == y[j]),
    decreases 16 - i,
{
    if x[i] < y[i] {
        let w = i;
        assert(i <= w < 16 && x[w] < y[w] && (forall|j: int| i <= j < w ==> x[j] == y[j]));
    } else {
        lemma_lex_lt_witness(x, y, i + 1);
        let w = choose|w: int|
            i + 1 <= w < 16 && x[w] < y[w] && (forall|j: int| i + 1 <= j < w ==> x[j] == y[j]);
        assert(i <= w < 16 && x[w] < y[w] && (forall|j: int| i <= j < w ==> x[j] == y[j]));
    }
}

/// The lane-wise midpoint: the floor midpoint where the high lane
/// exceeds the low one, and the low lane itself everywhere else, so the
/// computation never wraps.
pub open spec fn mid_lane(x: u16, y: u16) -> u16 {
    if y <= x {
        x
    } else {
        (x + (y - x) / 2) as u16
    }
}

/// Elementary bounds of the lane midpoint.
pub proof fn lemma_mid_lane(x: u16, y: u16)
    ensures
        mid_lane(x, y) >= x,
        (mid_lane(x, y) > x) <==> (y >= x + 2),
        x < y ==> mid_lane(x, y) < y,
{
}

/// The 16-lane midpoint of a lower-role view and an upper-role view.
pub open spec fn mid_seq(av: Seq<u16>, bv: Seq<u16>) -> Seq<u16> {
    Seq::new(16, |i: int| mid_lane(av[i], bv[i]))
}

/// The first lane, from `i` on, where `m` strictly exceeds `base`;
/// 16 when there is none.
pub open spec fn first_rise_from(m: Seq<u16>, base: Seq<u16>, i: int) -> int
    recommends
        m.len() == 16,
        base.len() == 16,
        0 <= i <= 16,
    decreases 16 - i,
{
    if 0 <= i && i < 16 {
        if m[i] > base[i] {
            i
        } else {
            first_rise_from(m, base, i + 1)
        }
    } else {
        16
    }
}

/// The lane where the midpoint first exceeds the lower view; 16 when the
/// midpoint exceeds it nowhere, so no strictly larger value exists at
/// this precision.
pub open spec fn rise(av: Seq<u16>, bv: Seq<u16>) -> int {
    first_rise_from(mid_seq(av, bv), av, 0)
}

/// What `first_rise_from` returns: the first strict excess, if any.
pub proof fn lemma_first_rise_from(m: Seq<u16>, base: Seq<u16>, i: int)
    requires
        0 <= i <= 16,
    ensures
        i <= first_rise_from(m, base, i) <= 16,
        forall|j: int| i <= j < first_rise_from(m, base, i) ==> m[j] <= base[j],
        first_rise_from(m, base, i) < 16 ==> m[first_rise_from(m, base, i)] > base[first_rise_from(
            m,
            base,
            i,
        )],
    decreases 16 - i,
{
    if i < 16 && !(m[i] > base[i]) {
        lemma_first_rise_from(m, base, i + 1);
    }
}

/// When `m` does not exceed `base` strictly below `i`, the first excess
/// is found from `i` on.
pub proof fn lemma_first_rise_prefix(m: Seq<u16>, base: Seq<u16>, i: int)
    requires
        0 <= i <= 16,
        forall|j: int| 0 <= j < i ==> m[j] <= base[j],
    ensures
        first_rise_from(m, base, 0) == first_rise_from(m, base, i),
    decreases i,
{
    if i > 0 {
        lemma_first_rise_prefix(m, base, i - 1);
        assert(first_rise_from(m, base, i - 1) == first_rise_from(m, base, i));
    }
}

/// The canonical view of a midpoint digit whose significant length is
/// `rise(av, bv) + 1`: the midpoint lanes up to the rise, 0 beyond it.
pub open spec fn mid_view(av: Seq<u16>, bv: Seq<u16>) -> Seq<u16> {
    Seq::new(
        16,
        |j: int|
            if j <= rise(av, bv) {
                mid_seq(av, bv)[j]
            } else {
                0u16
            },
    )
}

/// A successful midpoint lies strictly above the lower-role view it was
/// computed from, and its rise lane is not 0.
pub proof fn lemma_mid_gt_low(av: Seq<u16>, bv: Seq<u16>)
    requires
        av.len() == 16,
        bv.len() == 16,
        rise(av, bv) < 16,
    ensures
        lex_lt_from(av, mid_view(av, bv), 0),
        mid_view(av, bv)[rise(av, bv)] > 0,
        forall|j: int| 0 <= j < rise(av, bv) ==> mid_view(av, bv)[j] == av[j],
{
    let ms = mid_seq(av, bv);
    let k = rise(av, bv);
    let mv = mid_view(av, bv);
    lemma_first_rise_from(ms, av, 0);
    assert forall|j: int| 0 <= j < 16 implies ms[j] >= av[j] by {
        lemma_mid_lane(av[j], bv[j]);
    }
    assert(forall|j: int| 0 <= j < k ==> mv[j] == av[j]);
    lemma_lex_from_prefix(av, mv, k);
    assert(lex_lt_from(av, mv, k));
}

/// A successful midpoint lies strictly below the upper digit's
/// canonical view `bz`, provided the lower-role view `av` lay strictly
/// below it. `bv` is the upper-role view of the same digit: it agrees
/// with `bz` on the digit's `blen` significant lanes, beyond which `bz`
/// reads 0.
pub proof fn lemma_mid_lt_high(av: Seq<u16>, bz: Seq<u16>, bv: Seq<u16>, blen: int)
    requires
        av.len() == 16,
        bz.len() == 16,
        bv.len() == 16,
        0 <= blen <= 16,
        forall|j: int| 0 <= j < blen ==> bv[j] == bz[j],
        forall|j: int| blen <= j < 16 ==> bz[j] == 0,
        lex_lt_from(av, bz, 0),
        rise(av, bv) < 16,
    ensures
        lex_lt_from(mid_view(av, bv), bz, 0),
{
    let ms = mid_seq(av, bv);
    let k = rise(av, bv);
    let mv = mid_view(av, bv);
    lemma_lex_lt_witness(av, bz, 0);
    let w = choose|w: int|
        0 <= w < 16 && av[w] < bz[w] && (forall|j: int| 0 <= j < w ==> av[j] == bz[j]);
    // the witness lane is significant in the upper digit, so both of its
    // roles agree there
    assert(bz[w] > 0);
    assert(w < blen);
    assert(bv[w] == bz[w]);
    // below the witness the roles collapse, so the midpoint cannot rise
    // there
    assert forall|j: int| 0 <= j < w implies ms[j] == av[j] by {
        assert(bv[j] == bz[j]);
        lemma_mid_lane(av[j], bv[j]);
    }
    lemma_first_rise_prefix(ms, av, w);
    lemma_first_rise_from(ms, av, w);
    assert(k >= w);
    if k == w {
        lemma_mid_lane(av[w], bv[w]);
        assert(mv[w] < bz[w]);
    } else {
        lemma_mid_lane(av[w], bv[w]);
        assert(ms[w] <= av[w]);
        assert(mv[w] == av[w]);
        assert(mv[w] < bz[w]);
    }
    assert(forall|j: int| 0 <= j < w ==> mv[j] == bz[j]);
    lemma_lex_from_prefix(mv, bz, w);
    assert(lex_lt_from(mv, bz, w));
}

/// A successful digit midpoint: the lane array is the lane-wise midpoint
/// of the role views, and the significant length reaches exactly the
/// first lane of strict increase over the lower view.
pub open spec fn digit_between_ok(a: Id, b: Id, max: u16, m: Id) -> bool {
    let av = id_view(a);
    let bv = role_view(b, max);
    &&& rise(av, bv) < 16
    &&& m.entries@ == mid_seq(av, bv)
    &&& m.len as int == rise(av, bv) + 1
}

/// A successful midpoint lies strictly above the lower digit, and
/// strictly below the upper digit whenever the inputs were ordered.
pub proof fn lemma_digit_between_strict(a: Id, b: Id, max: u16, m: Id)
    requires
        digit_between_ok(a, b, max, m),
    ensures
        id_wf(m),
        id_lt(a, m),
        id_lt(a, b) ==> id_lt(m, b),
        !(forall|i: int| 0 <= i < 16 ==> id_view(m)[i] == 0),
{
    let av = id_view(a);
    let bv = role_view(b, max);
    lemma_first_rise_from(mid_seq(av, bv), av, 0);
    assert(id_view(m) =~= mid_view(av, bv));
    lemma_mid_gt_low(av, bv);
    if id_lt(a, b) {
        let blen: int = if b.len <= 16 {
            b.len as int
        } else {
            16
        };
        lemma_mid_lt_high(av, id_view(b), bv, blen);
    }
}

/// The index one past the first lane where `middle` strictly exceeds
/// `floor`, or a failure when `middle` exceeds it nowhere within the 16
/// lanes.
pub fn compute_len(middle: &[u16; 16], floor: &[u16; 16]) -> (r: Result<u8, ()>)
    ensures
        match r {
            Result::Ok(l) => 1 <= l <= 16 && first_rise_from(middle@, floor@, 0) == l - 1,
            Result::Err(e) => first_rise_from(middle@, floor@, 0) == 16,
        },
{
    let mut i: usize = 0;
    while i < 16
        invariant
            i <= 16,
            forall|j: int| 0 <= j < i ==> middle@[j] <= floor@[j],
        decreases 16 - i,
    {
        if middle[i] > floor[i] {
            proof {
                lemma_first_rise_prefix(middle@, floor@, i as int);
            }
            return Result::Ok((i + 1) as u8);
        }
        i += 1;
    }
    proof {
        lemma_first_rise_prefix(middle@, floor@, 16);
    }
    Result::Err(())
}

impl Id {
    /// A fresh digit: every lane holds `value`, one significant lane.
    pub fn new(value: u16) -> (r: Id)
        ensures
            id_wf(r),
            r.len == 1,
            forall|i: int| 0 <= i < 16 ==> r.entries@[i] == value,
    {
        Id { entries: [value; 16], len: 1 }
    }

    /// Lane `i` under the padding role `pad`.
    pub fn role_lane_at(&self, i: usize, pad: u16) -> (r: u16)
        requires
            i < 16,
        ensures
            r == role_lane(*self, pad, i as int),
    {
        if i < self.len as usize {
            self.entries[i]
        } else {
            pad
        }
    }

    /// The canonical comparable form: the lane array with non-significant
    /// lanes replaced by 0.
    pub fn entries(&self) -> (r: [u16; 16])
        ensures
            r@ == id_view(*self),
    {
        let mut out: [u16; 16] = [0u16; 16];
        let mut i: usize = 0;
        while i < 16
            invariant
                i <= 16,
                forall|j: int| 0 <= j < i ==> out@[j] == id_view(*self)[j],
            decreases 16 - i,
        {
            out[i] = self.role_lane_at(i, 0);
            i += 1;
        }
        proof {
            assert(out@ =~= id_view(*self));
        }
        out
    }

    /// The ordered list of significant lanes: the diagnostic rendering
    /// of one level.
    pub fn significant(&self) -> (r: Vec<u16>)
        requires
            id_wf(*self),
        ensures
            r@ == sig_lanes(*self),
    {
        let mut r: Vec<u16> = Vec::new();
        let count = self.len as usize;
        let mut i: usize = 0;
        while i < count
            invariant
                id_wf(*self),
                count == self.len as int,
                i <= count,
                r@ == id_view(*self).subrange(0, i as int),
            decreases count - i,
        {
            let v = self.role_lane_at(i, 0);
            r.push(v);
            proof {
                assert(r@ =~= id_view(*self).subrange(0, i + 1));
            }
            i += 1;
        }
        r
    }

    /// A digit strictly between `a` in the lower-bound role and `b` in
    /// the upper-bound role, at the least significant length that admits
    /// one; a failure when even 16 lanes admit none, which the composite
    /// layer answers by extending precision.
    ///
    /// The order precondition of the design (`a < b`) is not demanded
    /// here: every outcome is characterised, and the strict upper bound
    /// is promised exactly when the inputs were ordered.
    pub fn between_with_max(a: Id, b: Id, max: u16) -> (r: Result<Id, ()>)
        ensures
            match r {
                Result::Ok(m) => digit_between_ok(a, b, max, m) && id_wf(m) && id_lt(a, m) && (
                id_lt(a, b) ==> id_lt(m, b)),
                Result::Err(e) => rise(id_view(a), role_view(b, max)) == 16,
            },
    {
        let ghost av = id_view(a);
        let ghost bv = role_view(b, max);
        let mut middle: [u16; 16] = [0u16; 16];
        let mut i: usize = 0;
        while i < 16
            invariant
                i <= 16,
                forall|j: int| 0 <= j < i ==> middle@[j] == mid_seq(av, bv)[j],
                av == id_view(a),
                bv == role_view(b, max),
            decreases 16 - i,
        {
            let x = a.role_lane_at(i, 0);
            let y = b.role_lane_at(i, max);
            let m: u16 = if y <= x {
                x
            } else {
                x + (y - x) / 2
            };
            middle[i] = m;
            i += 1;
        }
        proof {
            assert(middle@ =~= mid_seq(av, bv));
        }
        let floor = a.entries();
        match compute_len(&middle, &floor) {
            Result::Ok(l) => {
                let m = Id { entries: middle, len: l };
                proof {
                    lemma_digit_between_strict(a, b, max, m);
                }
                Result::Ok(m)
            },
            Result::Err(e) => Result::Err(e),
        }
    }

    /// The total order of digits, as a three-way comparison over their
    /// canonical views.
    pub fn cmp(&self, other: &Id) -> (r: Ordering)
        ensures
            r == Ordering::Less <==> id_lt(*self, *other),
            r == Ordering::Equal <==> id_eq(*self, *other),
            r == Ordering::Greater <==> !id_lt(*self, *other) && !id_eq(*self, *other),
    {
        let mut i: usize = 0;
        while i < 16
            invariant
                i <= 16,
                forall|j: int| 0 <= j < i ==> id_view(*self)[j] == id_view(*other)[j],
            decreases 16 - i,
        {
            let x = self.role_lane_at(i, 0);
            let y = other.role_lane_at(i, 0);
            if x < y {
                proof {
                    lemma_lex_from_prefix(id_view(*self), id_view(*other), i as int);
                }
                return Ordering::Less;
            }
            if x > y {
                proof {
                    lemma_lex_from_prefix(id_view(*self), id_view(*other), i as int);
                }
                return Ordering::Greater;
            }
            i += 1;
        }
        proof {
            assert(id_view(*self) =~= id_view(*other));
            lemma_id_eq_not_lt(*self, *other);
        }
        Ordering::Equal
    }
}

impl PartialEq for Id {
    /// Digits are equal when their canonical views agree.
    fn eq(&self, other: &Id) -> (r: bool) {
        matches!(self.cmp(other), Ordering::Equal)
    }
}

impl Eq for Id {

}

impl vstd::std_specs::cmp::PartialEqSpecImpl for Id {
    open spec fn obeys_eq_spec() -> bool {
        true
    }

    open spec fn eq_spec(&self, other: &Id) -> bool {
        id_eq(*self, *other)
    }
}

impl PartialOrd for Id {
    /// Digits are ordered lexicographically over their canonical views.
    fn partial_cmp(&self, other: &Id) -> (r: Option<Ordering>) {
        Some(self.cmp(other))
    }
}

impl vstd::std_specs::cmp::PartialOrdSpecImpl for Id {
    open spec fn obeys_partial_cmp_spec() -> bool {
        true
    }

    open spec fn partial_cmp_spec(&self, other: &Id) -> Option<Ordering> {
        if id_lt(*self, *other) {
            Some(Ordering::Less)
        } else if id_eq(*self, *other) {
            Some(Ordering::Equal)
        } else {
            Some(Ordering::Greater)
        }
    }
}

} // verus!
