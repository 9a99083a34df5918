//! Linear-interpolation resampling of a sequence onto a fixed number of slots.
//!
//! The source is read as control points spread evenly over `[0, 1]`, the first at 0
//! and the last at 1. Destination slot `i` of `n` sits at `i / (n - 1)`, which is the
//! fractional source index `i * (len - 1) / (n - 1)`. That index is kept exact here as
//! a quotient (the lower neighbour) and a remainder over `n - 1` (how far past it).
use vstd::prelude::*;

verus! {

/// Why a resampling request was refused.
#[derive(Debug, Clone, Copy, PartialEq, Eq, Structural)]
pub enum ResampleError {
    /// The source holds no values.
    EmptySource,
    /// The destination has fewer than two slots, so its slots have no spacing.
    DestinationTooShort,
}

/// Lower source neighbour of destination slot `i`.
pub open spec fn lower_index(src_len: int, dst_len: int, i: int) -> int {
    (i * (src_len - 1)) / (dst_len - 1)
}

/// How far slot `i` lies past its lower neighbour, in units of `1 / (dst_len - 1)`.
pub open spec fn offset_of(src_len: int, dst_len: int, i: int) -> int {
    (i * (src_len - 1)) % (dst_len - 1)
}

/// Upper source neighbour of destination slot `i`: the lower one itself when the slot
/// lands exactly on a control point.
pub open spec fn upper_index(src_len: int, dst_len: int, i: int) -> int {
    if offset_of(src_len, dst_len, i) == 0 {
        lower_index(src_len, dst_len, i)
    } else {
        lower_index(src_len, dst_len, i) + 1
    }
}

/// `lerp` may be called on any two values with a fraction strictly between 0 and 1.
pub open spec fn accepts_fractions<T, F: Fn(T, T, usize, usize) -> T>(lerp: F) -> bool {
    forall|a: T, b: T, num: usize, den: usize|
        0 < num < den ==> #[trigger] lerp.requires((a, b, num, den))
}

/// `v` is a value that slot `i` of `dst_len` slots may hold: the source value itself
/// where the slot lands on a control point, else what `lerp` gives between the two
/// neighbours at the slot's fraction.
pub open spec fn resampled_at<T, F: Fn(T, T, usize, usize) -> T>(
    src: Seq<T>,
    dst_len: int,
    i: int,
    lerp: F,
    v: T,
) -> bool {
    let lo = lower_index(src.len() as int, dst_len, i);
    let off = offset_of(src.len() as int, dst_len, i);
    if off == 0 {
        v == src[lo]
    } else {
        lerp.ensures((src[lo], src[lo + 1], off as usize, (dst_len - 1) as usize), v)
    }
}

/// Every slot of `dst` holds what linear interpolation of `src` puts there.
pub open spec fn is_resampling<T, F: Fn(T, T, usize, usize) -> T>(
    src: Seq<T>,
    dst: Seq<T>,
    lerp: F,
) -> bool {
    forall|i: int| 0 <= i < dst.len() ==> resampled_at(src, dst.len() as int, i, lerp, #[trigger] dst[i])
}

/// Where one destination slot falls among the source's control points.
#[derive(Debug, Clone, Copy, PartialEq, Eq, Structural)]
pub struct Position {
    /// Source index at or just below the slot.
    pub lower: usize,
    /// Source index at or just above the slot.
    pub upper: usize,
    /// Distance past `lower`, in units of `1 / span`; 0 on a control point.
    pub offset: usize,
    /// Number of gaps between destination slots.
    pub span: usize,
}

proof fn lemma_position_bounds(src_len: int, dst_len: int, i: int)
    requires
        src_len >= 1,
        dst_len >= 2,
        0 <= i < dst_len,
    ensures
        0 <= i * (src_len - 1) <= (dst_len - 1) * (src_len - 1),
        0 <= lower_index(src_len, dst_len, i) <= src_len - 1,
        0 <= offset_of(src_len, dst_len, i) < dst_len - 1,
        offset_of(src_len, dst_len, i) != 0 ==> lower_index(src_len, dst_len, i) < src_len - 1,
        upper_index(src_len, dst_len, i) <= src_len - 1,
{
    let s = i * (src_len - 1);
    let d = dst_len - 1;
    assert(0 <= s <= d * (src_len - 1)) by (nonlinear_arith)
        requires
            0 <= i <= d,
            src_len >= 1,
            s == i * (src_len - 1),
    ;
    vstd::arithmetic::div_mod::lemma_fundamental_div_mod(s, d);
    vstd::arithmetic::div_mod::lemma_div_is_ordered(s, d * (src_len - 1), d);
    vstd::arithmetic::div_mod::lemma_div_by_multiple(src_len - 1, d);
    assert((src_len - 1) * d == d * (src_len - 1)) by (nonlinear_arith);
    vstd::arithmetic::div_mod::lemma_div_pos_is_pos(s, d);
    vstd::arithmetic::div_mod::lemma_mod_bound(s, d);
    if s % d != 0 && s / d == src_len - 1 {
        assert(d * (src_len - 1) + s % d > d * (src_len - 1));
        assert(false);
    }
}

/// Where destination slot `index` of `dst_len` falls in a source of `src_len` values.
pub fn loc(src_len: usize, dst_len: usize, index: usize) -> (p: Position)
    requires
        src_len >= 1,
        dst_len >= 2,
        index < dst_len,
    ensures
        p.lower == lower_index(src_len as int, dst_len as int, index as int),
        p.offset == offset_of(src_len as int, dst_len as int, index as int),
        p.upper == upper_index(src_len as int, dst_len as int, index as int),
        p.span == dst_len - 1,
        p.upper < src_len,
        p.offset < p.span,
{
    proof {
        lemma_position_bounds(src_len as int, dst_len as int, index as int);
        assert((index as int) * (src_len as int - 1) < 0x1_0000_0000_0000_0000_0000_0000_0000_0000)
            by (nonlinear_arith)
            requires
                index < 0x1_0000_0000_0000_0000,
                src_len <= 0x1_0000_0000_0000_0000,
                src_len >= 1,
        ;
    }
    let span = dst_len - 1;
    let scaled: u128 = (index as u128) * ((src_len - 1) as u128);
    let lower = (scaled / (span as u128)) as usize;
    let offset = (scaled % (span as u128)) as usize;
    let upper = if offset == 0 { lower } else { lower + 1 };
    Position { lower, upper, offset, span }
}

/// The value of `src` at position `p`: the control point itself where `p` lands on
/// one, else `lerp` between the two neighbours.
pub fn interpsample<T: Copy, F: Fn(T, T, usize, usize) -> T>(src: &[T], p: Position, lerp: &F) -> (v: T)
    requires
        p.upper < src@.len(),
        p.offset == 0 ==> p.upper == p.lower,
        p.offset != 0 ==> p.upper == p.lower + 1 && p.offset < p.span,
        accepts_fractions(*lerp),
    ensures
        p.offset == 0 ==> v == src@[p.lower as int],
        p.offset != 0 ==> lerp.ensures((src@[p.lower as int], src@[p.upper as int], p.offset, p.span), v),
{
    if p.offset == 0 {
        src[p.lower]
    } else {
        lerp(src[p.lower], src[p.upper], p.offset, p.span)
    }
}

/// Linear interpolation always reproduces the first and last source values at the
/// first and last slots.
pub proof fn lemma_resampling_keeps_endpoints<T, F: Fn(T, T, usize, usize) -> T>(
    src: Seq<T>,
    dst: Seq<T>,
    lerp: F,
)
    requires
        src.len() >= 1,
        dst.len() >= 2,
        is_resampling(src, dst, lerp),
    ensures
        dst[0] == src[0],
        dst[dst.len() - 1] == src[src.len() - 1],
{
    let n = src.len() as int;
    let d = dst.len() as int;
    assert(resampled_at(src, d, 0, lerp, dst[0]));
    assert(resampled_at(src, d, d - 1, lerp, dst[d - 1]));
    assert(0 * (n - 1) == 0);
    vstd::arithmetic::div_mod::lemma_div_by_multiple(n - 1, d - 1);
    vstd::arithmetic::div_mod::lemma_mod_multiples_basic(n - 1, d - 1);
    assert((d - 1) * (n - 1) == (n - 1) * (d - 1)) by (nonlinear_arith);
}

/// Resampling a resampled sequence again still starts and ends on the original
/// first and last values, whatever the lengths in between; the values between the
/// ends are in general not those of one direct resampling.
pub proof fn lemma_repeated_resampling_keeps_endpoints<T, F: Fn(T, T, usize, usize) -> T>(
    src: Seq<T>,
    mid: Seq<T>,
    dst: Seq<T>,
    lerp: F,
)
    requires
        src.len() >= 1,
        mid.len() >= 2,
        dst.len() >= 2,
        is_resampling(src, mid, lerp),
        is_resampling(mid, dst, lerp),
    ensures
        dst[0] == src[0],
        dst[dst.len() - 1] == src[src.len() - 1],
{
    lemma_resampling_keeps_endpoints(src, mid, lerp);
    lemma_resampling_keeps_endpoints(mid, dst, lerp);
}

/// A property that every source value has, and that `lerp` keeps whenever both of its
/// ends have it, holds of every resampled slot (for instance: non-negative values
/// stay non-negative under an interpolation that stays between its ends).
pub proof fn lemma_resampling_keeps_closed_property<T, F: Fn(T, T, usize, usize) -> T>(
    src: Seq<T>,
    dst: Seq<T>,
    lerp: F,
    holds: spec_fn(T) -> bool,
)
    requires
        src.len() >= 1,
        2 <= dst.len() <= usize::MAX,
        is_resampling(src, dst, lerp),
        forall|k: int| 0 <= k < src.len() ==> holds(#[trigger] src[k]),
        forall|a: T, b: T, num: usize, den: usize, v: T|
            holds(a) && holds(b) && 0 < num < den && #[trigger] lerp.ensures((a, b, num, den), v)
                ==> holds(v),
    ensures
        forall|i: int| 0 <= i < dst.len() ==> holds(#[trigger] dst[i]),
{
    assert forall|i: int| 0 <= i < dst.len() implies holds(#[trigger] dst[i]) by {
        lemma_position_bounds(src.len() as int, dst.len() as int, i);
        assert(resampled_at(src, dst.len() as int, i, lerp, dst[i]));
        let lo = lower_index(src.len() as int, dst.len() as int, i);
        assert(holds(src[lo]));
        let off = offset_of(src.len() as int, dst.len() as int, i);
        if off != 0 {
            assert(holds(src[lo + 1]));
            assert(0 < (off as usize) && (off as usize) < ((dst.len() - 1) as usize));
            assert(lerp.ensures((src[lo], src[lo + 1], off as usize, (dst.len() - 1) as usize), dst[i]));
        }
    }
}

proof fn lemma_positions_ordered(src_len: int, dst_len: int, i: int, j: int)
    requires
        src_len >= 1,
        dst_len >= 2,
        0 <= i <= j < dst_len,
    ensures
        lower_index(src_len, dst_len, i) <= lower_index(src_len, dst_len, j),
        lower_index(src_len, dst_len, i) == lower_index(src_len, dst_len, j) ==> offset_of(
            src_len,
            dst_len,
            i,
        ) <= offset_of(src_len, dst_len, j),
{
    let d = dst_len - 1;
    let si = i * (src_len - 1);
    let sj = j * (src_len - 1);
    assert(si <= sj) by (nonlinear_arith)
        requires
            0 <= i <= j,
            src_len >= 1,
            si == i * (src_len - 1),
            sj == j * (src_len - 1),
    ;
    vstd::arithmetic::div_mod::lemma_div_is_ordered(si, sj, d);
    vstd::arithmetic::div_mod::lemma_fundamental_div_mod(si, d);
    vstd::arithmetic::div_mod::lemma_fundamental_div_mod(sj, d);
}

/// Where the source never falls under an order `le` between indices `from` and `to`,
/// and `lerp` stays between its ends and rises with the fraction, the resampled slots
/// whose neighbours all lie in that region never fall either.
pub proof fn lemma_resampling_keeps_order_in_region<T, F: Fn(T, T, usize, usize) -> T>(
    src: Seq<T>,
    dst: Seq<T>,
    lerp: F,
    le: spec_fn(T, T) -> bool,
    from: int,
    to: int,
)
    requires
        src.len() >= 1,
        2 <= dst.len() <= usize::MAX,
        0 <= from <= to < src.len(),
        is_resampling(src, dst, lerp),
        forall|a: T| #[trigger] le(a, a),
        forall|a: T, b: T, c: T| #[trigger] le(a, b) && #[trigger] le(b, c) ==> le(a, c),
        forall|k: int, m: int| from <= k <= m <= to ==> #[trigger] le(src[k], src[m]),
        forall|a: T, b: T, num: usize, den: usize, v: T|
            le(a, b) && 0 < num < den && #[trigger] lerp.ensures((a, b, num, den), v) ==> le(a, v)
                && le(v, b),
        forall|a: T, b: T, n1: usize, n2: usize, den: usize, v1: T, v2: T|
            #![trigger lerp.ensures((a, b, n1, den), v1), lerp.ensures((a, b, n2, den), v2)]
            le(a, b) && 0 < n1 <= n2 < den && lerp.ensures((a, b, n1, den), v1) && lerp.ensures(
                (a, b, n2, den),
                v2,
            ) ==> le(v1, v2),
    ensures
        forall|i: int, j: int|
            0 <= i <= j < dst.len() && from <= lower_index(src.len() as int, dst.len() as int, i)
                && upper_index(src.len() as int, dst.len() as int, j) <= to ==> le(
                #[trigger] dst[i],
                #[trigger] dst[j],
            ),
{
    let n = src.len() as int;
    let d = dst.len() as int;
    assert forall|i: int, j: int|
        0 <= i <= j < dst.len() && from <= lower_index(n, d, i) && upper_index(n, d, j)
            <= to implies le(#[trigger] dst[i], #[trigger] dst[j]) by {
        lemma_position_bounds(n, d, i);
        lemma_position_bounds(n, d, j);
        lemma_positions_ordered(n, d, i, j);
        assert(resampled_at(src, d, i, lerp, dst[i]));
        assert(resampled_at(src, d, j, lerp, dst[j]));
        let lo_i = lower_index(n, d, i);
        let lo_j = lower_index(n, d, j);
        let off_i = offset_of(n, d, i);
        let off_j = offset_of(n, d, j);
        let den = (d - 1) as usize;
        let up_i = upper_index(n, d, i);
        assert(up_i <= upper_index(n, d, j));
        if off_i != 0 {
            assert(le(src[lo_i], src[lo_i + 1]));
            assert(lerp.ensures((src[lo_i], src[lo_i + 1], off_i as usize, den), dst[i]));
        }
        if off_j != 0 {
            assert(le(src[lo_j], src[lo_j + 1]));
            assert(lerp.ensures((src[lo_j], src[lo_j + 1], off_j as usize, den), dst[j]));
        }
        // dst[i] lies at or under its upper neighbour, dst[j] at or over its lower one
        assert(le(dst[i], src[up_i]));
        assert(le(src[lo_j], dst[j]));
        if lo_i != lo_j {
            assert(up_i <= lo_j);
            assert(le(src[up_i], src[lo_j]));
            assert(le(dst[i], src[lo_j]));
        }
    }
}

/// Where the source never falls under an order `le`, and `lerp` stays between its
/// ends and rises with the fraction, the resampled slots never fall either.
pub proof fn lemma_resampling_keeps_order<T, F: Fn(T, T, usize, usize) -> T>(
    src: Seq<T>,
    dst: Seq<T>,
    lerp: F,
    le: spec_fn(T, T) -> bool,
)
    requires
        src.len() >= 1,
        2 <= dst.len() <= usize::MAX,
        is_resampling(src, dst, lerp),
        forall|a: T| #[trigger] le(a, a),
        forall|a: T, b: T, c: T| #[trigger] le(a, b) && #[trigger] le(b, c) ==> le(a, c),
        forall|k: int, m: int| 0 <= k <= m < src.len() ==> #[trigger] le(src[k], src[m]),
        forall|a: T, b: T, num: usize, den: usize, v: T|
            le(a, b) && 0 < num < den && #[trigger] lerp.ensures((a, b, num, den), v) ==> le(a, v)
                && le(v, b),
        forall|a: T, b: T, n1: usize, n2: usize, den: usize, v1: T, v2: T|
            #![trigger lerp.ensures((a, b, n1, den), v1), lerp.ensures((a, b, n2, den), v2)]
            le(a, b) && 0 < n1 <= n2 < den && lerp.ensures((a, b, n1, den), v1) && lerp.ensures(
                (a, b, n2, den),
                v2,
            ) ==> le(v1, v2),
    ensures
        forall|i: int, j: int| 0 <= i <= j < dst.len() ==> le(#[trigger] dst[i], #[trigger] dst[j]),
{
    let n = src.len() as int;
    let d = dst.len() as int;
    lemma_resampling_keeps_order_in_region(src, dst, lerp, le, 0, n - 1);
    assert forall|i: int, j: int| 0 <= i <= j < dst.len() implies le(
        #[trigger] dst[i],
        #[trigger] dst[j],
    ) by {
        lemma_position_bounds(n, d, i);
        lemma_position_bounds(n, d, j);
    }
}

/// Resampling twice keeps a rising source rising, though its values in between
/// change: where the source never falls under `le`, and `lerp` stays between its ends
/// and rises with the fraction, neither the intermediate nor the final slots fall.
pub proof fn lemma_repeated_resampling_keeps_order<T, F: Fn(T, T, usize, usize) -> T>(
    src: Seq<T>,
    mid: Seq<T>,
    dst: Seq<T>,
    lerp: F,
    le: spec_fn(T, T) -> bool,
)
    requires
        src.len() >= 1,
        2 <= mid.len() <= usize::MAX,
        2 <= dst.len() <= usize::MAX,
        is_resampling(src, mid, lerp),
        is_resampling(mid, dst, lerp),
        forall|a: T| #[trigger] le(a, a),
        forall|a: T, b: T, c: T| #[trigger] le(a, b) && #[trigger] le(b, c) ==> le(a, c),
        forall|k: int, m: int| 0 <= k <= m < src.len() ==> #[trigger] le(src[k], src[m]),
        forall|a: T, b: T, num: usize, den: usize, v: T|
            le(a, b) && 0 < num < den && #[trigger] lerp.ensures((a, b, num, den), v) ==> le(a, v)
                && le(v, b),
        forall|a: T, b: T, n1: usize, n2: usize, den: usize, v1: T, v2: T|
            #![trigger lerp.ensures((a, b, n1, den), v1), lerp.ensures((a, b, n2, den), v2)]
            le(a, b) && 0 < n1 <= n2 < den && lerp.ensures((a, b, n1, den), v1) && lerp.ensures(
                (a, b, n2, den),
                v2,
            ) ==> le(v1, v2),
    ensures
        forall|i: int, j: int| 0 <= i <= j < mid.len() ==> le(#[trigger] mid[i], #[trigger] mid[j]),
        forall|i: int, j: int| 0 <= i <= j < dst.len() ==> le(#[trigger] dst[i], #[trigger] dst[j]),
{
    lemma_resampling_keeps_order(src, mid, lerp, le);
    lemma_resampling_keeps_order(mid, dst, lerp, le);
}

/// Fills every slot of `dst` by linear interpolation of `src`.
///
/// `lerp(a, b, num, den)` is the caller's value at fraction `num / den` of the way
/// from `a` to `b`; it is only called with `0 < num < den`. A slot that lands exactly
/// on a source value takes that value unchanged. An empty source or a destination of
/// fewer than two slots is refused and leaves `dst` as it was.
pub fn downsample<T: Copy, F: Fn(T, T, usize, usize) -> T>(
    src: &[T],
    dst: &mut [T],
    lerp: &F,
) -> (r: Result<(), ResampleError>)
    requires
        accepts_fractions(*lerp),
    ensures
        final(dst)@.len() == old(dst)@.len(),
        r == Err::<(), ResampleError>(ResampleError::EmptySource) <==> src@.len() == 0,
        r == Err::<(), ResampleError>(ResampleError::DestinationTooShort) <==> src@.len() >= 1
            && old(dst)@.len() < 2,
        r is Ok <==> src@.len() >= 1 && old(dst)@.len() >= 2,
        r is Err ==> final(dst)@ == old(dst)@,
        r is Ok ==> is_resampling(src@, final(dst)@, *lerp),
        r is Ok ==> final(dst)@[0] == src@[0],
        r is Ok ==> final(dst)@[old(dst)@.len() - 1] == src@[src@.len() - 1],
{
    if src.len() == 0 {
        return Err(ResampleError::EmptySource);
    }
    if dst.len() < 2 {
        return Err(ResampleError::DestinationTooShort);
    }
    let dst_len = dst.len();
    let mut i: usize = 0;
    while i < dst_len
        invariant
            src@.len() >= 1,
            dst_len >= 2,
            dst_len == dst@.len(),
            i <= dst_len,
            accepts_fractions(*lerp),
            forall|j: int|
                0 <= j < i ==> resampled_at(src@, dst_len as int, j, *lerp, #[trigger] dst@[j]),
        decreases dst_len - i,
    {
        let p = loc(src.len(), dst_len, i);
        let v = interpsample(src, p, lerp);
        dst[i] = v;
        i = i + 1;
    }
    proof {
        lemma_resampling_keeps_endpoints(src@, dst@, *lerp);
    }
    Ok(())
}

} // verus!
