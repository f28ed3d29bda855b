//! Cutting a fixed-size region out of a frame: the part that lies inside
//! the frame, and the replicated-edge padding that completes it.
use vstd::prelude::*;

verus! {

/// Along one axis: the source pixels taken and the padding on each side.
#[derive(Debug, PartialEq, Eq, Structural, Clone, Copy)]
pub struct AxisSpan {
    pub src_start: i32,
    pub src_len: i32,
    pub pad_before: i32,
    pub pad_after: i32,
}

/// Source rectangle and padding for a region of a frame.
#[derive(Debug, PartialEq, Eq, Structural, Clone, Copy)]
pub struct RoiPad {
    pub roi_x: i32,
    pub roi_y: i32,
    pub roi_width: i32,
    pub roi_height: i32,
    pub pad_left: i32,
    pub pad_right: i32,
    pub pad_top: i32,
    pub pad_bottom: i32,
}

pub open spec fn clamp(v: int, lo: int, hi: int) -> int {
    if v < lo { lo } else if v > hi { hi } else { v }
}

pub open spec fn max_int(a: int, b: int) -> int {
    if a > b { a } else { b }
}

pub open spec fn min_int(a: int, b: int) -> int {
    if a < b { a } else { b }
}

/// The span for `[x, x + w)` on an axis of `len` pixels. A request that
/// misses the frame takes the nearest edge pixel; a size below 0 counts as 0.
pub open spec fn axis_spec(len: int, x: int, w: int) -> (int, int, int, int) {
    let w = max_int(w, 0);
    let lo = max_int(x, 0);
    let hi = min_int(x + w, len);
    if w == 0 {
        (clamp(x, 0, len - 1), 0, 0, 0)
    } else if lo < hi {
        (lo, hi - lo, lo - x, x + w - hi)
    } else if x + w <= 0 {
        (0, 1, 0, w - 1)
    } else {
        (len - 1, 1, w - 1, 0)
    }
}

pub open spec fn span_matches(a: AxisSpan, t: (int, int, int, int)) -> bool {
    a.src_start == t.0 && a.src_len == t.1 && a.pad_before == t.2 && a.pad_after == t.3
}

/// The source pixel that edge replication reads for output position `c`.
pub open spec fn replicated_source(start: int, len: int, pad_before: int, c: int) -> int {
    start + clamp(c - pad_before, 0, len - 1)
}

fn axis_span(len: i32, x: i32, w: i32) -> (r: AxisSpan)
    requires
        len >= 1,
    ensures
        span_matches(r, axis_spec(len as int, x as int, w as int)),
{
    let w: i64 = if w < 0 { 0 } else { w as i64 };
    let x: i64 = x as i64;
    let len: i64 = len as i64;
    let lo = if x > 0 { x } else { 0 };
    let hi = if x + w < len { x + w } else { len };
    if w == 0 {
        let s = if x < 0 { 0 } else if x > len - 1 { len - 1 } else { x };
        AxisSpan { src_start: s as i32, src_len: 0, pad_before: 0, pad_after: 0 }
    } else if lo < hi {
        AxisSpan {
            src_start: lo as i32,
            src_len: (hi - lo) as i32,
            pad_before: (lo - x) as i32,
            pad_after: (x + w - hi) as i32,
        }
    } else if x + w <= 0 {
        AxisSpan { src_start: 0, src_len: 1, pad_before: 0, pad_after: (w - 1) as i32 }
    } else {
        AxisSpan { src_start: (len - 1) as i32, src_len: 1, pad_before: (w - 1) as i32, pad_after: 0 }
    }
}

impl RoiPad {
    /// Source rectangle and padding for the region at `(x, y)` of size
    /// `w` x `h` in a frame of `in_width` x `in_height` pixels.
    pub fn calc(in_width: i32, in_height: i32, x: i32, y: i32, w: i32, h: i32) -> (r: RoiPad)
        requires
            in_width >= 1,
            in_height >= 1,
        ensures
            r.roi_x == axis_spec(in_width as int, x as int, w as int).0,
            r.roi_width == axis_spec(in_width as int, x as int, w as int).1,
            r.pad_left == axis_spec(in_width as int, x as int, w as int).2,
            r.pad_right == axis_spec(in_width as int, x as int, w as int).3,
            r.roi_y == axis_spec(in_height as int, y as int, h as int).0,
            r.roi_height == axis_spec(in_height as int, y as int, h as int).1,
            r.pad_top == axis_spec(in_height as int, y as int, h as int).2,
            r.pad_bottom == axis_spec(in_height as int, y as int, h as int).3,
    {
        let ax = axis_span(in_width, x, w);
        let ay = axis_span(in_height, y, h);
        RoiPad {
            roi_x: ax.src_start,
            roi_y: ay.src_start,
            roi_width: ax.src_len,
            roi_height: ay.src_len,
            pad_left: ax.pad_before,
            pad_right: ax.pad_after,
            pad_top: ay.pad_before,
            pad_bottom: ay.pad_after,
        }
    }

    /// Whether the region needs no padding at all.
    pub fn is_unpadded(&self) -> (r: bool)
        ensures
            r == (self.pad_left == 0 && self.pad_right == 0 && self.pad_top == 0
                && self.pad_bottom == 0),
    {
        self.pad_left == 0 && self.pad_right == 0 && self.pad_top == 0 && self.pad_bottom == 0
    }
}

/// Along one axis, a padded region has exactly the requested size, takes
/// its source pixels from inside the frame, and each of its positions shows
/// the frame pixel nearest to the requested one: the pixel itself where the
/// request overlaps the frame, the nearest edge pixel elsewhere.
pub proof fn lemma_axis_padding(len: int, x: int, w: int)
    requires
        len >= 1,
        w >= 1,
    ensures
        ({
            let (start, n, before, after) = axis_spec(len, x, w);
            &&& before + n + after == w
            &&& before >= 0 && after >= 0 && n >= 1
            &&& 0 <= start && start + n <= len
            &&& forall|c: int|
                0 <= c < w ==> #[trigger] replicated_source(start, n, before, c) == clamp(
                    x + c,
                    0,
                    len - 1,
                )
        }),
{
}

/// A region cut with `RoiPad::calc` and completed by edge replication has
/// exactly the requested pixel size, and each of its pixels equals the
/// frame pixel nearest to the requested position: the pixel itself inside
/// the frame, the nearest border pixel outside.
pub proof fn lemma_roi_padding(in_width: int, in_height: int, x: int, y: int, w: int, h: int)
    requires
        in_width >= 1,
        in_height >= 1,
        w >= 1,
        h >= 1,
    ensures
        ({
            let (sx, nx, left, right) = axis_spec(in_width, x, w);
            let (sy, ny, top, bottom) = axis_spec(in_height, y, h);
            &&& left + nx + right == w
            &&& top + ny + bottom == h
            &&& 0 <= sx && sx + nx <= in_width && 0 <= sy && sy + ny <= in_height
            &&& forall|c: int, d: int|
                0 <= c < w && 0 <= d < h ==> (#[trigger] replicated_source(sx, nx, left, c),
                #[trigger] replicated_source(sy, ny, top, d)) == (clamp(x + c, 0, in_width - 1),
                clamp(y + d, 0, in_height - 1))
        }),
{
    lemma_axis_padding(in_width, x, w);
    lemma_axis_padding(in_height, y, h);
}

} // verus!
