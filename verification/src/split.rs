//! Rectangle detection and page splitting.
//!
//! Detects rectangles drawn by the user and assigns each stroke and text
//! box either to a rectangle or to the main page.
use vstd::prelude::*;

use crate::format::stroke::{ScreenCoord, Stroke, StrokeModel, TextBox, TextBoxModel, COLOR_ERASER};

verus! {

/// Configuration for rectangle detection.
#[derive(Debug, Clone, Copy)]
pub struct SplitConfig {
    /// Minimum rectangle height in physical units (100 = 1mm).
    pub min_height: i32,
}

impl Default for SplitConfig {
    fn default() -> (c: Self)
        ensures
            c.min_height == 1500,
    {
        SplitConfig { min_height: 1500 }
    }
}

/// A detected rectangle with its bounding box in raw physical coordinates.
#[derive(Debug, Clone, Copy)]
pub struct DetectedRectangle {
    /// The four corners of the rectangle.
    pub corners: [ScreenCoord; 4],
    /// Bounding box minimum (min_y, min_x).
    pub bbox_min: ScreenCoord,
    /// Bounding box maximum (max_y, max_x).
    pub bbox_max: ScreenCoord,
    /// Index of the stroke that was detected as a rectangle.
    pub stroke_index: usize,
}

/// Result of splitting a page into rectangles and content assignments.
#[derive(Debug)]
pub struct SplitResult {
    /// Detected rectangles, sorted top-to-bottom, left-to-right.
    pub rectangles: Vec<DetectedRectangle>,
    /// For each stroke: `None` = main page, `Some(idx)` = rectangle idx.
    /// Rectangle strokes themselves are `None` and belong to no page.
    pub stroke_assignments: Vec<Option<usize>>,
    /// For each text box: `None` = main page, `Some(idx)` = rectangle idx.
    pub textbox_assignments: Vec<Option<usize>>,
}

/// What a detected rectangle holds, over plain values.
pub struct RectModel {
    pub min: ScreenCoord,
    pub max: ScreenCoord,
    pub stroke_index: usize,
}

impl View for DetectedRectangle {
    type V = RectModel;

    open spec fn view(&self) -> RectModel {
        RectModel { min: self.bbox_min, max: self.bbox_max, stroke_index: self.stroke_index }
    }
}

/// The corners of a rectangle are those of its bounding box, clockwise
/// from the top left.
pub open spec fn corners_ok(r: DetectedRectangle) -> bool {
    &&& r.corners[0] == ScreenCoord { y: r.bbox_min.y, x: r.bbox_min.x }
    &&& r.corners[1] == ScreenCoord { y: r.bbox_min.y, x: r.bbox_max.x }
    &&& r.corners[2] == ScreenCoord { y: r.bbox_max.y, x: r.bbox_max.x }
    &&& r.corners[3] == ScreenCoord { y: r.bbox_max.y, x: r.bbox_min.x }
}

/// Rust's `/` on integers: the quotient rounded toward zero.
pub open spec fn tdiv(a: int, b: int) -> int {
    if a >= 0 {
        a / b
    } else {
        -((-a) / b)
    }
}

/// Whether `(x, y)` lies in the closed box `min..=max`.
pub open spec fn in_box(x: int, y: int, min: ScreenCoord, max: ScreenCoord) -> bool {
    min.x <= x <= max.x && min.y <= y <= max.y
}

/// Checks whether a point is inside a bounding box.
pub fn point_in_bbox(x: i32, y: i32, bbox_min: &ScreenCoord, bbox_max: &ScreenCoord) -> (r: bool)
    ensures
        r == in_box(x as int, y as int, *bbox_min, *bbox_max),
{
    x >= bbox_min.x && x <= bbox_max.x && y >= bbox_min.y && y <= bbox_max.y
}

/// The smallest `x` of a non-empty list of points.
pub open spec fn min_x(p: Seq<ScreenCoord>) -> int
    decreases p.len(),
{
    if p.len() <= 1 {
        p[0].x as int
    } else if p.last().x < min_x(p.drop_last()) {
        p.last().x as int
    } else {
        min_x(p.drop_last())
    }
}

/// The largest `x` of a non-empty list of points.
pub open spec fn max_x(p: Seq<ScreenCoord>) -> int
    decreases p.len(),
{
    if p.len() <= 1 {
        p[0].x as int
    } else if p.last().x > max_x(p.drop_last()) {
        p.last().x as int
    } else {
        max_x(p.drop_last())
    }
}

/// The smallest `y` of a non-empty list of points.
pub open spec fn min_y(p: Seq<ScreenCoord>) -> int
    decreases p.len(),
{
    if p.len() <= 1 {
        p[0].y as int
    } else if p.last().y < min_y(p.drop_last()) {
        p.last().y as int
    } else {
        min_y(p.drop_last())
    }
}

/// The largest `y` of a non-empty list of points.
pub open spec fn max_y(p: Seq<ScreenCoord>) -> int
    decreases p.len(),
{
    if p.len() <= 1 {
        p[0].y as int
    } else if p.last().y > max_y(p.drop_last()) {
        p.last().y as int
    } else {
        max_y(p.drop_last())
    }
}

proof fn lemma_bbox_bounds(p: Seq<ScreenCoord>)
    requires
        p.len() >= 1,
    ensures
        forall|i: int|
            0 <= i < p.len() ==> min_x(p) <= #[trigger] p[i].x <= max_x(p) && min_y(p) <= p[i].y
                <= max_y(p),
        i32::MIN <= min_x(p) <= max_x(p) <= i32::MAX,
        i32::MIN <= min_y(p) <= max_y(p) <= i32::MAX,
    decreases p.len(),
{
    if p.len() > 1 {
        lemma_bbox_bounds(p.drop_last());
        assert forall|i: int| 0 <= i < p.len() - 1 implies p[i] == p.drop_last()[i] by {}
    }
}

/// The bounding box of a non-empty list of points.
fn bbox(points: &Vec<ScreenCoord>) -> (r: (ScreenCoord, ScreenCoord))
    requires
        points@.len() >= 1,
    ensures
        r.0.x == min_x(points@) && r.0.y == min_y(points@),
        r.1.x == max_x(points@) && r.1.y == max_y(points@),
{
    let mut x0 = points[0].x;
    let mut x1 = points[0].x;
    let mut y0 = points[0].y;
    let mut y1 = points[0].y;
    let mut i: usize = 1;
    while i < points.len()
        invariant
            1 <= i <= points@.len(),
            x0 == min_x(points@.take(i as int)),
            x1 == max_x(points@.take(i as int)),
            y0 == min_y(points@.take(i as int)),
            y1 == max_y(points@.take(i as int)),
        decreases points@.len() - i,
    {
        assert(points@.take(i as int + 1).drop_last() =~= points@.take(i as int));
        let p = points[i];
        if p.x < x0 {
            x0 = p.x;
        }
        if p.x > x1 {
            x1 = p.x;
        }
        if p.y < y0 {
            y0 = p.y;
        }
        if p.y > y1 {
            y1 = p.y;
        }
        i += 1;
    }
    assert(points@.take(i as int) =~= points@);
    (ScreenCoord { y: y0, x: x0 }, ScreenCoord { y: y1, x: x1 })
}

/// The largest `t >= 0` with `den * t * t <= num * d`: the integer part
/// of `sqrt(d) * sqrt(num / den)`.
pub open spec fn is_scaled_root(t: int, d: int, num: int, den: int) -> bool {
    t >= 0 && den * t * t <= num * d && den * (t + 1) * (t + 1) > num * d
}

/// The integer part of `sqrt(d)` times `sqrt(num / den)`.
pub open spec fn scaled_root(d: int, num: int, den: int) -> int {
    choose|t: int| is_scaled_root(t, d, num, den)
}

proof fn lemma_scaled_root_unique(t: int, u: int, d: int, num: int, den: int)
    requires
        den > 0,
        is_scaled_root(t, d, num, den),
        is_scaled_root(u, d, num, den),
    ensures
        t == u,
{
    if t < u {
        assert(den * (t + 1) * (t + 1) <= den * u * u) by (nonlinear_arith)
            requires
                den > 0,
                0 <= t + 1 <= u,
        ;
    } else if u < t {
        assert(den * (u + 1) * (u + 1) <= den * t * t) by (nonlinear_arith)
            requires
                den > 0,
                0 <= u + 1 <= t,
        ;
    }
}

/// Computes `scaled_root(d, num, den)` by bisection.
fn scaled_root_exec(d: i64, num: i64, den: i64) -> (t: i64)
    requires
        0 <= d <= i32::MAX,
        1 <= num <= 16,
        1 <= den <= 1000,
    ensures
        t as int == scaled_root(d as int, num as int, den as int),
        is_scaled_root(t as int, d as int, num as int, den as int),
{
    // The answer is below 2^18 since den * t * t <= 16 * 2^31.
    let mut lo: i64 = 0;
    let mut hi: i64 = 0x4_0000;
    assert(hi * hi == 0x10_0000_0000) by (nonlinear_arith)
        requires
            hi == 0x4_0000,
    ;
    assert(den * (hi * hi) >= hi * hi) by (nonlinear_arith)
        requires
            den >= 1,
            hi * hi >= 0,
    ;
    assert(num * d <= 16 * 0x7fff_ffff) by (nonlinear_arith)
        requires
            1 <= num <= 16,
            0 <= d <= 0x7fff_ffff,
    ;
    assert(den * hi * hi == den * (hi * hi)) by (nonlinear_arith);
    while hi - lo > 1
        invariant
            0 <= lo < hi <= 0x4_0000,
            1 <= num <= 16,
            1 <= den <= 1000,
            0 <= d <= i32::MAX,
            den * lo * lo <= num * d,
            den * hi * hi > num * d,
        decreases hi - lo,
    {
        let mid = lo + (hi - lo) / 2;
        assert(0 <= den * mid <= 1000 * 0x4_0000) by (nonlinear_arith)
            requires
                0 <= mid <= 0x4_0000,
                1 <= den <= 1000,
        ;
        assert(0 <= den * mid * mid <= 1000 * 0x4_0000 * 0x4_0000) by (nonlinear_arith)
            requires
                0 <= mid <= 0x4_0000,
                0 <= den * mid <= 1000 * 0x4_0000,
        ;
        assert(num * d <= 16 * 0x7fff_ffff) by (nonlinear_arith)
            requires
                1 <= num <= 16,
                0 <= d <= 0x7fff_ffff,
        ;
        if den * mid * mid <= num * d {
            lo = mid;
        } else {
            hi = mid;
        }
    }
    assert(hi == lo + 1);
    proof {
        assert(is_scaled_root(lo as int, d as int, num as int, den as int));
        let c = scaled_root(d as int, num as int, den as int);
        lemma_scaled_root_unique(lo as int, c, d as int, num as int, den as int);
    }
    lo
}

/// Counts the points satisfying `f`.
pub open spec fn count_where(p: Seq<ScreenCoord>, f: spec_fn(ScreenCoord) -> bool) -> nat
    decreases p.len(),
{
    if p.len() == 0 {
        0
    } else {
        count_where(p.drop_last(), f) + if f(p.last()) {
            1nat
        } else {
            0nat
        }
    }
}

/// `|a - b| <= t`.
pub open spec fn near(a: int, b: int, t: int) -> bool {
    -t <= a - b <= t
}

/// Whether the point `p` lies within `t` of an edge of the box.
pub open spec fn hugs_edge(p: ScreenCoord, b0: ScreenCoord, b1: ScreenCoord, t: int) -> bool {
    near(p.y as int, b0.y as int, t) || near(p.y as int, b1.y as int, t) || near(
        p.x as int,
        b0.x as int,
        t,
    ) || near(p.x as int, b1.x as int, t)
}

/// Whether two points both lie within `t` of one and the same edge of the box.
pub open spec fn on_same_edge(p: ScreenCoord, q: ScreenCoord, b0: ScreenCoord, b1: ScreenCoord, t: int) -> bool {
    (near(p.y as int, b0.y as int, t) && near(q.y as int, b0.y as int, t)) || (near(
        p.y as int,
        b1.y as int,
        t,
    ) && near(q.y as int, b1.y as int, t)) || (near(p.x as int, b0.x as int, t) && near(
        q.x as int,
        b0.x as int,
        t,
    )) || (near(p.x as int, b1.x as int, t) && near(q.x as int, b1.x as int, t))
}

/// The bounding box of a stroke's points.
pub open spec fn stroke_box(s: StrokeModel) -> (ScreenCoord, ScreenCoord) {
    (
        ScreenCoord { y: min_y(s.points) as i32, x: min_x(s.points) as i32 },
        ScreenCoord { y: max_y(s.points) as i32, x: max_x(s.points) as i32 },
    )
}

/// The bounding box of a stroke when the stroke traces a rectangle.
///
/// A rectangle is a closed, non-eraser stroke of at least 20 points, at
/// least `min_height` tall and `min_height / 2` wide, whose end points lie
/// near the same edge of its bounding box (within 12% of the diagonal),
/// at least 85% of whose points lie within 10% of the diagonal of some
/// edge, and which visits each edge with at least a tenth of its points.
pub open spec fn rectangle_of(s: StrokeModel, min_height: i32) -> Option<(ScreenCoord, ScreenCoord)> {
    let p = s.points;
    let n = p.len();
    if n < 20 || s.color == COLOR_ERASER {
        None
    } else {
        let (b0, b1) = stroke_box(s);
        let w = b1.x - b0.x;
        let h = b1.y - b0.y;
        if h < min_height || w < tdiv(min_height as int, 2) {
            None
        } else {
            let d = w * w + h * h;
            let close_tol = scaled_root(d, 9, 625);
            let edge_tol = scaled_root(d, 1, 100);
            if !on_same_edge(p[0], p[n - 1], b0, b1, close_tol) {
                None
            } else {
                let hugging = count_where(p, |q: ScreenCoord| hugs_edge(q, b0, b1, edge_tol));
                let visits = n / 10;
                if 20 * hugging < 17 * n {
                    None
                } else if count_where(p, |q: ScreenCoord| near(q.y as int, b0.y as int, edge_tol))
                    < visits || count_where(
                    p,
                    |q: ScreenCoord| near(q.y as int, b1.y as int, edge_tol),
                ) < visits || count_where(
                    p,
                    |q: ScreenCoord| near(q.x as int, b0.x as int, edge_tol),
                ) < visits || count_where(
                    p,
                    |q: ScreenCoord| near(q.x as int, b1.x as int, edge_tol),
                ) < visits {
                    None
                } else {
                    Some((b0, b1))
                }
            }
        }
    }
}

/// The stroke's arithmetic stays within `i32` where the detector does it:
/// the extent of its bounding box (for strokes that reach rectangle
/// detection: at least 20 points, not an eraser), its squared diagonal
/// (for those tall and wide enough), and its centre.
pub open spec fn stroke_fits(s: StrokeModel, min_height: i32) -> bool {
    s.points.len() >= 1 ==> {
        let w = max_x(s.points) - min_x(s.points);
        let h = max_y(s.points) - min_y(s.points);
        &&& (s.points.len() >= 20 && s.color != COLOR_ERASER) ==> w <= i32::MAX && h <= i32::MAX
        &&& (s.points.len() >= 20 && s.color != COLOR_ERASER && h >= min_height && w >= tdiv(
            min_height as int,
            2,
        )) ==> w * w + h * h <= i32::MAX
        &&& i32::MIN <= min_x(s.points) + max_x(s.points) <= i32::MAX
        &&& i32::MIN <= min_y(s.points) + max_y(s.points) <= i32::MAX
    }
}

/// Counts the points within `t` of the value `v` on one axis.
fn count_near_axis(points: &Vec<ScreenCoord>, v: i32, t: i64, on_y: bool, b0: ScreenCoord, b1: ScreenCoord) -> (c: usize)
    requires
        points@.len() >= 1,
        b0.x == min_x(points@) && b0.y == min_y(points@),
        b1.x == max_x(points@) && b1.y == max_y(points@),
        v == b0.y || v == b1.y || v == b0.x || v == b1.x,
        0 <= t <= i32::MAX,
    ensures
        on_y ==> c == count_where(points@, |q: ScreenCoord| near(q.y as int, v as int, t as int)),
        !on_y ==> c == count_where(points@, |q: ScreenCoord| near(q.x as int, v as int, t as int)),
{
    let mut c: usize = 0;
    let mut i: usize = 0;
    proof {
        lemma_bbox_bounds(points@);
    }
    while i < points.len()
        invariant
            i <= points@.len(),
            c <= i,
            0 <= t <= i32::MAX,
            on_y ==> c == count_where(points@.take(i as int), |q: ScreenCoord| near(q.y as int, v as int, t as int)),
            !on_y ==> c == count_where(points@.take(i as int), |q: ScreenCoord| near(q.x as int, v as int, t as int)),
        decreases points@.len() - i,
    {
        assert(points@.take(i as int + 1).drop_last() =~= points@.take(i as int));
        let p = points[i];
        let a: i64 = if on_y { p.y as i64 } else { p.x as i64 };
        let diff = a - v as i64;
        if -t <= diff && diff <= t {
            c += 1;
        }
        i += 1;
    }
    assert(points@.take(i as int) =~= points@);
    c
}

/// Counts the points within `t` of an edge of the box.
fn count_hugging(points: &Vec<ScreenCoord>, b0: ScreenCoord, b1: ScreenCoord, t: i64) -> (c: usize)
    requires
        0 <= t <= i32::MAX,
    ensures
        c == count_where(points@, |q: ScreenCoord| hugs_edge(q, b0, b1, t as int)),
        c <= points@.len(),
{
    let mut c: usize = 0;
    let mut i: usize = 0;
    while i < points.len()
        invariant
            i <= points@.len(),
            c <= i,
            0 <= t <= i32::MAX,
            c == count_where(points@.take(i as int), |q: ScreenCoord| hugs_edge(q, b0, b1, t as int)),
        decreases points@.len() - i,
    {
        assert(points@.take(i as int + 1).drop_last() =~= points@.take(i as int));
        let p = points[i];
        if near_i64(p.y as i64, b0.y as i64, t) || near_i64(p.y as i64, b1.y as i64, t) || near_i64(
            p.x as i64,
            b0.x as i64,
            t,
        ) || near_i64(p.x as i64, b1.x as i64, t) {
            c += 1;
        }
        i += 1;
    }
    assert(points@.take(i as int) =~= points@);
    c
}

fn near_i64(a: i64, b: i64, t: i64) -> (r: bool)
    requires
        i32::MIN <= a <= i32::MAX,
        i32::MIN <= b <= i32::MAX,
        0 <= t <= i32::MAX,
    ensures
        r == near(a as int, b as int, t as int),
{
    -t <= a - b && a - b <= t
}

/// Detects whether a stroke traces a rectangle; see [`rectangle_of`].
pub fn try_detect_rectangle(stroke: &Stroke, config: &SplitConfig) -> (r: Option<(ScreenCoord, ScreenCoord)>)
    requires
        stroke_fits(stroke@, config.min_height),
    ensures
        r == rectangle_of(stroke@, config.min_height),
{
    let n = stroke.points.len();
    if n < 20 {
        return None;
    }
    if stroke.color == COLOR_ERASER {
        return None;
    }
    let (b0, b1) = bbox(&stroke.points);
    proof {
        lemma_bbox_bounds(stroke.points@);
    }
    let width = b1.x - b0.x;
    let height = b1.y - b0.y;
    if height < config.min_height {
        return None;
    }
    if width < config.min_height / 2 {
        return None;
    }
    assert(width as int * width as int + height as int * height as int <= i32::MAX);
    let d = width as i64 * width as i64 + height as i64 * height as i64;
    let close_tol = scaled_root_exec(d, 9, 625);
    let edge_tol = scaled_root_exec(d, 1, 100);
    assert(close_tol <= i32::MAX) by (nonlinear_arith)
        requires
            625 * close_tol * close_tol <= 9 * d,
            d <= i32::MAX,
            close_tol >= 0,
    ;
    assert(edge_tol <= i32::MAX) by (nonlinear_arith)
        requires
            100 * edge_tol * edge_tol <= d,
            d <= i32::MAX,
            edge_tol >= 0,
    ;
    let first = stroke.points[0];
    let last = stroke.points[n - 1];
    assert(first == stroke@.points[0] && last == stroke@.points[n - 1]);
    let same = (near_i64(first.y as i64, b0.y as i64, close_tol) && near_i64(
        last.y as i64,
        b0.y as i64,
        close_tol,
    )) || (near_i64(first.y as i64, b1.y as i64, close_tol) && near_i64(
        last.y as i64,
        b1.y as i64,
        close_tol,
    )) || (near_i64(first.x as i64, b0.x as i64, close_tol) && near_i64(
        last.x as i64,
        b0.x as i64,
        close_tol,
    )) || (near_i64(first.x as i64, b1.x as i64, close_tol) && near_i64(
        last.x as i64,
        b1.x as i64,
        close_tol,
    ));
    if !same {
        return None;
    }
    let hugging = count_hugging(&stroke.points, b0, b1, edge_tol);
    assert(hugging <= n);
    if 20 * (hugging as u128) < 17 * (n as u128) {
        return None;
    }
    let visits = n / 10;
    let near_top = count_near_axis(&stroke.points, b0.y, edge_tol, true, b0, b1);
    let near_bot = count_near_axis(&stroke.points, b1.y, edge_tol, true, b0, b1);
    let near_left = count_near_axis(&stroke.points, b0.x, edge_tol, false, b0, b1);
    let near_right = count_near_axis(&stroke.points, b1.x, edge_tol, false, b0, b1);
    if near_top < visits || near_bot < visits || near_left < visits || near_right < visits {
        return None;
    }
    Some((b0, b1))
}

/// The rectangles found among the first `n` strokes, in stroke order.
pub open spec fn detected(strokes: Seq<StrokeModel>, min_height: i32, n: nat) -> Seq<RectModel>
    decreases n,
{
    if n == 0 {
        Seq::empty()
    } else {
        let r = detected(strokes, min_height, (n - 1) as nat);
        match rectangle_of(strokes[n - 1], min_height) {
            Some((b0, b1)) => r.push(RectModel { min: b0, max: b1, stroke_index: (n - 1) as usize }),
            None => r,
        }
    }
}

/// The views of a list of rectangles.
pub open spec fn rect_models(rs: Seq<DetectedRectangle>) -> Seq<RectModel> {
    rs.map_values(|r: DetectedRectangle| r@)
}

/// The views of a list of strokes.
pub open spec fn stroke_models(ss: Seq<Stroke>) -> Seq<StrokeModel> {
    ss.map_values(|s: Stroke| s@)
}

/// Builds the rectangle record of a detected bounding box.
fn make_rect(b0: ScreenCoord, b1: ScreenCoord, stroke_index: usize) -> (r: DetectedRectangle)
    ensures
        r@ == (RectModel { min: b0, max: b1, stroke_index }),
        corners_ok(r),
{
    DetectedRectangle {
        corners: [
            ScreenCoord { y: b0.y, x: b0.x },
            ScreenCoord { y: b0.y, x: b1.x },
            ScreenCoord { y: b1.y, x: b1.x },
            ScreenCoord { y: b1.y, x: b0.x },
        ],
        bbox_min: b0,
        bbox_max: b1,
        stroke_index,
    }
}

/// Detects the rectangles among the strokes, in stroke order.
pub fn detect_rectangles(strokes: &[Stroke], config: &SplitConfig) -> (r: Vec<DetectedRectangle>)
    requires
        forall|i: int| 0 <= i < strokes@.len() ==> stroke_fits(#[trigger] strokes@[i]@, config.min_height),
    ensures
        rect_models(r@) == detected(stroke_models(strokes@), config.min_height, strokes@.len()),
        forall|i: int| 0 <= i < r@.len() ==> corners_ok(#[trigger] r@[i]),
{
    let mut rects: Vec<DetectedRectangle> = Vec::new();
    let mut i: usize = 0;
    while i < strokes.len()
        invariant
            i <= strokes@.len(),
            forall|k: int| 0 <= k < strokes@.len() ==> stroke_fits(#[trigger] strokes@[k]@, config.min_height),
            rect_models(rects@) == detected(stroke_models(strokes@), config.min_height, i as nat),
            forall|k: int| 0 <= k < rects@.len() ==> corners_ok(#[trigger] rects@[k]),
        decreases strokes@.len() - i,
    {
        assert(stroke_models(strokes@)[i as int] == strokes@[i as int]@);
        if let Some((b0, b1)) = try_detect_rectangle(&strokes[i], config) {
            let ghost old_rects = rects@;
            rects.push(make_rect(b0, b1, i));
            assert(rect_models(rects@) =~= rect_models(old_rects).push(RectModel { min: b0, max: b1, stroke_index: i }));
        }
        i += 1;
    }
    rects
}

/// The centre of a rectangle, as `(x, y)` rounded toward zero.
pub open spec fn centre(r: RectModel) -> (int, int) {
    (tdiv(r.min.x + r.max.x, 2), tdiv(r.min.y + r.max.y, 2))
}

/// Whether the centre of `rs[i]` lies inside another rectangle of `rs`.
pub open spec fn nested(rs: Seq<RectModel>, i: int) -> bool {
    exists|j: int|
        0 <= j < rs.len() && j != i && #[trigger] in_box(centre(rs[i]).0, centre(rs[i]).1, rs[j].min, rs[j].max)
}

/// The rectangles among the first `k` of `rs` that are not nested in another.
pub open spec fn unnested(rs: Seq<RectModel>, k: nat) -> Seq<RectModel>
    decreases k,
{
    if k == 0 {
        Seq::empty()
    } else if nested(rs, k - 1) {
        unnested(rs, (k - 1) as nat)
    } else {
        unnested(rs, (k - 1) as nat).push(rs[k - 1])
    }
}

/// The coordinate sums that locate a rectangle's centre stay within `i32`.
pub open spec fn rect_fits(r: RectModel) -> bool {
    i32::MIN <= r.min.x + r.max.x <= i32::MAX && i32::MIN <= r.min.y + r.max.y <= i32::MAX
}

/// Centres of the rectangles stay within `i32`.
pub open spec fn centres_fit(rs: Seq<RectModel>) -> bool {
    forall|i: int| 0 <= i < rs.len() ==> rect_fits(#[trigger] rs[i])
}

/// Whether the centre of rectangle `i` lies inside another one.
fn is_nested(rects: &Vec<DetectedRectangle>, i: usize) -> (r: bool)
    requires
        i < rects@.len(),
        centres_fit(rect_models(rects@)),
    ensures
        r == nested(rect_models(rects@), i as int),
{
    let ghost rs = rect_models(rects@);
    assert(rs[i as int] == rects@[i as int]@);
    assert(rect_fits(rs[i as int]));
    let cx = (rects[i].bbox_min.x + rects[i].bbox_max.x) / 2;
    let cy = (rects[i].bbox_min.y + rects[i].bbox_max.y) / 2;
    let mut j: usize = 0;
    while j < rects.len()
        invariant
            j <= rects@.len(),
            rs == rect_models(rects@),
            cx == centre(rs[i as int]).0,
            cy == centre(rs[i as int]).1,
            forall|k: int| 0 <= k < j && k != i ==> !in_box(cx as int, cy as int, #[trigger] rs[k].min, rs[k].max),
        decreases rects@.len() - j,
    {
        assert(rs[j as int] == rects@[j as int]@);
        if j != i && point_in_bbox(cx, cy, &rects[j].bbox_min, &rects[j].bbox_max) {
            assert(in_box(centre(rs[i as int]).0, centre(rs[i as int]).1, rs[j as int].min, rs[j as int].max));
            return true;
        }
        j += 1;
    }
    false
}

/// Removes every rectangle whose centre lies inside another one.
pub fn resolve_nesting(rectangles: &mut Vec<DetectedRectangle>)
    requires
        centres_fit(rect_models(old(rectangles)@)),
    ensures
        rect_models(final(rectangles)@) == unnested(rect_models(old(rectangles)@), old(rectangles)@.len()),
        forall|i: int| 0 <= i < final(rectangles)@.len() ==> exists|j: int| 0 <= j < old(rectangles)@.len() && #[trigger] final(rectangles)@[i] == old(rectangles)@[j],
{
    let ghost rs = rect_models(rectangles@);
    let mut kept: Vec<DetectedRectangle> = Vec::new();
    let mut i: usize = 0;
    while i < rectangles.len()
        invariant
            i <= rectangles@.len(),
            rectangles@ == old(rectangles)@,
            rs == rect_models(rectangles@),
            centres_fit(rs),
            rect_models(kept@) == unnested(rs, i as nat),
            forall|a: int| 0 <= a < kept@.len() ==> exists|j: int| 0 <= j < rectangles@.len() && #[trigger] kept@[a] == rectangles@[j],
        decreases rectangles@.len() - i,
    {
        if !is_nested(rectangles, i) {
            let ghost old_kept = kept@;
            kept.push(rectangles[i]);
            assert(rs[i as int] == rectangles@[i as int]@);
            assert(rect_models(kept@) =~= rect_models(old_kept).push(rs[i as int]));
            assert(kept@[kept@.len() - 1] == rectangles@[i as int]);
        }
        i += 1;
    }
    *rectangles = kept;
}

/// `a` sorts no later than `b`: by centre row, then centre column.
pub open spec fn centre_le(a: RectModel, b: RectModel) -> bool {
    centre(a).1 < centre(b).1 || (centre(a).1 == centre(b).1 && centre(a).0 <= centre(b).0)
}

/// `s` with `x` inserted after every rectangle that sorts no later.
pub open spec fn insert_by_centre(s: Seq<RectModel>, x: RectModel) -> Seq<RectModel>
    decreases s.len(),
{
    if s.len() == 0 {
        seq![x]
    } else if centre_le(s.last(), x) {
        s.push(x)
    } else {
        insert_by_centre(s.drop_last(), x).push(s.last())
    }
}

/// The rectangles sorted top to bottom, then left to right, ties in order.
pub open spec fn sort_by_centre(s: Seq<RectModel>) -> Seq<RectModel>
    decreases s.len(),
{
    if s.len() == 0 {
        s
    } else {
        insert_by_centre(sort_by_centre(s.drop_last()), s.last())
    }
}

proof fn lemma_insert_centre_at(s: Seq<RectModel>, x: RectModel, j: int)
    requires
        0 <= j <= s.len(),
        j > 0 ==> centre_le(s[j - 1], x),
        forall|i: int| j <= i < s.len() ==> !centre_le(#[trigger] s[i], x),
    ensures
        insert_by_centre(s, x) == s.insert(j, x),
    decreases s.len(),
{
    if s.len() == 0 {
        assert(s.insert(j, x) =~= seq![x]);
    } else if centre_le(s.last(), x) {
        assert(j == s.len());
        assert(s.insert(j, x) =~= s.push(x));
    } else {
        lemma_insert_centre_at(s.drop_last(), x, j);
        assert(s.drop_last().insert(j, x).push(s.last()) =~= s.insert(j, x));
    }
}

fn centre_le_exec(a: &DetectedRectangle, b: &DetectedRectangle) -> (r: bool)
    requires
        rect_fits(a@),
        rect_fits(b@),
    ensures
        r == centre_le(a@, b@),
{
    let ay = (a.bbox_min.y + a.bbox_max.y) / 2;
    let by = (b.bbox_min.y + b.bbox_max.y) / 2;
    let ax = (a.bbox_min.x + a.bbox_max.x) / 2;
    let bx = (b.bbox_min.x + b.bbox_max.x) / 2;
    ay < by || (ay == by && ax <= bx)
}

/// Sorts the rectangles top to bottom, then left to right; stable.
fn sort_rectangles(rects: &Vec<DetectedRectangle>) -> (r: Vec<DetectedRectangle>)
    requires
        centres_fit(rect_models(rects@)),
    ensures
        rect_models(r@) == sort_by_centre(rect_models(rects@)),
        forall|i: int| 0 <= i < r@.len() ==> exists|j: int| 0 <= j < rects@.len() && #[trigger] r@[i] == rects@[j],
{
    let ghost rs = rect_models(rects@);
    let mut sorted: Vec<DetectedRectangle> = Vec::new();
    let mut i: usize = 0;
    while i < rects.len()
        invariant
            i <= rects@.len(),
            rs == rect_models(rects@),
            centres_fit(rs),
            rect_models(sorted@) == sort_by_centre(rs.take(i as int)),
            forall|a: int| 0 <= a < sorted@.len() ==> exists|j: int| 0 <= j < rects@.len() && #[trigger] sorted@[a] == rects@[j],
            forall|a: int| 0 <= a < sorted@.len() ==> rect_fits(#[trigger] sorted@[a]@),
        decreases rects@.len() - i,
    {
        let x = rects[i];
        assert(rs[i as int] == x@);
        assert(rect_fits(x@));
        assert(rs.take(i as int + 1).drop_last() =~= rs.take(i as int));
        let mut j = sorted.len();
        while j > 0 && !centre_le_exec(&sorted[j - 1], &x)
            invariant
                j <= sorted@.len(),
                forall|k: int| j <= k < sorted@.len() ==> !centre_le(#[trigger] sorted@[k]@, x@),
                forall|a: int| 0 <= a < sorted@.len() ==> exists|b: int| 0 <= b < rects@.len() && #[trigger] sorted@[a] == rects@[b],
                forall|a: int| 0 <= a < sorted@.len() ==> rect_fits(#[trigger] sorted@[a]@),
                rect_fits(x@),
                centres_fit(rs),
                rs == rect_models(rects@),
                x == rects@[i as int],
                i < rects@.len(),
            decreases j,
        {
            j -= 1;
        }
        proof {
            let ms = rect_models(sorted@);
            assert forall|k: int| j <= k < ms.len() implies !centre_le(#[trigger] ms[k], x@) by {
                assert(ms[k] == sorted@[k]@);
            }
            if j > 0 {
                assert(ms[j - 1] == sorted@[j - 1]@);
            }
            lemma_insert_centre_at(ms, x@, j as int);
        }
        let ghost old_sorted = sorted@;
        sorted.insert(j, x);
        assert(rect_models(sorted@) =~= rect_models(old_sorted).insert(j as int, x@));
        assert forall|a: int| 0 <= a < sorted@.len() implies exists|b: int| 0 <= b < rects@.len() && #[trigger] sorted@[a] == rects@[b] by {
            if a < j {
                assert(sorted@[a] == old_sorted[a]);
            } else if a == j {
                assert(sorted@[a] == rects@[i as int]);
            } else {
                assert(sorted@[a] == old_sorted[a - 1]);
            }
        }
        assert forall|a: int| 0 <= a < sorted@.len() implies rect_fits(#[trigger] sorted@[a]@) by {
            if a < j {
                assert(sorted@[a] == old_sorted[a]);
            } else if a > j {
                assert(sorted@[a] == old_sorted[a - 1]);
            }
        }
        i += 1;
    }
    assert(rs.take(i as int) =~= rs);
    sorted
}

/// Index of the first rectangle containing `(x, y)`.
pub open spec fn containing(rs: Seq<RectModel>, x: int, y: int) -> Option<usize>
    decreases rs.len(),
{
    if rs.len() == 0 {
        None
    } else {
        match containing(rs.drop_last(), x, y) {
            Some(i) => Some(i),
            None => if in_box(x, y, rs.last().min, rs.last().max) {
                Some((rs.len() - 1) as usize)
            } else {
                None
            },
        }
    }
}

proof fn lemma_containing_prefix(rs: Seq<RectModel>, x: int, y: int, n: int)
    requires
        0 <= n <= rs.len(),
        containing(rs.take(n), x, y) is Some,
    ensures
        containing(rs, x, y) == containing(rs.take(n), x, y),
    decreases rs.len(),
{
    if n == rs.len() {
        assert(rs.take(n) =~= rs);
    } else {
        assert(rs.drop_last().take(n) =~= rs.take(n));
        lemma_containing_prefix(rs.drop_last(), x, y, n);
    }
}

/// Finds the first rectangle that contains the given point.
pub fn find_containing_rectangle(rectangles: &[DetectedRectangle], x: i32, y: i32) -> (r: Option<usize>)
    ensures
        r == containing(rect_models(rectangles@), x as int, y as int),
{
    let ghost rs = rect_models(rectangles@);
    let mut i: usize = 0;
    while i < rectangles.len()
        invariant
            i <= rectangles@.len(),
            rs == rect_models(rectangles@),
            containing(rs.take(i as int), x as int, y as int) is None,
        decreases rectangles@.len() - i,
    {
        assert(rs.take(i as int + 1).drop_last() =~= rs.take(i as int));
        assert(rs[i as int] == rectangles@[i as int]@);
        if point_in_bbox(x, y, &rectangles[i].bbox_min, &rectangles[i].bbox_max) {
            proof {
                lemma_containing_prefix(rs, x as int, y as int, i as int + 1);
            }
            return Some(i);
        }
        i += 1;
    }
    assert(rs.take(i as int) =~= rs);
    None
}

/// Whether some rectangle was detected from stroke `i`.
pub open spec fn is_rect_stroke(rs: Seq<RectModel>, i: int) -> bool {
    exists|k: int| 0 <= k < rs.len() && #[trigger] rs[k].stroke_index == i
}

/// Where a stroke goes: nowhere for a rectangle stroke or a stroke
/// without points, else the first rectangle containing the centre of its
/// points' bounding box, else the main page.
pub open spec fn stroke_assignment(rs: Seq<RectModel>, s: StrokeModel, i: int) -> Option<usize> {
    if is_rect_stroke(rs, i) || s.points.len() == 0 {
        None
    } else {
        containing(
            rs,
            tdiv(min_x(s.points) + max_x(s.points), 2),
            tdiv(min_y(s.points) + max_y(s.points), 2),
        )
    }
}

/// The physical position of a text box's centre: pixel `x` is mirrored
/// and both axes scale by `phys / pixel_w`.
pub open spec fn textbox_centre(tb: TextBoxModel, phys_w: i64, phys_h: i64, pixel_w: u32) -> (int, int) {
    let pcx = tb.rect.0 + tdiv(tb.rect.2 as int, 2);
    let pcy = tb.rect.1 + tdiv(tb.rect.3 as int, 2);
    (phys_w - tdiv(pcx * phys_w, pixel_w as int), tdiv(pcy * phys_h, pixel_w as int))
}

/// Where a text box goes: the first rectangle containing its centre,
/// each coordinate cut to `i32`, else the main page.
pub open spec fn textbox_assignment(rs: Seq<RectModel>, tb: TextBoxModel, phys_w: i64, phys_h: i64, pixel_w: u32) -> Option<usize> {
    let (x, y) = textbox_centre(tb, phys_w, phys_h, pixel_w);
    containing(rs, (x as i32) as int, (y as i32) as int)
}

/// The arithmetic of a text box's centre stays within its integer types.
pub open spec fn textbox_fits(tb: TextBoxModel, phys_w: i64, phys_h: i64, pixel_w: u32) -> bool {
    let pcx = tb.rect.0 + tdiv(tb.rect.2 as int, 2);
    let pcy = tb.rect.1 + tdiv(tb.rect.3 as int, 2);
    &&& pcx <= u32::MAX && pcy <= u32::MAX
    &&& i64::MIN <= pcx * phys_w <= i64::MAX
    &&& i64::MIN <= pcy * phys_h <= i64::MAX
    &&& i64::MIN <= phys_w - tdiv(pcx * phys_w, pixel_w as int) <= i64::MAX
}

/// The rectangles of a page, top to bottom and left to right.
pub open spec fn page_rectangles(strokes: Seq<StrokeModel>, min_height: i32) -> Seq<RectModel> {
    let found = detected(strokes, min_height, strokes.len());
    sort_by_centre(unnested(found, found.len()))
}

/// Rounds toward zero as Rust's `/` does, for a positive divisor.
fn tdiv_i64(a: i64, b: i64) -> (q: i64)
    requires
        b > 0,
    ensures
        q == tdiv(a as int, b as int),
{
    if a >= 0 {
        a / b
    } else {
        let n: i128 = -(a as i128);
        let m: i128 = n / (b as i128);
        assert(0 <= m <= n) by (nonlinear_arith)
            requires
                n >= 0,
                b >= 1,
                m == (n as int) / (b as int),
        ;
        (-m) as i64
    }
}

/// Whether the arithmetic of rectangle detection stays within its integer
/// types for this stroke.
pub fn stroke_fits_exec(s: &Stroke, min_height: i32) -> (r: bool)
    ensures
        r == stroke_fits(s@, min_height),
{
    if s.points.len() == 0 {
        return true;
    }
    let (b0, b1) = bbox(&s.points);
    proof {
        lemma_bbox_bounds(s.points@);
    }
    let w = b1.x as i64 - b0.x as i64;
    let h = b1.y as i64 - b0.y as i64;
    let sx = b0.x as i64 + b1.x as i64;
    let sy = b0.y as i64 + b1.y as i64;
    if s.points.len() >= 20 && s.color != COLOR_ERASER && (w > i32::MAX as i64 || h > i32::MAX as i64) {
        return false;
    }
    if sx < i32::MIN as i64 || sx > i32::MAX as i64 || sy < i32::MIN as i64 || sy > i32::MAX as i64 {
        return false;
    }
    if s.points.len() >= 20 && s.color != COLOR_ERASER && h >= min_height as i64 && w >= (min_height / 2) as i64 {
        assert(0 <= w * w <= i32::MAX as int * i32::MAX as int) by (nonlinear_arith)
            requires
                0 <= w <= i32::MAX,
        ;
        assert(0 <= h * h <= i32::MAX as int * i32::MAX as int) by (nonlinear_arith)
            requires
                0 <= h <= i32::MAX,
        ;
        if w * w + h * h > i32::MAX as i64 {
            return false;
        }
    }
    true
}

/// Whether the centre arithmetic of this text box stays within its integer
/// types.
pub fn textbox_fits_exec(tb: &TextBox, phys_w: i64, phys_h: i64, pixel_w: u32) -> (r: bool)
    requires
        pixel_w > 0,
    ensures
        r == textbox_fits(tb@, phys_w, phys_h, pixel_w),
{
    let pcx = tb.rect.0 as u64 + (tb.rect.2 / 2) as u64;
    let pcy = tb.rect.1 as u64 + (tb.rect.3 / 2) as u64;
    if pcx > u32::MAX as u64 || pcy > u32::MAX as u64 {
        return false;
    }
    assert(-0x1_0000_0000 * 0x8000_0000_0000_0000 <= pcx * phys_w <= 0x1_0000_0000 * 0x8000_0000_0000_0000) by (nonlinear_arith)
        requires
            0 <= pcx <= u32::MAX,
            i64::MIN <= phys_w <= i64::MAX,
    ;
    assert(-0x1_0000_0000 * 0x8000_0000_0000_0000 <= pcy * phys_h <= 0x1_0000_0000 * 0x8000_0000_0000_0000) by (nonlinear_arith)
        requires
            0 <= pcy <= u32::MAX,
            i64::MIN <= phys_h <= i64::MAX,
    ;
    let x = (pcx as i128) * (phys_w as i128);
    let y = (pcy as i128) * (phys_h as i128);
    if x < i64::MIN as i128 || x > i64::MAX as i128 || y < i64::MIN as i128 || y > i64::MAX as i128 {
        return false;
    }
    let q = tdiv_i64(x as i64, pixel_w as i64);
    let cx = phys_w as i128 - q as i128;
    cx >= i64::MIN as i128 && cx <= i64::MAX as i128
}

/// Whether the arithmetic of [`split_page`] stays within its integer types
/// for these inputs; exactly what its `requires` asks.
pub fn split_inputs_fit(
    strokes: &[Stroke],
    textboxes: &[TextBox],
    phys_w: i64,
    phys_h: i64,
    pixel_w: u32,
    config: &SplitConfig,
) -> (r: bool)
    ensures
        r == ((forall|i: int| 0 <= i < strokes@.len() ==> stroke_fits(#[trigger] strokes@[i]@, config.min_height))
            && (textboxes@.len() > 0 ==> pixel_w > 0)
            && (forall|i: int| 0 <= i < textboxes@.len() ==> textbox_fits(#[trigger] textboxes@[i]@, phys_w, phys_h, pixel_w))),
{
    let mut i: usize = 0;
    while i < strokes.len()
        invariant
            i <= strokes@.len(),
            forall|k: int| 0 <= k < i ==> stroke_fits(#[trigger] strokes@[k]@, config.min_height),
        decreases strokes@.len() - i,
    {
        if !stroke_fits_exec(&strokes[i], config.min_height) {
            return false;
        }
        i += 1;
    }
    if textboxes.len() > 0 && pixel_w == 0 {
        return false;
    }
    let mut t: usize = 0;
    while t < textboxes.len()
        invariant
            t <= textboxes@.len(),
            textboxes@.len() > 0 ==> pixel_w > 0,
            forall|k: int| 0 <= k < t ==> textbox_fits(#[trigger] textboxes@[k]@, phys_w, phys_h, pixel_w),
        decreases textboxes@.len() - t,
    {
        if !textbox_fits_exec(&textboxes[t], phys_w, phys_h, pixel_w) {
            return false;
        }
        t += 1;
    }
    true
}

/// Detects the rectangles of a page and assigns each stroke and text box
/// to a rectangle or to the main page.
pub fn split_page(
    strokes: &[Stroke],
    textboxes: &[TextBox],
    phys_w: i64,
    phys_h: i64,
    pixel_w: u32,
    config: &SplitConfig,
) -> (r: SplitResult)
    requires
        forall|i: int| 0 <= i < strokes@.len() ==> stroke_fits(#[trigger] strokes@[i]@, config.min_height),
        textboxes@.len() > 0 ==> pixel_w > 0,
        forall|i: int| 0 <= i < textboxes@.len() ==> textbox_fits(#[trigger] textboxes@[i]@, phys_w, phys_h, pixel_w),
    ensures
        ({
            let rs = page_rectangles(stroke_models(strokes@), config.min_height);
            &&& rect_models(r.rectangles@) == rs
            &&& forall|i: int| 0 <= i < r.rectangles@.len() ==> corners_ok(#[trigger] r.rectangles@[i])
            &&& r.stroke_assignments@.len() == strokes@.len()
            &&& forall|i: int| 0 <= i < strokes@.len() ==> #[trigger] r.stroke_assignments@[i]
                == stroke_assignment(rs, strokes@[i]@, i)
            &&& r.textbox_assignments@.len() == textboxes@.len()
            &&& forall|i: int| 0 <= i < textboxes@.len() ==> #[trigger] r.textbox_assignments@[i]
                == textbox_assignment(rs, textboxes@[i]@, phys_w, phys_h, pixel_w)
        }),
{
    let mut rectangles = detect_rectangles(strokes, config);
    proof {
        let rs = rect_models(rectangles@);
        assert forall|k: int| 0 <= k < rs.len() implies i32::MIN <= #[trigger] rs[k].min.x + rs[k].max.x <= i32::MAX && i32::MIN
            <= rs[k].min.y + rs[k].max.y <= i32::MAX by {
            lemma_detected_fit(stroke_models(strokes@), config.min_height, strokes@.len(), k);
        }
    }
    let ghost found = rect_models(rectangles@);
    let ghost det = rectangles@;
    resolve_nesting(&mut rectangles);
    let ghost res = rectangles@;
    proof {
        lemma_unnested_sub(found, found.len());
        let rs = rect_models(rectangles@);
        assert forall|k: int| 0 <= k < rs.len() implies i32::MIN <= #[trigger] rs[k].min.x + rs[k].max.x <= i32::MAX && i32::MIN
            <= rs[k].min.y + rs[k].max.y <= i32::MAX by {
            let j = choose|j: int| 0 <= j < found.len() && unnested(found, found.len())[k] == found[j];
        }
    }
    let rectangles = sort_rectangles(&rectangles);
    let ghost rs = rect_models(rectangles@);
    assert forall|i: int| 0 <= i < rectangles@.len() implies corners_ok(#[trigger] rectangles@[i]) by {
        let j = choose|j: int| 0 <= j < res.len() && rectangles@[i] == res[j];
        let m = choose|m: int| 0 <= m < det.len() && res[j] == det[m];
        assert(corners_ok(det[m]));
    }
    let mut stroke_assignments: Vec<Option<usize>> = Vec::new();
    let mut i: usize = 0;
    while i < strokes.len()
        invariant
            i <= strokes@.len(),
            rs == rect_models(rectangles@),
            forall|k: int| 0 <= k < strokes@.len() ==> stroke_fits(#[trigger] strokes@[k]@, config.min_height),
            stroke_assignments@.len() == i,
            forall|k: int| 0 <= k < i ==> #[trigger] stroke_assignments@[k] == stroke_assignment(rs, strokes@[k]@, k),
        decreases strokes@.len() - i,
    {
        let s = &strokes[i];
        let mut is_rect = false;
        let mut k: usize = 0;
        while k < rectangles.len()
            invariant
                k <= rectangles@.len(),
                rs == rect_models(rectangles@),
                is_rect == exists|m: int| 0 <= m < k && #[trigger] rs[m].stroke_index == i,
            decreases rectangles@.len() - k,
        {
            assert(rs[k as int] == rectangles@[k as int]@);
            if rectangles[k].stroke_index == i {
                is_rect = true;
            }
            proof {
                if rs[k as int].stroke_index == i {
                    assert(exists|m: int| 0 <= m < k + 1 && #[trigger] rs[m].stroke_index == i);
                }
            }
            k += 1;
        }
        let a = if is_rect || s.points.len() == 0 {
            None
        } else {
            assert(stroke_fits(strokes@[i as int]@, config.min_height));
            let (b0, b1) = bbox(&s.points);
            let cx = (b0.x + b1.x) / 2;
            let cy = (b0.y + b1.y) / 2;
            find_containing_rectangle(rectangles.as_slice(), cx, cy)
        };
        stroke_assignments.push(a);
        i += 1;
    }
    let mut textbox_assignments: Vec<Option<usize>> = Vec::new();
    let mut t: usize = 0;
    while t < textboxes.len()
        invariant
            t <= textboxes@.len(),
            rs == rect_models(rectangles@),
            textboxes@.len() > 0 ==> pixel_w > 0,
            forall|k: int| 0 <= k < textboxes@.len() ==> textbox_fits(#[trigger] textboxes@[k]@, phys_w, phys_h, pixel_w),
            textbox_assignments@.len() == t,
            forall|k: int| 0 <= k < t ==> #[trigger] textbox_assignments@[k] == textbox_assignment(rs, textboxes@[k]@, phys_w, phys_h, pixel_w),
        decreases textboxes@.len() - t,
    {
        let tb = &textboxes[t];
        assert(textbox_fits(textboxes@[t as int]@, phys_w, phys_h, pixel_w));
        let pixel_cx = tb.rect.0 + tb.rect.2 / 2;
        let pixel_cy = tb.rect.1 + tb.rect.3 / 2;
        let phys_cx = phys_w - tdiv_i64(pixel_cx as i64 * phys_w, pixel_w as i64);
        let phys_cy = tdiv_i64(pixel_cy as i64 * phys_h, pixel_w as i64);
        let a = find_containing_rectangle(rectangles.as_slice(), phys_cx as i32, phys_cy as i32);
        textbox_assignments.push(a);
        t += 1;
    }
    SplitResult { rectangles, stroke_assignments, textbox_assignments }
}

proof fn lemma_detected_fit(strokes: Seq<StrokeModel>, min_height: i32, n: nat, k: int)
    requires
        n <= strokes.len(),
        forall|i: int| 0 <= i < strokes.len() ==> stroke_fits(#[trigger] strokes[i], min_height),
        0 <= k < detected(strokes, min_height, n).len(),
    ensures
        ({
            let r = detected(strokes, min_height, n)[k];
            &&& i32::MIN <= r.min.x + r.max.x <= i32::MAX
            &&& i32::MIN <= r.min.y + r.max.y <= i32::MAX
        }),
    decreases n,
{
    let prev = detected(strokes, min_height, (n - 1) as nat);
    if k < prev.len() {
        lemma_detected_fit(strokes, min_height, (n - 1) as nat, k);
    } else {
        let s = strokes[n - 1];
        assert(stroke_fits(s, min_height));
        lemma_bbox_bounds(s.points);
    }
}

proof fn lemma_unnested_sub(rs: Seq<RectModel>, k: nat)
    requires
        k <= rs.len(),
    ensures
        forall|i: int| 0 <= i < unnested(rs, k).len() ==> exists|j: int| 0 <= j < rs.len() && #[trigger] unnested(rs, k)[i] == rs[j],
    decreases k,
{
    if k > 0 {
        lemma_unnested_sub(rs, (k - 1) as nat);
        let prev = unnested(rs, (k - 1) as nat);
        assert forall|i: int| 0 <= i < unnested(rs, k).len() implies exists|j: int| 0 <= j < rs.len() && #[trigger] unnested(rs, k)[i] == rs[j] by {
            if i < prev.len() {
                assert(unnested(rs, k)[i] == prev[i]);
                let j = choose|j: int| 0 <= j < rs.len() && #[trigger] prev[i] == rs[j];
                assert(unnested(rs, k)[i] == rs[j]);
            } else {
                assert(unnested(rs, k)[i] == rs[k - 1]);
            }
        }
    }
}

/// Every kept rectangle is one of the first `k` that was not nested.
proof fn lemma_unnested_kept(rs: Seq<RectModel>, k: nat)
    requires
        k <= rs.len(),
    ensures
        forall|i: int| 0 <= i < unnested(rs, k).len() ==> exists|j: int|
            0 <= j < rs.len() && #[trigger] unnested(rs, k)[i] == rs[j] && !nested(rs, j),
    decreases k,
{
    if k > 0 {
        lemma_unnested_kept(rs, (k - 1) as nat);
        let prev = unnested(rs, (k - 1) as nat);
        assert forall|i: int| 0 <= i < unnested(rs, k).len() implies exists|j: int|
            0 <= j < rs.len() && #[trigger] unnested(rs, k)[i] == rs[j] && !nested(rs, j) by {
            if i < prev.len() {
                assert(unnested(rs, k)[i] == prev[i]);
                let j = choose|j: int| 0 <= j < rs.len() && #[trigger] prev[i] == rs[j] && !nested(rs, j);
                assert(unnested(rs, k)[i] == rs[j]);
            } else {
                assert(unnested(rs, k)[i] == rs[k - 1]);
            }
        }
    }
}

/// `rs` runs top to bottom, then left to right.
pub open spec fn centres_ascending(rs: Seq<RectModel>) -> bool {
    forall|i: int, j: int| 0 <= i < j < rs.len() ==> centre_le(#[trigger] rs[i], #[trigger] rs[j])
}

/// Inserting into an ordered list keeps it ordered, adds exactly `x`, and
/// brings in nothing but `x` and what was there.
proof fn lemma_insert_by_centre(s: Seq<RectModel>, x: RectModel)
    requires
        centres_ascending(s),
    ensures
        centres_ascending(insert_by_centre(s, x)),
        insert_by_centre(s, x).to_multiset() == s.to_multiset().insert(x),
        forall|i: int| 0 <= i < insert_by_centre(s, x).len() ==> #[trigger] insert_by_centre(s, x)[i] == x
            || s.contains(insert_by_centre(s, x)[i]),
    decreases s.len(),
{
    broadcast use vstd::seq_lib::to_multiset_build;
    let r = insert_by_centre(s, x);
    if s.len() == 0 {
        assert(seq![x] =~= Seq::<RectModel>::empty().push(x));
        assert(s =~= Seq::<RectModel>::empty());
    } else if centre_le(s.last(), x) {
        assert forall|i: int| 0 <= i < r.len() implies #[trigger] r[i] == x || s.contains(r[i]) by {
            if i < s.len() {
                assert(r[i] == s[i]);
            }
        }
        assert forall|i: int, j: int| 0 <= i < j < r.len() implies centre_le(#[trigger] r[i], #[trigger] r[j]) by {
            if j == s.len() {
                if i < s.len() - 1 {
                    assert(centre_le(s[i], s[s.len() - 1]));
                }
            } else {
                assert(r[i] == s[i] && r[j] == s[j]);
            }
        }
    } else {
        let d = s.drop_last();
        let last = s.last();
        assert forall|i: int, j: int| 0 <= i < j < d.len() implies centre_le(#[trigger] d[i], #[trigger] d[j]) by {
            assert(d[i] == s[i] && d[j] == s[j]);
        }
        lemma_insert_by_centre(d, x);
        let r1 = insert_by_centre(d, x);
        assert(d.push(last) =~= s);
        assert(r1.push(last).to_multiset() =~= s.to_multiset().insert(x));
        assert forall|i: int| 0 <= i < r1.len() implies centre_le(#[trigger] r1[i], last) by {
            if r1[i] != x {
                assert(d.contains(r1[i]));
                let k = choose|k: int| 0 <= k < d.len() && d[k] == r1[i];
                assert(s[k] == d[k]);
                assert(centre_le(s[k], s[s.len() - 1]));
            }
        }
        assert forall|i: int, j: int| 0 <= i < j < r.len() implies centre_le(#[trigger] r[i], #[trigger] r[j]) by {
            assert(r[i] == r1[i]);
            if j < r1.len() {
                assert(r[j] == r1[j]);
            }
        }
        assert forall|i: int| 0 <= i < r.len() implies #[trigger] r[i] == x || s.contains(r[i]) by {
            if i < r1.len() {
                assert(r[i] == r1[i]);
                if r1[i] != x {
                    let k = choose|k: int| 0 <= k < d.len() && d[k] == r1[i];
                    assert(s[k] == d[k]);
                }
            } else {
                assert(s[s.len() - 1] == last);
            }
        }
    }
}

/// Sorting rectangles by centre orders them top to bottom, then left to
/// right, and neither loses nor adds one.
pub proof fn law_sort_by_centre(s: Seq<RectModel>)
    ensures
        centres_ascending(sort_by_centre(s)),
        sort_by_centre(s).to_multiset() == s.to_multiset(),
        forall|i: int| 0 <= i < sort_by_centre(s).len() ==> s.contains(#[trigger] sort_by_centre(s)[i]),
    decreases s.len(),
{
    broadcast use vstd::seq_lib::to_multiset_build;
    if s.len() > 0 {
        let d = s.drop_last();
        law_sort_by_centre(d);
        lemma_insert_by_centre(sort_by_centre(d), s.last());
        assert(d.push(s.last()) =~= s);
        let r = sort_by_centre(s);
        assert forall|i: int| 0 <= i < r.len() implies s.contains(#[trigger] r[i]) by {
            if r[i] == s.last() {
                assert(s[s.len() - 1] == r[i]);
            } else {
                let r1 = sort_by_centre(d);
                let k = choose|k: int| 0 <= k < r1.len() && r1[k] == r[i];
                assert(d.contains(r1[k]));
                let m = choose|m: int| 0 <= m < d.len() && d[m] == r1[k];
                assert(s[m] == d[m]);
            }
        }
    }
}

/// Stroke indices increase along the list.
pub open spec fn index_increasing(rs: Seq<RectModel>) -> bool {
    forall|a: int, b: int| 0 <= a < b < rs.len() ==> #[trigger] rs[a].stroke_index < #[trigger] rs[b].stroke_index
}

/// Rectangles with the same centre keep the order of their strokes.
pub open spec fn ties_keep_index(rs: Seq<RectModel>) -> bool {
    forall|a: int, b: int|
        0 <= a < b < rs.len() && centre(#[trigger] rs[a]) == centre(#[trigger] rs[b]) ==> rs[a].stroke_index
            < rs[b].stroke_index
}

proof fn lemma_detected_order(strokes: Seq<StrokeModel>, min_height: i32, n: nat)
    requires
        n <= strokes.len(),
        strokes.len() <= usize::MAX,
    ensures
        index_increasing(detected(strokes, min_height, n)),
        forall|a: int| 0 <= a < detected(strokes, min_height, n).len() ==> #[trigger] detected(strokes, min_height, n)[a].stroke_index < n,
    decreases n,
{
    if n > 0 {
        lemma_detected_order(strokes, min_height, (n - 1) as nat);
        let r = detected(strokes, min_height, (n - 1) as nat);
        let r2 = detected(strokes, min_height, n);
        if r2.len() > r.len() {
            assert(r2[r.len() as int].stroke_index == n - 1);
            assert forall|a: int| 0 <= a < r2.len() implies #[trigger] r2[a].stroke_index < n by {
                if a < r.len() {
                    assert(r2[a] == r[a]);
                }
            }
            assert forall|a: int, b: int| 0 <= a < b < r2.len() implies #[trigger] r2[a].stroke_index < #[trigger] r2[b].stroke_index by {
                assert(r2[a] == r[a]);
                if b < r.len() {
                    assert(r2[b] == r[b]);
                }
            }
        }
    }
}

proof fn lemma_unnested_order(rs: Seq<RectModel>, k: nat)
    requires
        k <= rs.len(),
        index_increasing(rs),
    ensures
        index_increasing(unnested(rs, k)),
        forall|a: int| 0 <= a < unnested(rs, k).len() ==> exists|f: int| 0 <= f < k && #[trigger] unnested(rs, k)[a] == rs[f],
    decreases k,
{
    if k > 0 {
        lemma_unnested_order(rs, (k - 1) as nat);
        let prev = unnested(rs, (k - 1) as nat);
        let u = unnested(rs, k);
        if !nested(rs, k - 1) {
            assert forall|a: int| 0 <= a < u.len() implies exists|f: int| 0 <= f < k && #[trigger] u[a] == rs[f] by {
                if a < prev.len() {
                    assert(u[a] == prev[a]);
                    let f = choose|f: int| 0 <= f < k - 1 && #[trigger] prev[a] == rs[f];
                    assert(u[a] == rs[f]);
                } else {
                    assert(u[a] == rs[k - 1]);
                }
            }
            assert forall|a: int, b: int| 0 <= a < b < u.len() implies #[trigger] u[a].stroke_index < #[trigger] u[b].stroke_index by {
                assert(u[a] == prev[a]);
                let f = choose|f: int| 0 <= f < k - 1 && #[trigger] prev[a] == rs[f];
                if b < prev.len() {
                    assert(u[b] == prev[b]);
                } else {
                    assert(u[b] == rs[k - 1]);
                    assert(rs[f].stroke_index < rs[k - 1].stroke_index);
                }
            }
        } else {
            assert forall|a: int| 0 <= a < u.len() implies exists|f: int| 0 <= f < k && #[trigger] u[a] == rs[f] by {
                let f = choose|f: int| 0 <= f < k - 1 && #[trigger] prev[a] == rs[f];
            }
        }
    }
}

proof fn lemma_insert_ties(s: Seq<RectModel>, x: RectModel)
    requires
        centres_ascending(s),
        ties_keep_index(s),
        forall|a: int| 0 <= a < s.len() ==> #[trigger] s[a].stroke_index < x.stroke_index,
    ensures
        ties_keep_index(insert_by_centre(s, x)),
    decreases s.len(),
{
    let r = insert_by_centre(s, x);
    if s.len() == 0 {
    } else if centre_le(s.last(), x) {
        assert forall|a: int, b: int| 0 <= a < b < r.len() && centre(#[trigger] r[a]) == centre(#[trigger] r[b]) implies r[a].stroke_index < r[b].stroke_index by {
            assert(r[a] == s[a]);
            if b < s.len() {
                assert(r[b] == s[b]);
            }
        }
    } else {
        let d = s.drop_last();
        let last = s.last();
        assert forall|i: int, j: int| 0 <= i < j < d.len() implies centre_le(#[trigger] d[i], #[trigger] d[j]) by {
            assert(d[i] == s[i] && d[j] == s[j]);
        }
        assert forall|a: int, b: int| 0 <= a < b < d.len() && centre(#[trigger] d[a]) == centre(#[trigger] d[b]) implies d[a].stroke_index < d[b].stroke_index by {
            assert(d[a] == s[a] && d[b] == s[b]);
        }
        assert forall|a: int| 0 <= a < d.len() implies #[trigger] d[a].stroke_index < x.stroke_index by {
            assert(d[a] == s[a]);
        }
        lemma_insert_ties(d, x);
        lemma_insert_by_centre(d, x);
        let r1 = insert_by_centre(d, x);
        assert(r == r1.push(last));
        assert forall|a: int, b: int| 0 <= a < b < r.len() && centre(#[trigger] r[a]) == centre(#[trigger] r[b]) implies r[a].stroke_index < r[b].stroke_index by {
            assert(r[a] == r1[a]);
            if b < r1.len() {
                assert(r[b] == r1[b]);
            } else {
                assert(r[b] == last);
                if r1[a] == x {
                    assert(centre_le(last, x));
                } else {
                    assert(d.contains(r1[a]));
                    let k = choose|k: int| 0 <= k < d.len() && d[k] == r1[a];
                    assert(s[k] == d[k]);
                    assert(s[s.len() - 1] == last);
                }
            }
        }
    }
}

proof fn lemma_sort_ties(s: Seq<RectModel>)
    requires
        index_increasing(s),
    ensures
        ties_keep_index(sort_by_centre(s)),
    decreases s.len(),
{
    if s.len() > 0 {
        let d = s.drop_last();
        assert forall|a: int, b: int| 0 <= a < b < d.len() implies #[trigger] d[a].stroke_index < #[trigger] d[b].stroke_index by {
            assert(d[a] == s[a] && d[b] == s[b]);
        }
        lemma_sort_ties(d);
        law_sort_by_centre(d);
        let sd = sort_by_centre(d);
        assert forall|a: int| 0 <= a < sd.len() implies #[trigger] sd[a].stroke_index < s.last().stroke_index by {
            assert(d.contains(sd[a]));
            let k = choose|k: int| 0 <= k < d.len() && d[k] == sd[a];
            assert(s[k] == d[k]);
            assert(s[s.len() - 1] == s.last());
        }
        lemma_insert_ties(sd, s.last());
    }
}

/// Rectangles whose centres are the same point keep the order of their
/// strokes on the page, as a stable sort leaves them.
pub proof fn law_equal_centres_keep_stroke_order(strokes: Seq<StrokeModel>, min_height: i32, i: int, j: int)
    requires
        strokes.len() <= usize::MAX,
        0 <= i < j < page_rectangles(strokes, min_height).len(),
        ({
            let a = page_rectangles(strokes, min_height)[i];
            let b = page_rectangles(strokes, min_height)[j];
            &&& tdiv(a.min.y + a.max.y, 2) == tdiv(b.min.y + b.max.y, 2)
            &&& tdiv(a.min.x + a.max.x, 2) == tdiv(b.min.x + b.max.x, 2)
        }),
    ensures
        page_rectangles(strokes, min_height)[i].stroke_index < page_rectangles(strokes, min_height)[j].stroke_index,
{
    let found = detected(strokes, min_height, strokes.len());
    lemma_detected_order(strokes, min_height, strokes.len());
    lemma_unnested_order(found, found.len());
    lemma_sort_ties(unnested(found, found.len()));
    let rs = page_rectangles(strokes, min_height);
    assert(centre(rs[i]) == centre(rs[j]));
}

/// The rectangles of a page are ordered by the row of their centres, top
/// to bottom, and rectangles whose centres share a row by the column of
/// their centres, left to right (centres rounded toward zero, as Rust's
/// integer division does).
pub proof fn law_rectangles_top_to_bottom_then_left_to_right(strokes: Seq<StrokeModel>, min_height: i32, i: int, j: int)
    requires
        0 <= i < j < page_rectangles(strokes, min_height).len(),
    ensures
        ({
            let a = page_rectangles(strokes, min_height)[i];
            let b = page_rectangles(strokes, min_height)[j];
            let ay = tdiv(a.min.y + a.max.y, 2);
            let by = tdiv(b.min.y + b.max.y, 2);
            let ax = tdiv(a.min.x + a.max.x, 2);
            let bx = tdiv(b.min.x + b.max.x, 2);
            ay < by || (ay == by && ax <= bx)
        }),
{
    law_page_rectangles(strokes, min_height);
    let rs = page_rectangles(strokes, min_height);
    assert(centre_le(rs[i], rs[j]));
}

/// The rectangles of a page run top to bottom, then left to right, and
/// the centre of none of them lies inside a different one of them.
pub proof fn law_page_rectangles(strokes: Seq<StrokeModel>, min_height: i32)
    ensures
        centres_ascending(page_rectangles(strokes, min_height)),
        forall|i: int, j: int|
            0 <= i < page_rectangles(strokes, min_height).len()
                && 0 <= j < page_rectangles(strokes, min_height).len()
                && #[trigger] page_rectangles(strokes, min_height)[i]
                != #[trigger] page_rectangles(strokes, min_height)[j] ==> !in_box(
                centre(page_rectangles(strokes, min_height)[i]).0,
                centre(page_rectangles(strokes, min_height)[i]).1,
                page_rectangles(strokes, min_height)[j].min,
                page_rectangles(strokes, min_height)[j].max,
            ),
{
    let found = detected(strokes, min_height, strokes.len());
    let kept = unnested(found, found.len());
    let rs = page_rectangles(strokes, min_height);
    law_sort_by_centre(kept);
    lemma_unnested_kept(found, found.len());
    assert forall|i: int, j: int|
        0 <= i < rs.len() && 0 <= j < rs.len() && #[trigger] rs[i] != #[trigger] rs[j] implies !in_box(
        centre(rs[i]).0,
        centre(rs[i]).1,
        rs[j].min,
        rs[j].max,
    ) by {
        let a = choose|a: int| 0 <= a < kept.len() && kept[a] == rs[i];
        let b = choose|b: int| 0 <= b < kept.len() && kept[b] == rs[j];
        let fa = choose|f: int| 0 <= f < found.len() && #[trigger] kept[a] == found[f] && !nested(found, f);
        let fb = choose|f: int| 0 <= f < found.len() && #[trigger] kept[b] == found[f] && !nested(found, f);
        assert(fa != fb);
        if in_box(centre(found[fa]).0, centre(found[fa]).1, found[fb].min, found[fb].max) {
            assert(nested(found, fa));
        }
    }
}

/// The containing rectangle is the first one whose box holds the point;
/// none is found exactly when no box holds it.
pub proof fn law_first_containing(rs: Seq<RectModel>, x: int, y: int)
    requires
        rs.len() <= usize::MAX,
    ensures
        match containing(rs, x, y) {
            Some(j) => {
                &&& j < rs.len()
                &&& in_box(x, y, rs[j as int].min, rs[j as int].max)
                &&& forall|k: int| 0 <= k < j ==> !in_box(x, y, #[trigger] rs[k].min, rs[k].max)
            },
            None => forall|k: int| 0 <= k < rs.len() ==> !in_box(x, y, #[trigger] rs[k].min, rs[k].max),
        },
    decreases rs.len(),
{
    if rs.len() > 0 {
        let d = rs.drop_last();
        law_first_containing(d, x, y);
        match containing(d, x, y) {
            Some(j) => {
                assert(rs[j as int] == d[j as int]);
                assert forall|k: int| 0 <= k < j implies !in_box(x, y, #[trigger] rs[k].min, rs[k].max) by {
                    assert(rs[k] == d[k]);
                }
            },
            None => {
                assert forall|k: int| 0 <= k < rs.len() - 1 implies !in_box(x, y, #[trigger] rs[k].min, rs[k].max) by {
                    assert(rs[k] == d[k]);
                }
            },
        }
    }
}

/// A stroke drawn as a rectangle, or one without points, goes nowhere;
/// any other stroke goes to the first rectangle that holds the centre of
/// its points' bounding box, and to the main page when none does.
pub proof fn law_stroke_assignment(rs: Seq<RectModel>, s: StrokeModel, i: int)
    requires
        rs.len() <= usize::MAX,
    ensures
        is_rect_stroke(rs, i) || s.points.len() == 0 ==> stroke_assignment(rs, s, i) is None,
        !is_rect_stroke(rs, i) && s.points.len() > 0 ==> ({
            let x = tdiv(min_x(s.points) + max_x(s.points), 2);
            let y = tdiv(min_y(s.points) + max_y(s.points), 2);
            match stroke_assignment(rs, s, i) {
                Some(j) => {
                    &&& j < rs.len()
                    &&& in_box(x, y, rs[j as int].min, rs[j as int].max)
                    &&& forall|k: int| 0 <= k < j ==> !in_box(x, y, #[trigger] rs[k].min, rs[k].max)
                },
                None => forall|k: int| 0 <= k < rs.len() ==> !in_box(x, y, #[trigger] rs[k].min, rs[k].max),
            }
        }),
{
    law_first_containing(
        rs,
        tdiv(min_x(s.points) + max_x(s.points), 2),
        tdiv(min_y(s.points) + max_y(s.points), 2),
    );
}

/// The indices among the first `n` of `a` whose entry is `target`, in order.
pub open spec fn indices_with(a: Seq<Option<usize>>, target: Option<usize>, n: nat) -> Seq<usize>
    decreases n,
{
    if n == 0 {
        Seq::empty()
    } else if a[n - 1] == target {
        indices_with(a, target, (n - 1) as nat).push((n - 1) as usize)
    } else {
        indices_with(a, target, (n - 1) as nat)
    }
}

/// The indices whose assignment is `target`: `Some(i)` for the content of
/// rectangle `i`, `None` for the main page.
pub fn assigned_indices(assignments: &[Option<usize>], target: Option<usize>) -> (r: Vec<usize>)
    ensures
        r@ == indices_with(assignments@, target, assignments@.len()),
{
    let mut r: Vec<usize> = Vec::new();
    let mut i: usize = 0;
    while i < assignments.len()
        invariant
            i <= assignments@.len(),
            r@ == indices_with(assignments@, target, i as nat),
        decreases assignments@.len() - i,
    {
        if assignments[i] == target {
            r.push(i);
        }
        i += 1;
    }
    r
}

/// The strokes among the first `n` that the main page shows: assigned to
/// no rectangle and not drawn as a rectangle themselves.
pub open spec fn main_strokes_spec(a: Seq<Option<usize>>, rs: Seq<RectModel>, n: nat) -> Seq<usize>
    decreases n,
{
    if n == 0 {
        Seq::empty()
    } else if a[n - 1] is None && !is_rect_stroke(rs, n - 1) {
        main_strokes_spec(a, rs, (n - 1) as nat).push((n - 1) as usize)
    } else {
        main_strokes_spec(a, rs, (n - 1) as nat)
    }
}

/// The strokes that the main page of a split shows, in order.
pub fn main_page_strokes(result: &SplitResult) -> (r: Vec<usize>)
    ensures
        r@ == main_strokes_spec(
            result.stroke_assignments@,
            rect_models(result.rectangles@),
            result.stroke_assignments@.len(),
        ),
{
    let ghost rs = rect_models(result.rectangles@);
    let a = &result.stroke_assignments;
    let mut r: Vec<usize> = Vec::new();
    let mut i: usize = 0;
    while i < a.len()
        invariant
            i <= a@.len(),
            a@ == result.stroke_assignments@,
            rs == rect_models(result.rectangles@),
            r@ == main_strokes_spec(a@, rs, i as nat),
        decreases a@.len() - i,
    {
        if a[i].is_none() {
            let mut is_rect = false;
            let mut k: usize = 0;
            while k < result.rectangles.len()
                invariant
                    k <= result.rectangles@.len(),
                    rs == rect_models(result.rectangles@),
                    is_rect == exists|m: int| 0 <= m < k && #[trigger] rs[m].stroke_index == i,
                decreases result.rectangles@.len() - k,
            {
                assert(rs[k as int] == result.rectangles@[k as int]@);
                if result.rectangles[k].stroke_index == i {
                    is_rect = true;
                }
                proof {
                    if rs[k as int].stroke_index == i {
                        assert(exists|m: int| 0 <= m < k + 1 && #[trigger] rs[m].stroke_index == i);
                    }
                }
                k += 1;
            }
            if !is_rect {
                r.push(i);
            }
        }
        i += 1;
    }
    r
}

proof fn lemma_indices_with(a: Seq<Option<usize>>, t: Option<usize>, n: nat)
    requires
        n <= a.len(),
        a.len() <= usize::MAX,
    ensures
        forall|k: int| 0 <= k < indices_with(a, t, n).len() ==> #[trigger] indices_with(a, t, n)[k] < n,
        forall|i: int| 0 <= i < n ==> (indices_with(a, t, n).contains(i as usize) <==> #[trigger] a[i] == t),
    decreases n,
{
    if n > 0 {
        lemma_indices_with(a, t, (n - 1) as nat);
        let prev = indices_with(a, t, (n - 1) as nat);
        let cur = indices_with(a, t, n);
        assert forall|i: int| 0 <= i < n implies (cur.contains(i as usize) <==> #[trigger] a[i] == t) by {
            if i < n - 1 {
                if cur.contains(i as usize) {
                    let k = choose|k: int| 0 <= k < cur.len() && cur[k] == i as usize;
                    if k < prev.len() {
                        assert(cur[k] == prev[k]);
                    }
                }
                if prev.contains(i as usize) {
                    let k = choose|k: int| 0 <= k < prev.len() && prev[k] == i as usize;
                    assert(cur[k] == prev[k]);
                }
            } else {
                if a[i] == t {
                    assert(cur[prev.len() as int] == i as usize);
                } else if cur.contains(i as usize) {
                    let k = choose|k: int| 0 <= k < cur.len() && cur[k] == i as usize;
                    assert(cur[k] == prev[k]);
                }
            }
        }
    }
}

proof fn lemma_main_strokes(a: Seq<Option<usize>>, rs: Seq<RectModel>, n: nat)
    requires
        n <= a.len(),
        a.len() <= usize::MAX,
    ensures
        forall|k: int| 0 <= k < main_strokes_spec(a, rs, n).len() ==> #[trigger] main_strokes_spec(a, rs, n)[k] < n,
        forall|i: int| 0 <= i < n ==> (main_strokes_spec(a, rs, n).contains(i as usize) <==> (#[trigger] a[i] is None
            && !is_rect_stroke(rs, i))),
    decreases n,
{
    if n > 0 {
        lemma_main_strokes(a, rs, (n - 1) as nat);
        let prev = main_strokes_spec(a, rs, (n - 1) as nat);
        let cur = main_strokes_spec(a, rs, n);
        assert forall|i: int| 0 <= i < n implies (cur.contains(i as usize) <==> (#[trigger] a[i] is None
            && !is_rect_stroke(rs, i))) by {
            if i < n - 1 {
                if cur.contains(i as usize) {
                    let k = choose|k: int| 0 <= k < cur.len() && cur[k] == i as usize;
                    if k < prev.len() {
                        assert(cur[k] == prev[k]);
                    }
                }
                if prev.contains(i as usize) {
                    let k = choose|k: int| 0 <= k < prev.len() && prev[k] == i as usize;
                    assert(cur[k] == prev[k]);
                }
            } else {
                if a[i] is None && !is_rect_stroke(rs, i) {
                    assert(cur[prev.len() as int] == i as usize);
                } else if cur.contains(i as usize) {
                    let k = choose|k: int| 0 <= k < cur.len() && cur[k] == i as usize;
                    assert(cur[k] == prev[k]);
                }
            }
        }
    }
}

/// Every stroke of a split page ends up in exactly one place: the main
/// page lists it when it is in no rectangle and is not a rectangle
/// itself, rectangle `j` lists it when it is assigned there, and a stroke
/// drawn as a rectangle is listed nowhere.
pub proof fn law_split_places_each_stroke_once(
    strokes: Seq<StrokeModel>,
    min_height: i32,
    a: Seq<Option<usize>>,
    i: int,
    j: usize,
)
    requires
        a.len() == strokes.len(),
        a.len() <= usize::MAX,
        page_rectangles(strokes, min_height).len() <= usize::MAX,
        forall|k: int| 0 <= k < a.len() ==> #[trigger] a[k] == stroke_assignment(
            page_rectangles(strokes, min_height),
            strokes[k],
            k,
        ),
        0 <= i < a.len(),
    ensures
        ({
            let rs = page_rectangles(strokes, min_height);
            &&& main_strokes_spec(a, rs, a.len()).contains(i as usize) <==> (a[i] is None
                && !is_rect_stroke(rs, i))
            &&& indices_with(a, Some(j), a.len()).contains(i as usize) <==> a[i] == Some(j)
            &&& is_rect_stroke(rs, i) ==> !main_strokes_spec(a, rs, a.len()).contains(i as usize)
                && !indices_with(a, Some(j), a.len()).contains(i as usize)
        }),
{
    let rs = page_rectangles(strokes, min_height);
    lemma_main_strokes(a, rs, a.len());
    lemma_indices_with(a, Some(j), a.len());
    law_stroke_assignment(rs, strokes[i], i);
    assert(a[i] == stroke_assignment(rs, strokes[i], i));
}

} // verus!
