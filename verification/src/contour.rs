use vstd::prelude::*;

verus! {

/// Horizontal step of each of the eight Moore directions, clockwise from north.
const DX: [i32; 8] = [0, 1, 1, 1, 0, -1, -1, -1];

/// Vertical step of each of the eight Moore directions (image rows grow downwards).
const DY: [i32; 8] = [-1, -1, 0, 1, 1, 1, 0, -1];

/// Most points a simplified bubble outline keeps.
pub const MAX_PATH_POINTS: usize = 512;

/// A pixel position on the model output grid.
#[derive(Debug, Clone, Copy, PartialEq, Eq, Structural)]
pub struct IntPoint {
    pub x: i32,
    pub y: i32,
}

/// Horizontal step of direction `d` (0 = north, counted clockwise).
pub open spec fn dir_dx(d: int) -> int {
    if d == 1 || d == 2 || d == 3 {
        1
    } else if d == 5 || d == 6 || d == 7 {
        -1
    } else {
        0
    }
}

/// Vertical step of direction `d` (0 = north, counted clockwise).
pub open spec fn dir_dy(d: int) -> int {
    if d == 0 || d == 1 || d == 7 {
        -1
    } else if d == 3 || d == 4 || d == 5 {
        1
    } else {
        0
    }
}

/// The direction whose step is `(dx, dy)`; 6 (west) when no direction has that step.
pub open spec fn spec_direction_index(dx: int, dy: int) -> int {
    if dx == 0 && dy == -1 {
        0
    } else if dx == 1 && dy == -1 {
        1
    } else if dx == 1 && dy == 0 {
        2
    } else if dx == 1 && dy == 1 {
        3
    } else if dx == 0 && dy == 1 {
        4
    } else if dx == -1 && dy == 1 {
        5
    } else if dx == -1 && dy == -1 {
        7
    } else {
        6
    }
}

/// Whether `(x, y)` lies inside the `width` x `height` grid and is set in `component`
/// (stored row by row).
pub open spec fn is_foreground(component: Seq<u8>, width: int, height: int, x: int, y: int) -> bool {
    &&& 0 <= x < width
    &&& 0 <= y < height
    &&& component[y * width + x] != 0
}

/// The first direction, scanning clockwise from `back_dir + step` up to `back_dir + 8`,
/// that leads from `(x, y)` to a foreground pixel.
pub open spec fn first_foreground_dir(
    component: Seq<u8>,
    width: int,
    height: int,
    x: int,
    y: int,
    back_dir: int,
    step: int,
) -> Option<int>
    decreases 9 - step,
{
    if step < 1 || step > 8 {
        None
    } else {
        let dir = (back_dir + step) % 8;
        if is_foreground(component, width, height, x + dir_dx(dir), y + dir_dy(dir)) {
            Some(dir)
        } else {
            first_foreground_dir(component, width, height, x, y, back_dir, step + 1)
        }
    }
}

/// A tracer state: current pixel `(x, y)` and the backtrack pixel `(back_x, back_y)`.
pub type TraceState = (int, int, int, int);

/// One step of Moore neighbour tracing: scan clockwise from the backtrack pixel for the
/// next foreground neighbour, move there, and take the last pixel checked before it as the
/// new backtrack pixel. `None` when the current pixel has no foreground neighbour.
pub open spec fn trace_step(component: Seq<u8>, width: int, height: int, s: TraceState) -> Option<
    TraceState,
> {
    let back_dir = spec_direction_index(s.2 - s.0, s.3 - s.1);
    match first_foreground_dir(component, width, height, s.0, s.1, back_dir, 1) {
        Some(dir) => {
            let prev = (dir + 7) % 8;
            Some((s.0 + dir_dx(dir), s.1 + dir_dy(dir), s.0 + dir_dx(prev), s.1 + dir_dy(prev)))
        },
        None => None,
    }
}

/// The tracer state after `k` steps from `s0` (`None` once a step found no neighbour).
pub open spec fn trace_state(
    component: Seq<u8>,
    width: int,
    height: int,
    s0: TraceState,
    k: nat,
) -> Option<TraceState>
    decreases k,
{
    if k == 0 {
        Some(s0)
    } else {
        match trace_state(component, width, height, s0, (k - 1) as nat) {
            Some(s) => trace_step(component, width, height, s),
            None => None,
        }
    }
}

/// The smallest of the first `n` entries of `q`.
pub open spec fn prefix_min(q: Seq<usize>, n: int) -> int
    decreases n,
{
    if n <= 1 {
        q[0] as int
    } else {
        let m = prefix_min(q, n - 1);
        if (q[n - 1] as int) < m {
            q[n - 1] as int
        } else {
            m
        }
    }
}

/// The tracer's initial state: the topmost, then leftmost, pixel among the first `count`
/// queued indices, entered from its western neighbour.
pub open spec fn trace_start(queue: Seq<usize>, count: int, width: int) -> TraceState {
    let m = prefix_min(queue, count);
    (m % width, m / width, m % width - 1, m / width)
}

/// Upper bound on the number of tracing steps for a component of `count` pixels.
pub open spec fn max_trace_steps(count: int) -> int {
    if count * 8 > 8 {
        count * 8
    } else {
        8
    }
}

/// Whether `p` is the pixel of tracer state `s`.
pub open spec fn at_state(p: IntPoint, s: TraceState) -> bool {
    p.x as int == s.0 && p.y as int == s.1
}

/// Whether two pixels are distinct and touch, sides or corners.
pub open spec fn eight_adjacent(a: IntPoint, b: IntPoint) -> bool {
    &&& a != b
    &&& -1 <= b.x - a.x <= 1
    &&& -1 <= b.y - a.y <= 1
}

/// Whether, after `k >= 1` steps from `s0`, the tracer is back on the start pixel and about
/// to make its first move again: one traversal of the boundary is then complete.
pub open spec fn closes_at(component: Seq<u8>, width: int, height: int, s0: TraceState, k: nat) -> bool {
    &&& k >= 1
    &&& trace_state(component, width, height, s0, k) matches Some(s) && s.0 == s0.0 && s.1 == s0.1
    &&& trace_state(component, width, height, s0, k + 1) matches Some(t)
        && trace_state(component, width, height, s0, 1) matches Some(f) && t.0 == f.0 && t.1 == f.1
}

/// What the traced contour of the first `count` queued pixels is: the pixels of the tracer
/// states from the start state on, once around the boundary, stopping after
/// `max_trace_steps(count)` states, after a state from which no neighbour is found, or
/// before the tracer is back on the start pixel about to repeat its first move.
pub open spec fn is_traced_contour(
    contour: Seq<IntPoint>,
    component: Seq<u8>,
    queue: Seq<usize>,
    count: int,
    width: int,
    height: int,
) -> bool {
    let s0 = trace_start(queue, count, width);
    let n = contour.len() as int;
    &&& 1 <= n <= max_trace_steps(count)
    &&& forall|k: int|
        0 <= k < n ==> {
            &&& #[trigger] trace_state(component, width, height, s0, k as nat) is Some
            &&& at_state(contour[k], trace_state(component, width, height, s0, k as nat)->0)
        }
    &&& forall|k: int| 1 <= k < n ==> !#[trigger] closes_at(component, width, height, s0, k as nat)
    &&& n == max_trace_steps(count) || trace_state(component, width, height, s0, n as nat) is None
        || closes_at(component, width, height, s0, n as nat)
}

proof fn lemma_row_major_order(a: int, b: int, w: int)
    requires
        0 <= a,
        0 <= b,
        0 < w,
    ensures
        (a / w < b / w || (a / w == b / w && a % w < b % w)) <==> a < b,
{
    vstd::arithmetic::div_mod::lemma_fundamental_div_mod(a, w);
    vstd::arithmetic::div_mod::lemma_fundamental_div_mod(b, w);
    let qa = a / w;
    let qb = b / w;
    let ra = a % w;
    let rb = b % w;
    assert(0 <= ra < w && 0 <= rb < w);
    if qa < qb {
        assert(w * qa + w <= w * qb) by (nonlinear_arith)
            requires
                qa < qb,
                0 < w,
        ;
    } else if qb < qa {
        assert(w * qb + w <= w * qa) by (nonlinear_arith)
            requires
                qb < qa,
                0 < w,
        ;
    }
}

proof fn lemma_cell_index(x: int, y: int, w: int, h: int)
    requires
        0 <= x < w,
        0 <= y < h,
    ensures
        0 <= y * w + x < w * h,
        (y * w + x) / w == y,
        (y * w + x) % w == x,
{
    assert(y * w + x < w * h) by (nonlinear_arith)
        requires
            0 <= x < w,
            0 <= y < h,
    ;
    assert(0 <= y * w) by (nonlinear_arith)
        requires
            0 <= y,
            0 < w,
    ;
    vstd::arithmetic::div_mod::lemma_fundamental_div_mod_converse(y * w + x, w, y, x);
}

proof fn lemma_index_cell(i: int, w: int, h: int)
    requires
        0 <= i < w * h,
        0 < w,
    ensures
        0 <= i % w < w,
        0 <= i / w < h,
{
    vstd::arithmetic::div_mod::lemma_fundamental_div_mod(i, w);
    if i / w >= h {
        assert(w * (i / w) >= w * h) by (nonlinear_arith)
            requires
                i / w >= h,
                0 < w,
        ;
    }
    vstd::arithmetic::div_mod::lemma_div_pos_is_pos(i, w);
}

proof fn lemma_prefix_min_bounds(q: Seq<usize>, n: int, bound: int)
    requires
        1 <= n <= q.len(),
        forall|i: int| 0 <= i < n ==> (q[i] as int) < bound,
    ensures
        0 <= prefix_min(q, n) < bound,
    decreases n,
{
    if n > 1 {
        lemma_prefix_min_bounds(q, n - 1, bound);
    }
}

proof fn lemma_first_dir_found(
    c: Seq<u8>,
    w: int,
    h: int,
    x: int,
    y: int,
    back_dir: int,
    step: int,
)
    requires
        0 <= back_dir,
        first_foreground_dir(c, w, h, x, y, back_dir, step) is Some,
    ensures
        ({
            let d = first_foreground_dir(c, w, h, x, y, back_dir, step)->0;
            0 <= d < 8 && is_foreground(c, w, h, x + dir_dx(d), y + dir_dy(d))
        }),
    decreases 9 - step,
{
    if 1 <= step <= 8 {
        let dir = (back_dir + step) % 8;
        if !is_foreground(c, w, h, x + dir_dx(dir), y + dir_dy(dir)) {
            lemma_first_dir_found(c, w, h, x, y, back_dir, step + 1);
        }
    }
}

/// Whether the `i`-th neighbour of `(x, y)` clockwise after direction `d` is a foreground pixel.
pub open spec fn clockwise_foreground(
    component: Seq<u8>,
    width: int,
    height: int,
    x: int,
    y: int,
    d: int,
    i: int,
) -> bool {
    let dir = (d + i) % 8;
    is_foreground(component, width, height, x + dir_dx(dir), y + dir_dy(dir))
}

/// Whether some neighbour of `(x, y)`, sides or corners, is not a foreground pixel (outside
/// the grid counts as background): `(x, y)` lies on the boundary of the foreground.
pub open spec fn on_boundary(component: Seq<u8>, width: int, height: int, x: int, y: int) -> bool {
    exists|bx: int, by: int|
        -1 <= bx - x <= 1 && -1 <= by - y <= 1 && (bx != x || by != y) && !#[trigger] is_foreground(
            component,
            width,
            height,
            bx,
            by,
        )
}

/// What a Moore tracing step from state `s` does, its backtrack pixel lying in direction `d`
/// from its pixel: it moves to the first foreground neighbour clockwise after the backtrack
/// pixel, passing over background neighbours only, and takes the last neighbour it passed
/// over as its new backtrack pixel; when every neighbour is background it stops (`None`).
pub open spec fn is_moore_step(
    component: Seq<u8>,
    width: int,
    height: int,
    s: TraceState,
    d: int,
    next: Option<TraceState>,
) -> bool {
    match next {
        None => forall|i: int|
            1 <= i <= 8 ==> !#[trigger] clockwise_foreground(component, width, height, s.0, s.1, d, i),
        Some(t) => exists|j: int|
            {
                &&& 1 <= j <= 8
                &&& #[trigger] clockwise_foreground(component, width, height, s.0, s.1, d, j)
                &&& t.0 == s.0 + dir_dx((d + j) % 8)
                &&& t.1 == s.1 + dir_dy((d + j) % 8)
                &&& t.2 == s.0 + dir_dx((d + j - 1) % 8)
                &&& t.3 == s.1 + dir_dy((d + j - 1) % 8)
                &&& forall|i: int|
                    1 <= i < j ==> !#[trigger] clockwise_foreground(component, width, height, s.0, s.1, d, i)
            },
    }
}

/// What holds of every state Moore tracing reaches, and of its step: the pixel is in the
/// foreground, the backtrack pixel is a background neighbour of it in direction
/// `spec_direction_index` gives, and the step to `next` is a Moore step from there.
pub open spec fn traces_boundary(
    component: Seq<u8>,
    width: int,
    height: int,
    s: TraceState,
    next: Option<TraceState>,
) -> bool {
    let d = spec_direction_index(s.2 - s.0, s.3 - s.1);
    &&& is_foreground(component, width, height, s.0, s.1)
    &&& 0 <= d < 8
    &&& s.2 == s.0 + dir_dx(d)
    &&& s.3 == s.1 + dir_dy(d)
    &&& !is_foreground(component, width, height, s.2, s.3)
    &&& is_moore_step(component, width, height, s, d, next)
}

/// The invariant of a tracer state: a foreground pixel with a background neighbour as its
/// backtrack pixel.
spec fn state_ok(component: Seq<u8>, width: int, height: int, s: TraceState) -> bool {
    &&& is_foreground(component, width, height, s.0, s.1)
    &&& -1 <= s.2 - s.0 <= 1
    &&& -1 <= s.3 - s.1 <= 1
    &&& (s.2 != s.0 || s.3 != s.1)
    &&& !is_foreground(component, width, height, s.2, s.3)
}

proof fn lemma_direction_inverse(dx: int, dy: int)
    requires
        -1 <= dx <= 1,
        -1 <= dy <= 1,
        dx != 0 || dy != 0,
    ensures
        0 <= spec_direction_index(dx, dy) < 8,
        dir_dx(spec_direction_index(dx, dy)) == dx,
        dir_dy(spec_direction_index(dx, dy)) == dy,
{
}

proof fn lemma_preceding_dir(d: int)
    requires
        0 <= d < 8,
    ensures
        ({
            let p = (d + 7) % 8;
            &&& 0 <= p < 8
            &&& -1 <= dir_dx(p) - dir_dx(d) <= 1
            &&& -1 <= dir_dy(p) - dir_dy(d) <= 1
            &&& (dir_dx(p) != dir_dx(d) || dir_dy(p) != dir_dy(d))
        }),
{
    if d == 0 {
        assert((d + 7) % 8 == 7);
    } else {
        assert((d + 7) % 8 == d - 1);
    }
}

proof fn lemma_scan_found(c: Seq<u8>, w: int, h: int, x: int, y: int, bd: int, step: int) -> (j: int)
    requires
        1 <= step,
        first_foreground_dir(c, w, h, x, y, bd, step) is Some,
    ensures
        step <= j <= 8,
        first_foreground_dir(c, w, h, x, y, bd, step)->0 == (bd + j) % 8,
        clockwise_foreground(c, w, h, x, y, bd, j),
        forall|i: int| step <= i < j ==> !#[trigger] clockwise_foreground(c, w, h, x, y, bd, i),
    decreases 9 - step,
{
    let dir = (bd + step) % 8;
    if is_foreground(c, w, h, x + dir_dx(dir), y + dir_dy(dir)) {
        step
    } else {
        lemma_scan_found(c, w, h, x, y, bd, step + 1)
    }
}

proof fn lemma_scan_none(c: Seq<u8>, w: int, h: int, x: int, y: int, bd: int, step: int)
    requires
        1 <= step,
        first_foreground_dir(c, w, h, x, y, bd, step) is None,
    ensures
        forall|i: int| step <= i <= 8 ==> !#[trigger] clockwise_foreground(c, w, h, x, y, bd, i),
    decreases 9 - step,
{
    if step <= 8 {
        lemma_scan_none(c, w, h, x, y, bd, step + 1);
    }
}

/// From a state that satisfies the invariant, the step is a Moore step, and the state it
/// reaches satisfies the invariant too.
proof fn lemma_step_ok(c: Seq<u8>, w: int, h: int, s: TraceState)
    requires
        state_ok(c, w, h, s),
    ensures
        traces_boundary(c, w, h, s, trace_step(c, w, h, s)),
        trace_step(c, w, h, s) matches Some(t) ==> state_ok(c, w, h, t),
{
    let bd = spec_direction_index(s.2 - s.0, s.3 - s.1);
    lemma_direction_inverse(s.2 - s.0, s.3 - s.1);
    match first_foreground_dir(c, w, h, s.0, s.1, bd, 1) {
        Some(dir) => {
            let j = lemma_scan_found(c, w, h, s.0, s.1, bd, 1);
            let t = trace_step(c, w, h, s)->0;
            let p = (dir + 7) % 8;
            assert(p == (bd + j - 1) % 8);
            lemma_preceding_dir(dir);
            if j > 1 {
                assert(!clockwise_foreground(c, w, h, s.0, s.1, bd, j - 1));
            } else {
                assert((bd + j - 1) % 8 == bd);
            }
            assert(is_moore_step(c, w, h, s, bd, Some(t)));
        },
        None => {
            lemma_scan_none(c, w, h, s.0, s.1, bd, 1);
        },
    }
}

proof fn lemma_trace_states_ok(c: Seq<u8>, w: int, h: int, s0: TraceState, k: nat)
    requires
        state_ok(c, w, h, s0),
    ensures
        trace_state(c, w, h, s0, k) matches Some(s) ==> state_ok(c, w, h, s),
    decreases k,
{
    if k > 0 {
        lemma_trace_states_ok(c, w, h, s0, (k - 1) as nat);
        if let Some(s) = trace_state(c, w, h, s0, (k - 1) as nat) {
            lemma_step_ok(c, w, h, s);
        }
    }
}

proof fn lemma_start_ok(component: Seq<u8>, width: int, height: int, queue: Seq<usize>, count: int)
    requires
        0 < width,
        1 <= count <= queue.len(),
        forall|i: int| 0 <= i < count ==> (#[trigger] queue[i] as int) < width * height,
        component[prefix_min(queue, count)] != 0,
        forall|b: int| 0 <= b < prefix_min(queue, count) ==> component[b] == 0,
    ensures
        state_ok(component, width, height, trace_start(queue, count, width)),
{
    let m = prefix_min(queue, count);
    lemma_prefix_min_bounds(queue, count, width * height);
    lemma_index_cell(m, width, height);
    vstd::arithmetic::div_mod::lemma_fundamental_div_mod(m, width);
    assert((m / width) * width + m % width == m) by (nonlinear_arith)
        requires
            m == width * (m / width) + m % width,
    ;
    if m % width > 0 {
        assert((m / width) * width + (m % width - 1) == m - 1);
        assert(component[m - 1] == 0);
    }
}

/// Moore tracing from a component's first pixel in row-major order, entered from the west,
/// hugs the boundary: in every state it reaches, its pixel is in the foreground and its
/// backtrack pixel is a background neighbour of it, and each step moves to the first
/// foreground neighbour clockwise after the backtrack pixel (see [`traces_boundary`]).
pub proof fn lemma_moore_trace(
    component: Seq<u8>,
    width: int,
    height: int,
    queue: Seq<usize>,
    count: int,
    k: nat,
)
    requires
        0 < width,
        1 <= count <= queue.len(),
        forall|i: int| 0 <= i < count ==> (#[trigger] queue[i] as int) < width * height,
        component[prefix_min(queue, count)] != 0,
        forall|b: int| 0 <= b < prefix_min(queue, count) ==> component[b] == 0,
    ensures
        trace_state(component, width, height, trace_start(queue, count, width), k) is Some
            ==> traces_boundary(
            component,
            width,
            height,
            trace_state(component, width, height, trace_start(queue, count, width), k)->0,
            trace_state(component, width, height, trace_start(queue, count, width), k + 1),
        ),
{
    let s0 = trace_start(queue, count, width);
    lemma_start_ok(component, width, height, queue, count);
    lemma_trace_states_ok(component, width, height, s0, k);
    if let Some(s) = trace_state(component, width, height, s0, k) {
        lemma_step_ok(component, width, height, s);
    }
}

/// Every point of a contour traced from a component's first pixel in row-major order is a
/// foreground pixel on the boundary of the foreground: one of its neighbours, sides or
/// corners, is background or outside the grid.
pub proof fn lemma_contour_on_boundary(
    contour: Seq<IntPoint>,
    component: Seq<u8>,
    queue: Seq<usize>,
    count: int,
    width: int,
    height: int,
)
    requires
        is_traced_contour(contour, component, queue, count, width, height),
        0 < width,
        1 <= count <= queue.len(),
        forall|i: int| 0 <= i < count ==> (#[trigger] queue[i] as int) < width * height,
        component[prefix_min(queue, count)] != 0,
        forall|b: int| 0 <= b < prefix_min(queue, count) ==> component[b] == 0,
    ensures
        forall|k: int|
            0 <= k < contour.len() ==> is_foreground(
                component,
                width,
                height,
                contour[k].x as int,
                contour[k].y as int,
            ) && on_boundary(component, width, height, #[trigger] contour[k].x as int, contour[k].y as int),
{
    let s0 = trace_start(queue, count, width);
    lemma_start_ok(component, width, height, queue, count);
    assert forall|k: int| 0 <= k < contour.len() implies is_foreground(
        component,
        width,
        height,
        contour[k].x as int,
        contour[k].y as int,
    ) && on_boundary(component, width, height, #[trigger] contour[k].x as int, contour[k].y as int) by {
        lemma_trace_states_ok(component, width, height, s0, k as nat);
        assert(trace_state(component, width, height, s0, k as nat) is Some);
        let s = trace_state(component, width, height, s0, k as nat)->0;
        assert(at_state(contour[k], s));
        assert(!is_foreground(component, width, height, s.2, s.3));
    }
}

/// Index of the Moore direction with step `(dx, dy)`; 6 (west) when there is none.
#[inline(always)]
fn direction_index(dx: i32, dy: i32) -> (r: usize)
    ensures
        r as int == spec_direction_index(dx as int, dy as int),
        r < 8,
{
    let mut i: usize = 0;
    while i < 8
        invariant
            0 <= i <= 8,
            forall|j: int| 0 <= j < i ==> !(DX@[j] == dx && DY@[j] == dy),
        decreases 8 - i,
    {
        if DX[i] == dx && DY[i] == dy {
            return i;
        }
        i += 1;
    }
    6
}

proof fn lemma_dir_tables(d: int)
    requires
        0 <= d < 8,
    ensures
        DX@[d] as int == dir_dx(d),
        DY@[d] as int == dir_dy(d),
{
}

/// One Moore tracing step from pixel `(x, y)` with backtrack pixel `(back_x, back_y)`:
/// scans the eight neighbours clockwise, starting just after the backtrack pixel, for the
/// first foreground one, and returns it with its new backtrack pixel.
fn moore_step(
    component: &[u8],
    width: usize,
    height: usize,
    x: i32,
    y: i32,
    back_x: i32,
    back_y: i32,
) -> (r: Option<(i32, i32, i32, i32)>)
    requires
        0 <= x < width,
        0 <= y < height,
        width <= i32::MAX,
        height <= i32::MAX,
        width * height <= component@.len(),
        -1 <= back_x - x <= 1,
        -1 <= back_y - y <= 1,
    ensures
        match trace_step(
            component@,
            width as int,
            height as int,
            (x as int, y as int, back_x as int, back_y as int),
        ) {
            None => r is None,
            Some(s) => r matches Some(t) && (t.0 as int, t.1 as int, t.2 as int, t.3 as int) == s,
        },
        r matches Some(t) ==> {
            &&& is_foreground(component@, width as int, height as int, t.0 as int, t.1 as int)
            &&& 0 <= t.0 < width
            &&& 0 <= t.1 < height
            &&& -1 <= t.2 - t.0 <= 1
            &&& -1 <= t.3 - t.1 <= 1
            &&& eight_adjacent(IntPoint { x, y }, IntPoint { x: t.0, y: t.1 })
        },
{
    let ghost c = component@;
    let ghost w = width as int;
    let ghost h = height as int;
    let component_len = component.len();
    assert(w * h <= usize::MAX);
    let back_dir = direction_index(back_x - x, back_y - y);
    let mut found_dir: Option<usize> = None;
    let mut step: usize = 1;
        while step <= 8
            invariant_except_break
                found_dir is None,
                first_foreground_dir(c, w, h, x as int, y as int, back_dir as int, 1)
                    == first_foreground_dir(c, w, h, x as int, y as int, back_dir as int, step as int),
            invariant
                1 <= step <= 9,
                back_dir < 8,
                0 <= x < w,
                0 <= y < h,
                c == component@,
                w == width,
                h == height,
                w <= i32::MAX,
                h <= i32::MAX,
                w * h <= c.len(),
                w * h <= usize::MAX,
            ensures
                found_dir == match first_foreground_dir(
                    c,
                    w,
                    h,
                    x as int,
                    y as int,
                    back_dir as int,
                    1,
                ) {
                    Some(d) => Some(d as usize),
                    None => None::<usize>,
                },
                found_dir matches Some(d) ==> d < 8,
            decreases 9 - step,
        {
            let sum = back_dir + step;
            let dir = sum & 7;
            assert(sum & 7 == sum % 8) by (bit_vector);
            proof {
                lemma_dir_tables(dir as int);
            }
            let nx = x + DX[dir];
            let ny = y + DY[dir];
            let inside = nx >= 0 && nx < width as i32 && ny >= 0 && ny < height as i32;
            if inside {
                proof {
                    lemma_cell_index(nx as int, ny as int, w, h);
                }
                if component[ny as usize * width + nx as usize] != 0 {
                    found_dir = Some(dir);
                    break;
                }
            }
            step += 1;
        }

        let dir = match found_dir {
            Some(d) => d,
            None => {
                return None;
            },
        };
        proof {
            lemma_first_dir_found(c, w, h, x as int, y as int, back_dir as int, 1);
        }
        let shifted = dir + 7;
        let preceding = shifted & 7;
        assert(shifted & 7 == shifted % 8) by (bit_vector);
        proof {
            lemma_dir_tables(dir as int);
            lemma_dir_tables(preceding as int);
        }
        Some((x + DX[dir], y + DY[dir], x + DX[preceding], y + DY[preceding]))
}

/// Traces the external contour of a connected component using Moore boundary tracing.
///
/// `component` marks the component's pixels on the `width` x `height` grid (row by row) and
/// the first `count` entries of `queue` are the indices of its pixels. Tracing starts at the
/// topmost, then leftmost, of those pixels and follows the boundary clockwise, once around:
/// it stops when it is back on the start pixel about to repeat its first move.
pub fn trace_contour(
    component: &[u8],
    queue: &[usize],
    count: usize,
    width: usize,
    height: usize,
) -> (contour: Vec<IntPoint>)
    requires
        count <= queue@.len(),
        count * 8 <= usize::MAX,
        count > 0 ==> {
            &&& width <= i32::MAX
            &&& height <= i32::MAX
            &&& width * height <= component@.len()
            &&& forall|i: int| 0 <= i < count ==> (#[trigger] queue@[i] as int) < width * height
        },
    ensures
        count == 0 ==> contour@.len() == 0,
        count > 0 ==> is_traced_contour(contour@, component@, queue@, count as int, width as int, height as int),
        count > 0 ==> contour@[0] == (IntPoint {
            x: (prefix_min(queue@, count as int) % width as int) as i32,
            y: (prefix_min(queue@, count as int) / width as int) as i32,
        }),
        forall|k: int|
            1 <= k < contour@.len() ==> is_foreground(
                component@,
                width as int,
                height as int,
                contour@[k].x as int,
                contour@[k].y as int,
            ),
        forall|k: int|
            1 <= k < contour@.len() ==> eight_adjacent(contour@[k - 1], #[trigger] contour@[k]),
{
    if count == 0 {
        return Vec::new();
    }
    let ghost c = component@;
    let ghost w = width as int;
    let ghost h = height as int;
    assert(queue@[0] < w * h);
    assert(0 < w) by (nonlinear_arith)
        requires
            0 <= queue@[0] as int,
            queue@[0] < w * h,
            0 <= h,
            0 <= w,
    ;
    let component_len = component.len();
    assert(w * h <= usize::MAX);
    let mut start = queue[0];
    let mut i: usize = 1;
    while i < count
        invariant
            1 <= i <= count <= queue@.len(),
            0 < w,
            w == width,
            start as int == prefix_min(queue@, i as int),
        decreases count - i,
    {
        let candidate = queue[i];
        let cy = candidate / width;
        let cx = candidate % width;
        let sy = start / width;
        let sx = start % width;
        proof {
            lemma_row_major_order(candidate as int, start as int, w);
        }
        if cy < sy || (cy == sy && cx < sx) {
            start = candidate;
        }
        i += 1;
    }
    proof {
        lemma_prefix_min_bounds(queue@, count as int, w * h);
        lemma_index_cell(start as int, w, h);
    }
    let mut x = (start % width) as i32;
    let mut y = (start / width) as i32;
    let start_x = x;
    let start_y = y;
    let mut back_x = x - 1;
    let mut back_y = y;
    let start_back_x = back_x;
    let start_back_y = back_y;
    let ghost s0: TraceState = (start_x as int, start_y as int, start_back_x as int, start_back_y as int);
    assert(s0 == trace_start(queue@, count as int, w));

    let cap = if count * 2 < 2048 { count * 2 } else { 2048 };
    let mut contour: Vec<IntPoint> = Vec::with_capacity(cap);
    let max_steps = if count * 8 > 8 { count * 8 } else { 8 };

    let mut first_x: i32 = 0;
    let mut first_y: i32 = 0;
    let mut k: usize = 0;
    while k < max_steps
        invariant_except_break
            contour@.len() == k,
            1 <= k < max_steps ==> is_foreground(c, w, h, x as int, y as int),
            1 <= k < max_steps ==> eight_adjacent(contour@[k - 1], IntPoint { x, y }),
            k < max_steps ==> trace_state(c, w, h, s0, k as nat) == Some(
                (x as int, y as int, back_x as int, back_y as int),
            ),
            k < max_steps ==> 0 <= x < w && 0 <= y < h,
            k < max_steps ==> -1 <= back_x - x <= 1 && -1 <= back_y - y <= 1,
        invariant
            c == component@,
            w == width,
            h == height,
            0 < w <= i32::MAX,
            0 <= h <= i32::MAX,
            w * h <= c.len(),
            w * h <= usize::MAX,
            max_steps as int == max_trace_steps(count as int),
            0 <= k <= max_steps,
            s0 == trace_start(queue@, count as int, w),
            contour@.len() <= max_steps,
            0 < contour@.len() ==> contour@[0] == (IntPoint { x: start_x, y: start_y }),
            s0 == (start_x as int, start_y as int, start_back_x as int, start_back_y as int),
            forall|j: int|
                0 <= j < contour@.len() ==> {
                    &&& #[trigger] trace_state(c, w, h, s0, j as nat) is Some
                    &&& at_state(contour@[j], trace_state(c, w, h, s0, j as nat)->0)
                },
            forall|j: int| 1 <= j < contour@.len() ==> !#[trigger] closes_at(c, w, h, s0, j as nat),
            1 <= k ==> (trace_state(c, w, h, s0, 1) matches Some(f) && f.0 == first_x && f.1 == first_y),
            forall|j: int|
                1 <= j < contour@.len() ==> is_foreground(
                    c,
                    w,
                    h,
                    contour@[j].x as int,
                    contour@[j].y as int,
                ),
            forall|j: int|
                1 <= j < contour@.len() ==> eight_adjacent(contour@[j - 1], #[trigger] contour@[j]),
        ensures
            1 <= contour@.len() <= max_steps,
            forall|j: int|
                0 <= j < contour@.len() ==> {
                    &&& #[trigger] trace_state(c, w, h, s0, j as nat) is Some
                    &&& at_state(contour@[j], trace_state(c, w, h, s0, j as nat)->0)
                },
            forall|j: int| 1 <= j < contour@.len() ==> !#[trigger] closes_at(c, w, h, s0, j as nat),
            contour@.len() == max_steps || trace_state(c, w, h, s0, contour@.len() as nat) is None
                || closes_at(c, w, h, s0, contour@.len() as nat),
            contour@[0] == (IntPoint { x: start_x, y: start_y }),
            forall|j: int|
                1 <= j < contour@.len() ==> is_foreground(
                    c,
                    w,
                    h,
                    contour@[j].x as int,
                    contour@[j].y as int,
                ),
            forall|j: int|
                1 <= j < contour@.len() ==> eight_adjacent(contour@[j - 1], #[trigger] contour@[j]),
        decreases max_steps - k,
    {
        let ghost cur: TraceState = (x as int, y as int, back_x as int, back_y as int);
        let next = moore_step(component, width, height, x, y, back_x, back_y);
        assert(trace_state(c, w, h, s0, (k + 1) as nat) == trace_step(c, w, h, cur));
        if k >= 1 && x == start_x && y == start_y {
            if let Some((nx, ny, _, _)) = next {
                if nx == first_x && ny == first_y {
                    assert(closes_at(c, w, h, s0, k as nat));
                    break;
                }
            }
        }
        assert(!closes_at(c, w, h, s0, k as nat));
        contour.push(IntPoint { x, y });
        let ghost prev_point = IntPoint { x, y };
        match next {
            None => {
                assert(trace_state(c, w, h, s0, (k + 1) as nat) is None);
                break;
            },
            Some((nx, ny, nbx, nby)) => {
                if k == 0 {
                    first_x = nx;
                    first_y = ny;
                }
                x = nx;
                y = ny;
                back_x = nbx;
                back_y = nby;
            },
        }
        assert(trace_state(c, w, h, s0, (k + 1) as nat) == Some(
            (x as int, y as int, back_x as int, back_y as int),
        ));
        assert(eight_adjacent(prev_point, IntPoint { x, y }));
        k += 1;
    }
    contour
}


/// The points of the first `n` contour points whose `keep` flag is set, in order.
pub open spec fn kept_prefix(contour: Seq<IntPoint>, keep: Seq<bool>, n: int) -> Seq<IntPoint>
    decreases n,
{
    if n <= 0 {
        Seq::empty()
    } else if keep[n - 1] {
        kept_prefix(contour, keep, n - 1).push(contour[n - 1])
    } else {
        kept_prefix(contour, keep, n - 1)
    }
}

/// The sampling stride that brings `len` points down to at most `MAX_PATH_POINTS`.
pub open spec fn cap_step(len: int) -> int {
    (len + MAX_PATH_POINTS - 1) / MAX_PATH_POINTS as int
}

/// `points` thinned to every `cap_step`-th point, first one included, when it has more than
/// `MAX_PATH_POINTS` points; otherwise unchanged.
pub open spec fn capped_points(points: Seq<IntPoint>) -> Seq<IntPoint> {
    let len = points.len() as int;
    if len > MAX_PATH_POINTS {
        let step = cap_step(len);
        Seq::new(((len + step - 1) / step) as nat, |j: int| points[j * step])
    } else {
        points
    }
}

/// The simplified outline: the kept points, capped; or the whole contour when fewer than
/// three points are kept.
pub open spec fn simplified_outline(contour: Seq<IntPoint>, keep: Seq<bool>) -> Seq<IntPoint> {
    let kept = kept_prefix(contour, keep, contour.len() as int);
    if kept.len() < 3 {
        contour
    } else {
        capped_points(kept)
    }
}

proof fn lemma_kept_prefix_len(contour: Seq<IntPoint>, keep: Seq<bool>, n: int)
    requires
        0 <= n,
    ensures
        kept_prefix(contour, keep, n).len() <= n,
    decreases n,
{
    if n > 0 {
        lemma_kept_prefix_len(contour, keep, n - 1);
    }
}

proof fn lemma_capped_bounds(len: int)
    requires
        len > MAX_PATH_POINTS,
    ensures
        cap_step(len) >= 2,
        ({
            let step = cap_step(len);
            let count = (len + step - 1) / step;
            3 <= count <= MAX_PATH_POINTS
        }),
{
    let step = cap_step(len);
    assert(step >= 2) by (nonlinear_arith)
        requires
            step == (len + 511) / 512,
            len > 512,
    ;
    assert(512 * step >= len) by (nonlinear_arith)
        requires
            step == (len + 511) / 512,
            len > 512,
    ;
    assert(512 * step < len + 512) by (nonlinear_arith)
        requires
            step == (len + 511) / 512,
            len > 512,
    ;
    let count = (len + step - 1) / step;
    assert(count <= 512) by (nonlinear_arith)
        requires
            count == (len + step - 1) / step,
            512 * step >= len,
            step >= 2,
    ;
    assert(count >= 3) by (nonlinear_arith)
        requires
            count == (len + step - 1) / step,
            512 * step < len + 512,
            len > 512,
            step >= 2,
    ;
}

/// Finishes a Ramer-Douglas-Peucker simplification: collects the contour points whose `keep`
/// flag is set, falls back to the whole contour when fewer than three are kept, and thins an
/// outline of more than `MAX_PATH_POINTS` points to every `cap_step`-th point.
pub fn select_kept_points(contour: &[IntPoint], keep: &[bool]) -> (outline: Vec<IntPoint>)
    requires
        keep@.len() == contour@.len(),
    ensures
        outline@ == simplified_outline(contour@, keep@),
        outline@ == contour@ || 3 <= outline@.len() <= MAX_PATH_POINTS,
{
    let mut result: Vec<IntPoint> = Vec::new();
    let mut i: usize = 0;
    while i < contour.len()
        invariant
            0 <= i <= contour@.len(),
            keep@.len() == contour@.len(),
            result@ == kept_prefix(contour@, keep@, i as int),
        decreases contour@.len() - i,
    {
        if keep[i] {
            result.push(contour[i]);
        }
        i += 1;
    }
    if result.len() < 3 {
        return vstd::slice::slice_to_vec(contour);
    }
    if result.len() > MAX_PATH_POINTS {
        let len = result.len();
        let step = len / MAX_PATH_POINTS + if len % MAX_PATH_POINTS != 0 {
            1
        } else {
            0
        };
        assert(step == (len + 511) / 512) by (nonlinear_arith)
            requires
                step == len / 512 + if len % 512 != 0 {
                    1int
                } else {
                    0int
                },
                len > 512,
        ;
        proof {
            lemma_capped_bounds(len as int);
        }
        let ghost count = (len + step - 1) / step as int;
        let mut capped: Vec<IntPoint> = Vec::with_capacity(MAX_PATH_POINTS);
        let mut k: usize = 0;
        loop
            invariant_except_break
                k < len,
                k == capped@.len() * step,
            invariant
                len == result@.len(),
                len > MAX_PATH_POINTS,
                step == cap_step(len as int),
                step >= 2,
                count == (len + step - 1) / step as int,
                forall|j: int| 0 <= j < capped@.len() ==> #[trigger] capped@[j] == result@[j * step],
            ensures
                capped@.len() == count,
            decreases len - k,
        {
            capped.push(result[k]);
            assert(capped@.len() * step == k + step) by (nonlinear_arith)
                requires
                    k == (capped@.len() - 1) * step,
            ;
            if len - k <= step {
                assert(capped@.len() == count) by (nonlinear_arith)
                    requires
                        count == (len + step - 1) / (step as int),
                        (capped@.len() - 1) * step < len,
                        capped@.len() * step >= len,
                        step >= 2,
                ;
                break;
            }
            k += step;
        }
        assert(capped@ =~= capped_points(result@));
        return capped;
    }
    result
}

} // verus!
