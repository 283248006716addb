use vstd::prelude::*;

use crate::contour::{
    IntPoint, trace_contour, is_traced_contour, prefix_min, lemma_contour_on_boundary, on_boundary,
    is_foreground,
};

verus! {

/// Whether plane cells `a` and `b` (row-major indices on a grid `width` cells wide) are
/// distinct and touch, sides or corners.
pub open spec fn grid_adjacent(width: int, a: int, b: int) -> bool {
    &&& a != b
    &&& -1 <= b % width - a % width <= 1
    &&& -1 <= b / width - a / width <= 1
}

/// Whether `b` is among the first `n` entries of `q`.
pub open spec fn in_prefix(q: Seq<usize>, n: int, b: int) -> bool {
    exists|j: int| 0 <= j < n && q[j] as int == b
}

/// Reusable buffer context for postprocessing to prevent heap reallocations.
///
/// It labels the 8-connected components of the model mask one at a time: a cell counts
/// as visited in the current pass when its stamp equals the pass epoch, so a new pass
/// needs no clearing; `component` marks the cells of the component being examined and
/// `queue` holds them in breadth-first order.
pub struct PostprocessContext {
    visited_epoch: Vec<u32>,
    current_epoch: u32,
    component: Vec<u8>,
    queue: Vec<usize>,
}

impl PostprocessContext {
    /// Number of cells of the plane the context is laid out for.
    pub closed spec fn plane(self) -> nat {
        self.visited_epoch@.len()
    }

    /// The epoch of the current pass.
    pub closed spec fn epoch(self) -> u32 {
        self.current_epoch
    }

    /// Whether cell `i` has been visited in the current pass.
    pub closed spec fn visited(self, i: int) -> bool {
        self.visited_epoch@[i] == self.current_epoch
    }

    /// The component marks, one per cell of the plane, row by row.
    pub closed spec fn marks(self) -> Seq<u8> {
        self.component@
    }

    /// Whether cell `i` is marked as belonging to the component being examined.
    pub open spec fn marked(self, i: int) -> bool {
        self.marks()[i] != 0
    }

    /// The breadth-first queue of cell indices.
    pub closed spec fn queued(self) -> Seq<usize> {
        self.queue@
    }

    /// The three buffers cover the same plane and no stamp is ahead of the epoch.
    pub closed spec fn consistent(self) -> bool {
        &&& self.component@.len() == self.visited_epoch@.len()
        &&& self.queue@.len() == self.visited_epoch@.len()
        &&& forall|i: int|
            0 <= i < self.visited_epoch@.len() ==> self.visited_epoch@[i] <= self.current_epoch
    }

    /// Consistent, with no cell marked: the state between two components.
    pub open spec fn at_rest(self) -> bool {
        &&& self.consistent()
        &&& forall|i: int| 0 <= i < self.plane() ==> !self.marked(i)
    }
}

/// Whether entry `p` of `q` is the first entry that entry `i` touches, and comes before it.
pub open spec fn is_parent(q: Seq<usize>, width: int, i: int, p: int) -> bool {
    &&& 0 <= p < i
    &&& grid_adjacent(width, q[p] as int, q[i] as int)
    &&& forall|j: int| #![trigger q[j]] 0 <= j < p ==> !grid_adjacent(width, q[j] as int, q[i] as int)
}

/// Whether, around cell `a`, cell `b` comes before cell `c` in scan order: by row offset,
/// then by column offset.
pub open spec fn scan_before(width: int, a: int, b: int, c: int) -> bool {
    let by = b / width - a / width;
    let bx = b % width - a % width;
    let cy = c / width - a / width;
    let cx = c % width - a % width;
    by < cy || (by == cy && bx < cx)
}

/// Whether the first `n` entries of `q` are in breadth-first order: the entries after the
/// first are ordered by their first earlier neighbour (see [`is_parent`]) and, among those
/// with the same one, by their position around it in scan order.
pub open spec fn bfs_ordered(q: Seq<usize>, width: int, n: int) -> bool {
    forall|i: int, k: int, pi: int, pk: int|
        1 <= i < k < n && #[trigger] is_parent(q, width, i, pi) && #[trigger] is_parent(q, width, k, pk)
            ==> pi < pk || (pi == pk && scan_before(width, q[pi] as int, q[i] as int, q[k] as int))
}

/// What one flood fill from `start` did, going from `old` to `new`: the first `tail` queue
/// entries of `new` are, without repetition, exactly the cells of the 8-connected component of
/// `start` among the cells that are set in `grow` and were not yet visited (`start` itself
/// excepted from the `grow` test); each of them but `start` touches an earlier one, and they
/// stand in breadth-first order (see [`bfs_ordered`]); the component is now marked and
/// visited, and nothing else changed.
pub open spec fn fills_component(
    old: PostprocessContext,
    new: PostprocessContext,
    grow: Seq<bool>,
    width: int,
    start: int,
    tail: int,
) -> bool {
    let q = new.queued();
    let plane = old.plane() as int;
    &&& new.consistent()
    &&& new.plane() == old.plane()
    &&& new.epoch() == old.epoch()
    &&& 1 <= tail <= plane
    &&& q[0] as int == start
    &&& forall|i: int, j: int| 0 <= i < j < tail ==> q[i] != q[j]
    &&& forall|i: int| 0 <= i < tail ==> (#[trigger] q[i] as int) < plane
    &&& forall|i: int|
        1 <= i < tail ==> #[trigger] grow[q[i] as int] && !old.visited(q[i] as int)
    &&& forall|i: int|
        #![trigger q[i]]
        1 <= i < tail ==> exists|j: int|
            #![trigger q[j]]
            0 <= j < i && grid_adjacent(width, q[j] as int, q[i] as int)
    &&& bfs_ordered(q, width, tail)
    &&& forall|i: int, b: int|
        0 <= i < tail && 0 <= b < plane && grow[b] && !old.visited(b) && #[trigger] grid_adjacent(
            width,
            q[i] as int,
            b,
        ) ==> in_prefix(q, tail, b)
    &&& forall|b: int|
        0 <= b < plane ==> (#[trigger] new.visited(b) <==> (old.visited(b) || in_prefix(q, tail, b)))
    &&& forall|b: int| 0 <= b < plane ==> (#[trigger] new.marked(b) <==> in_prefix(q, tail, b))
}

/// Components found one after the other in a pass share no cell: after a fill from `c0`
/// to `c1`, and whatever then leaves the visits of the pass as they are (`c1` to `c2`, such
/// as clearing the marks), a fill from an unvisited cell of `c2` to `c3` takes none of the
/// cells the first fill took.
pub proof fn lemma_components_disjoint(
    c0: PostprocessContext,
    c1: PostprocessContext,
    c2: PostprocessContext,
    c3: PostprocessContext,
    grow1: Seq<bool>,
    grow2: Seq<bool>,
    width: int,
    s1: int,
    t1: int,
    s2: int,
    t2: int,
)
    requires
        fills_component(c0, c1, grow1, width, s1, t1),
        c2.plane() == c1.plane(),
        forall|b: int| #[trigger] c2.visited(b) == c1.visited(b),
        !c2.visited(s2),
        fills_component(c2, c3, grow2, width, s2, t2),
    ensures
        forall|i: int, j: int|
            0 <= i < t1 && 0 <= j < t2 ==> #[trigger] c1.queued()[i] != #[trigger] c3.queued()[j],
{
    assert forall|i: int, j: int| 0 <= i < t1 && 0 <= j < t2 implies #[trigger] c1.queued()[i]
        != #[trigger] c3.queued()[j] by {
        let b = c1.queued()[i] as int;
        assert(in_prefix(c1.queued(), t1, b));
        assert(c1.visited(b));
        assert(c2.visited(b));
        if j > 0 {
            let q = c3.queued();
            assert(1 <= j < t2);
            assert(grow2[q[j] as int]);
            assert(!c2.visited(q[j] as int));
        }
    }
}

/// Two contexts whose visits agree give the same next component, whatever else they held:
/// the same first unvisited seed cell from `from` on, the same cells in the same breadth-first
/// order, and afterwards the same visits and marks. As [`PostprocessContext::begin_pass`]
/// leaves no cell visited, a pass over the same mask finds the same components however the
/// context was used before.
pub proof fn lemma_next_component_independent_of_context(
    c1: PostprocessContext,
    n1: PostprocessContext,
    c2: PostprocessContext,
    n2: PostprocessContext,
    seed: Seq<bool>,
    grow: Seq<bool>,
    width: int,
    from: int,
    s1: int,
    t1: int,
    s2: int,
    t2: int,
)
    requires
        c1.plane() == c2.plane(),
        forall|b: int| 0 <= b < c1.plane() ==> #[trigger] c1.visited(b) == c2.visited(b),
        from <= s1 < c1.plane(),
        seed[s1],
        !c1.visited(s1),
        forall|s: int| from <= s < s1 ==> #[trigger] c1.visited(s) || !seed[s],
        fills_component(c1, n1, grow, width, s1, t1),
        from <= s2 < c2.plane(),
        seed[s2],
        !c2.visited(s2),
        forall|s: int| from <= s < s2 ==> #[trigger] c2.visited(s) || !seed[s],
        fills_component(c2, n2, grow, width, s2, t2),
    ensures
        s1 == s2,
        t1 == t2,
        n1.queued().subrange(0, t1) == n2.queued().subrange(0, t2),
        forall|b: int| 0 <= b < c1.plane() ==> #[trigger] n1.visited(b) == n2.visited(b),
        forall|b: int| 0 <= b < c1.plane() ==> #[trigger] n1.marked(b) == n2.marked(b),
{
    if s1 < s2 {
        assert(c2.visited(s1) || !seed[s1]);
        assert(c1.visited(s1) == c2.visited(s1));
    } else if s2 < s1 {
        assert(c1.visited(s2) || !seed[s2]);
        assert(c1.visited(s2) == c2.visited(s2));
    }
    assert forall|b: int| 0 <= b < c2.plane() implies #[trigger] c2.visited(b) == c1.visited(b) by {
        assert(c1.visited(b) == c2.visited(b));
    }
    let q1 = n1.queued();
    let q2 = n2.queued();
    let m = if t1 < t2 { t1 } else { t2 };
    lemma_fill_prefix_equal(c1, n1, c2, n2, grow, width, s1, t1, t2, m - 1);
    if t1 < t2 {
        lemma_fill_member(c2, n2, c1, n1, grow, width, s1, t2, t1, t1);
        let k = choose|k: int| 0 <= k < t1 && q1[k] as int == q2[t1] as int;
        assert(q2[k] == q1[k]);
    } else if t2 < t1 {
        lemma_fill_member(c1, n1, c2, n2, grow, width, s1, t1, t2, t2);
        let k = choose|k: int| 0 <= k < t2 && q2[k] as int == q1[t2] as int;
        assert(q2[k] == q1[k]);
    }
    assert(q1.subrange(0, t1) =~= q2.subrange(0, t2));
    assert forall|b: int| 0 <= b < c1.plane() implies in_prefix(q1, t1, b) == in_prefix(q2, t2, b) by {
        if in_prefix(q1, t1, b) {
            let j = choose|j: int| 0 <= j < t1 && q1[j] as int == b;
            assert(q2[j] == q1[j]);
        }
        if in_prefix(q2, t2, b) {
            let j = choose|j: int| 0 <= j < t2 && q2[j] as int == b;
            assert(q2[j] == q1[j]);
        }
    }
    assert forall|b: int| 0 <= b < c1.plane() implies #[trigger] n1.visited(b) == n2.visited(b) by {
        assert(in_prefix(q1, t1, b) == in_prefix(q2, t2, b));
        assert(c1.visited(b) == c2.visited(b));
    }
    assert forall|b: int| 0 <= b < c1.plane() implies #[trigger] n1.marked(b) == n2.marked(b) by {
        assert(in_prefix(q1, t1, b) == in_prefix(q2, t2, b));
    }
}

/// Every cell a fill from `c1` takes, a fill from `c2` with the same visits and start takes too.
proof fn lemma_fill_member(
    c1: PostprocessContext,
    n1: PostprocessContext,
    c2: PostprocessContext,
    n2: PostprocessContext,
    grow: Seq<bool>,
    width: int,
    start: int,
    t1: int,
    t2: int,
    i: int,
)
    requires
        c1.plane() == c2.plane(),
        forall|b: int| 0 <= b < c1.plane() ==> #[trigger] c1.visited(b) == c2.visited(b),
        fills_component(c1, n1, grow, width, start, t1),
        fills_component(c2, n2, grow, width, start, t2),
        0 <= i < t1,
    ensures
        in_prefix(n2.queued(), t2, n1.queued()[i] as int),
    decreases i,
{
    let q1 = n1.queued();
    let q2 = n2.queued();
    if i == 0 {
        assert(q2[0] as int == start);
    } else {
        assert(q1[i] == q1[i]);
        let j = choose|j: int| #![trigger q1[j]] 0 <= j < i && grid_adjacent(width, q1[j] as int, q1[i] as int);
        lemma_fill_member(c1, n1, c2, n2, grow, width, start, t1, t2, j);
        let k = choose|k: int| 0 <= k < t2 && q2[k] as int == q1[j] as int;
        let b = q1[i] as int;
        assert(1 <= i < t1);
        assert(grow[q1[i] as int]);
        assert(!c1.visited(b));
        assert((q1[i] as int) < c1.plane());
        assert(!c2.visited(b));
        assert(grid_adjacent(width, q2[k] as int, b));
    }
}

/// Two fills from contexts with the same visits and the same start queue the same cells, in
/// the same order, as far as both go.
proof fn lemma_fill_prefix_equal(
    c1: PostprocessContext,
    n1: PostprocessContext,
    c2: PostprocessContext,
    n2: PostprocessContext,
    grow: Seq<bool>,
    width: int,
    start: int,
    t1: int,
    t2: int,
    m: int,
)
    requires
        c1.plane() == c2.plane(),
        forall|b: int| 0 <= b < c1.plane() ==> #[trigger] c1.visited(b) == c2.visited(b),
        fills_component(c1, n1, grow, width, start, t1),
        fills_component(c2, n2, grow, width, start, t2),
        0 <= m < t1,
        m < t2,
    ensures
        forall|i: int| 0 <= i <= m ==> #[trigger] n1.queued()[i] == n2.queued()[i],
    decreases m,
{
    let q1 = n1.queued();
    let q2 = n2.queued();
    assert forall|b: int| 0 <= b < c2.plane() implies #[trigger] c2.visited(b) == c1.visited(b) by {
        assert(c1.visited(b) == c2.visited(b));
    }
    if m == 0 {
        assert(q1[0] == q2[0]);
    } else {
        lemma_fill_prefix_equal(c1, n1, c2, n2, grow, width, start, t1, t2, m - 1);
        let a = q1[m];
        let b = q2[m];
        if a != b {
            lemma_fill_member(c1, n1, c2, n2, grow, width, start, t1, t2, m);
            let ja = choose|k: int| 0 <= k < t2 && q2[k] as int == a as int;
            if ja < m {
                assert(q1[ja] == q2[ja]);
            }
            assert(ja > m);
            lemma_fill_member(c2, n2, c1, n1, grow, width, start, t2, t1, m);
            let jb = choose|k: int| 0 <= k < t1 && q1[k] as int == b as int;
            if jb < m {
                assert(q1[jb] == q2[jb]);
            }
            assert(jb > m);
            assert(q1[m] == q1[m]);
            let j1 = choose|j: int| #![trigger q1[j]] 0 <= j < m && grid_adjacent(width, q1[j] as int, q1[m] as int);
            lemma_parent_exists(q1, width, m, j1);
            let pa = choose|p: int| is_parent(q1, width, m, p);
            assert(q2[m] == q2[m]);
            let j2 = choose|j: int| #![trigger q2[j]] 0 <= j < m && grid_adjacent(width, q2[j] as int, q2[m] as int);
            lemma_parent_exists(q2, width, m, j2);
            let pb = choose|p: int| is_parent(q2, width, m, p);
            assert(is_parent(q2, width, ja, pa)) by {
                assert(q2[pa] == q1[pa]);
                assert forall|j: int| #![trigger q2[j]] 0 <= j < pa implies !grid_adjacent(
                    width,
                    q2[j] as int,
                    q2[ja] as int,
                ) by {
                    assert(q2[j] == q1[j]);
                    assert(!grid_adjacent(width, q1[j] as int, q1[m] as int));
                }
            }
            assert(is_parent(q1, width, jb, pb)) by {
                assert(q2[pb] == q1[pb]);
                assert forall|j: int| #![trigger q1[j]] 0 <= j < pb implies !grid_adjacent(
                    width,
                    q1[j] as int,
                    q1[jb] as int,
                ) by {
                    assert(q2[j] == q1[j]);
                    assert(!grid_adjacent(width, q2[j] as int, q2[m] as int));
                }
            }
            assert(is_parent(q1, width, m, pa));
            assert(is_parent(q2, width, m, pb));
            assert(q2[pa] == q1[pa]);
            assert(q2[pb] == q1[pb]);
        }
    }
}

proof fn lemma_parent_exists(q: Seq<usize>, width: int, i: int, j: int)
    requires
        0 <= j < i,
        grid_adjacent(width, q[j] as int, q[i] as int),
    ensures
        exists|p: int| is_parent(q, width, i, p),
    decreases j,
{
    if exists|k: int| 0 <= k < j && grid_adjacent(width, #[trigger] q[k] as int, q[i] as int) {
        let k = choose|k: int| 0 <= k < j && grid_adjacent(width, #[trigger] q[k] as int, q[i] as int);
        lemma_parent_exists(q, width, i, k);
    } else {
        assert(is_parent(q, width, i, j));
    }
}

proof fn lemma_parent_unique(q: Seq<usize>, width: int, i: int, p1: int, p2: int)
    requires
        is_parent(q, width, i, p1),
        is_parent(q, width, i, p2),
    ensures
        p1 == p2,
{
    if p1 < p2 {
        assert(!grid_adjacent(width, q[p1] as int, q[i] as int));
    } else if p2 < p1 {
        assert(!grid_adjacent(width, q[p2] as int, q[i] as int));
    }
}

proof fn lemma_parent_stable(q1: Seq<usize>, q2: Seq<usize>, width: int, n: int)
    requires
        0 <= n <= q1.len(),
        n <= q2.len(),
        q1.subrange(0, n) == q2.subrange(0, n),
    ensures
        forall|i: int, p: int|
            #![trigger is_parent(q1, width, i, p)]
            #![trigger is_parent(q2, width, i, p)]
            0 <= i < n ==> (is_parent(q1, width, i, p) <==> is_parent(q2, width, i, p)),
{
    assert forall|j: int| 0 <= j < n implies q1[j] == q2[j] by {
        assert(q1[j] == q1.subrange(0, n)[j]);
        assert(q2[j] == q2.subrange(0, n)[j]);
    }
}

/// After the scan of neighbours of entry `hp` (cell `index`) has reached offset `(dy, dx)`:
/// the entries it queued, from `old_tail` on, have `hp` as parent and lie before that offset.
spec fn queued_from(q: Seq<usize>, width: int, index: int, hp: int, old_tail: int, tail: int, dy: int, dx: int) -> bool {
    forall|i: int|
        old_tail <= i < tail ==> #[trigger] is_parent(q, width, i, hp) && offset_before(width, index, q[i] as int, dy, dx)
}

proof fn lemma_queued_from_advance(
    q: Seq<usize>,
    width: int,
    index: int,
    hp: int,
    old_tail: int,
    tail: int,
    dy: int,
    dx: int,
    dy2: int,
    dx2: int,
)
    requires
        queued_from(q, width, index, hp, old_tail, tail, dy, dx),
        dy < dy2 || (dy == dy2 && dx <= dx2),
    ensures
        queued_from(q, width, index, hp, old_tail, tail, dy2, dx2),
{
    assert forall|i: int| old_tail <= i < tail implies #[trigger] is_parent(q, width, i, hp) && offset_before(
        width,
        index,
        q[i] as int,
        dy2,
        dx2,
    ) by {
        assert(is_parent(q, width, i, hp));
    }
}

proof fn lemma_enqueue_order(
    q: Seq<usize>,
    q2: Seq<usize>,
    width: int,
    tail: int,
    next: usize,
    hp: int,
    index: usize,
    old_tail: int,
    dy: int,
    dx: int,
)
    requires
        0 <= tail < q.len(),
        q2 == q.update(tail, next),
        0 <= hp < old_tail <= tail,
        q[hp] == index,
        bfs_ordered(q, width, tail),
        forall|i: int, p: int| 1 <= i < old_tail && #[trigger] is_parent(q, width, i, p) ==> p < hp,
        queued_from(q, width, index as int, hp, old_tail, tail, dy, dx),
        grid_adjacent(width, index as int, next as int),
        next as int / width - index as int / width == dy,
        next as int % width - index as int % width == dx,
        forall|j: int| 0 <= j < hp ==> !grid_adjacent(width, #[trigger] q[j] as int, next as int),
    ensures
        bfs_ordered(q2, width, tail + 1),
        forall|i: int, p: int| 1 <= i < old_tail && #[trigger] is_parent(q2, width, i, p) ==> p < hp,
        queued_from(q2, width, index as int, hp, old_tail, tail + 1, dy, dx + 1),
{
    assert(q2.subrange(0, tail) == q.subrange(0, tail));
    lemma_parent_stable(q, q2, width, tail);
    assert(q2[hp] == index);
    assert(is_parent(q2, width, tail, hp)) by {
        assert forall|j: int| #![trigger q2[j]] 0 <= j < hp implies !grid_adjacent(
            width,
            q2[j] as int,
            q2[tail] as int,
        ) by {
            assert(q2[j] == q[j]);
            assert(!grid_adjacent(width, q[j] as int, next as int));
        }
    }
    assert forall|i: int, k: int, pi: int, pk: int|
        1 <= i < k < tail + 1 && #[trigger] is_parent(q2, width, i, pi) && #[trigger] is_parent(
            q2,
            width,
            k,
            pk,
        ) implies pi < pk || (pi == pk && scan_before(width, q2[pi] as int, q2[i] as int, q2[k] as int)) by {
        assert(is_parent(q, width, i, pi));
        if k < tail {
            assert(is_parent(q, width, k, pk));
            assert(q2[pi] == q[pi] && q2[i] == q[i] && q2[k] == q[k]);
        } else {
            lemma_parent_unique(q2, width, tail, pk, hp);
            if i >= old_tail {
                assert(is_parent(q, width, i, hp));
                lemma_parent_unique(q, width, i, pi, hp);
                assert(offset_before(width, index as int, q[i] as int, dy, dx));
                assert(q2[i] == q[i]);
            }
        }
    }
    assert forall|i: int| old_tail <= i < tail + 1 implies #[trigger] is_parent(q2, width, i, hp) && offset_before(
        width,
        index as int,
        q2[i] as int,
        dy,
        dx + 1,
    ) by {
        if i < tail {
            assert(is_parent(q, width, i, hp));
            assert(q2[i] == q[i]);
        }
    }
    assert forall|i: int, p: int| 1 <= i < old_tail && #[trigger] is_parent(q2, width, i, p) implies p < hp by {
        assert(is_parent(q, width, i, p));
    }
}

proof fn lemma_queue_has_room(q: Seq<usize>, tail: int, plane: int, extra: usize)
    requires
        0 <= tail <= q.len(),
        forall|i: int, j: int| 0 <= i < j < tail ==> q[i] != q[j],
        forall|i: int| 0 <= i < tail ==> (q[i] as int) < plane,
        (extra as int) < plane,
        forall|i: int| 0 <= i < tail ==> q[i] != extra,
    ensures
        tail < plane,
{
    let s = q.subrange(0, tail).push(extra);
    assert(s.no_duplicates()) by {
        assert forall|i: int, j: int| 0 <= i < s.len() && 0 <= j < s.len() && i != j implies s[i]
            != s[j] by {
            if i < j {
                if j < tail {
                } else {
                }
            } else {
                if i < tail {
                } else {
                }
            }
        }
    }
    s.unique_seq_to_set();
    let bound = Set::new(|v: usize| (v as int) < plane && 0 <= v);
    let ints = vstd::set_lib::set_int_range(0, plane);
    vstd::set_lib::lemma_int_range(0, plane);
    let mapped = s.to_set().map(|v: usize| v as int);
    assert(s.to_set().subset_of(bound));
    assert(mapped.subset_of(ints));
    vstd::set_lib::lemma_len_subset(mapped, ints);
    assert(mapped.len() == s.to_set().len()) by {
        assert(vstd::relations::injective_on(|v: usize| v as int, s.to_set()));
        vstd::set_lib::lemma_map_size(s.to_set(), mapped, |v: usize| v as int);
    }
}


/// The breadth-first search invariant of a fill from `start` that began in state `base`:
/// the first `tail` queue entries are distinct cells of the plane, `start` first, the others
/// growable cells not visited before the fill, each touching an earlier entry; the cells
/// visited now are those visited before and those queued.
spec fn bfs_queue_ok(
    ctx: PostprocessContext,
    base: PostprocessContext,
    grow: Seq<bool>,
    width: int,
    start: int,
    tail: int,
) -> bool {
    let q = ctx.queue@;
    let plane = base.plane() as int;
    &&& ctx.consistent()
    &&& ctx.plane() == base.plane()
    &&& ctx.current_epoch == base.current_epoch
    &&& 1 <= tail <= plane
    &&& q[0] as int == start
    &&& forall|i: int, j: int| 0 <= i < j < tail ==> q[i] != q[j]
    &&& forall|i: int| 0 <= i < tail ==> (#[trigger] q[i] as int) < plane
    &&& forall|i: int|
        1 <= i < tail ==> #[trigger] grow[q[i] as int] && !base.visited(q[i] as int)
    &&& forall|i: int|
        #![trigger q[i]]
        1 <= i < tail ==> exists|j: int|
            #![trigger q[j]]
            0 <= j < i && grid_adjacent(width, q[j] as int, q[i] as int)
    &&& forall|b: int|
        0 <= b < plane ==> (#[trigger] ctx.visited(b) <==> (base.visited(b) || in_prefix(q, tail, b)))
}

/// Whether neighbour `b` of cell `a` lies before offset `(dy, dx)` in the scan order of
/// the neighbour loops (rows first, then columns).
spec fn offset_before(width: int, a: int, b: int, dy: int, dx: int) -> bool {
    let oy = b / width - a / width;
    let ox = b % width - a % width;
    oy < dy || (oy == dy && ox < dx)
}

proof fn lemma_in_prefix_extend(q: Seq<usize>, n: int)
    requires
        0 <= n < q.len(),
    ensures
        forall|b: int| in_prefix(q, n + 1, b) <==> (in_prefix(q, n, b) || b == q[n] as int),
{
    assert forall|b: int| in_prefix(q, n + 1, b) implies (in_prefix(q, n, b) || b == q[n] as int) by {
        let j = choose|j: int| 0 <= j < n + 1 && q[j] as int == b;
        if j < n {
        }
    }
    assert forall|b: int| in_prefix(q, n, b) implies in_prefix(q, n + 1, b) by {
        let j = choose|j: int| 0 <= j < n && q[j] as int == b;
        assert(0 <= j < n + 1 && q[j] as int == b);
    }
    assert(0 <= n < n + 1 && q[n] as int == q[n] as int);
    assert(in_prefix(q, n + 1, q[n] as int));
}

proof fn lemma_in_prefix_update(q: Seq<usize>, n: int, v: usize)
    requires
        0 <= n < q.len(),
    ensures
        forall|b: int|
            in_prefix(q.update(n, v), n + 1, b) <==> (in_prefix(q, n, b) || b == v as int),
{
    let q2 = q.update(n, v);
    lemma_in_prefix_extend(q2, n);
    assert forall|b: int| in_prefix(q2, n, b) <==> in_prefix(q, n, b) by {
        if in_prefix(q2, n, b) {
            let j = choose|j: int| 0 <= j < n && q2[j] as int == b;
            assert(q[j] as int == b);
        }
        if in_prefix(q, n, b) {
            let j = choose|j: int| 0 <= j < n && q[j] as int == b;
            assert(q2[j] as int == b);
        }
    }
}

proof fn lemma_same_cell(w: int, a: int, b: int)
    requires
        0 < w,
        0 <= a,
        0 <= b,
        a / w == b / w,
        a % w == b % w,
    ensures
        a == b,
{
    vstd::arithmetic::div_mod::lemma_fundamental_div_mod(a, w);
    vstd::arithmetic::div_mod::lemma_fundamental_div_mod(b, w);
}

proof fn lemma_cell_in_grid(w: int, h: int, b: int)
    requires
        0 < w,
        0 <= b < w * h,
    ensures
        0 <= b % w < w,
        0 <= b / w < h,
{
    vstd::arithmetic::div_mod::lemma_fundamental_div_mod(b, w);
    vstd::arithmetic::div_mod::lemma_div_pos_is_pos(b, w);
    if b / w >= h {
        assert(w * (b / w) >= w * h) by (nonlinear_arith)
            requires
                b / w >= h,
                0 < w,
        ;
    }
}

proof fn lemma_grid_cell(x: int, y: int, w: int, h: int)
    requires
        0 <= x < w,
        0 <= y < h,
    ensures
        0 <= y * w + x < w * h,
        (y * w + x) / w == y,
        (y * w + x) % w == x,
{
    assert(y * w + x < w * h) by (nonlinear_arith)
        requires
            0 <= x < w,
            0 <= y < h,
    ;
    assert(0 <= y * w) by (nonlinear_arith)
        requires
            0 <= y,
            0 < w,
    ;
    vstd::arithmetic::div_mod::lemma_fundamental_div_mod_converse(y * w + x, w, y, x);
}

/// Every growable, not yet visited neighbour of `index` at offset `(dy, dx)` is visited in `ctx`.
spec fn offset_handled(
    ctx: PostprocessContext,
    base: PostprocessContext,
    grow: Seq<bool>,
    width: int,
    index: int,
    dy: int,
    dx: int,
) -> bool {
    forall|b: int|
        0 <= b < base.plane() && grow[b] && !base.visited(b) && #[trigger] grid_adjacent(width, index, b)
            && b / width - index / width == dy && b % width - index % width == dx ==> ctx.visited(b)
}

/// Every growable, not yet visited neighbour of `index` before offset `(dy, dx)` in scan
/// order is visited in `ctx`.
spec fn scanned_before(
    ctx: PostprocessContext,
    base: PostprocessContext,
    grow: Seq<bool>,
    width: int,
    index: int,
    dy: int,
    dx: int,
) -> bool {
    forall|b: int|
        0 <= b < base.plane() && grow[b] && !base.visited(b) && #[trigger] grid_adjacent(width, index, b)
            && offset_before(width, index, b, dy, dx) ==> ctx.visited(b)
}

proof fn lemma_scan_step(
    pre: PostprocessContext,
    post: PostprocessContext,
    base: PostprocessContext,
    grow: Seq<bool>,
    width: int,
    index: int,
    dy: int,
    dx: int,
)
    requires
        pre.plane() == base.plane(),
        post.plane() == base.plane(),
        scanned_before(pre, base, grow, width, index, dy, dx),
        forall|b: int| 0 <= b < base.plane() ==> (pre.visited(b) ==> #[trigger] post.visited(b)),
        offset_handled(post, base, grow, width, index, dy, dx),
    ensures
        scanned_before(post, base, grow, width, index, dy, dx + 1),
{
    assert forall|b: int|
        0 <= b < base.plane() && grow[b] && !base.visited(b) && #[trigger] grid_adjacent(width, index, b)
            && offset_before(width, index, b, dy, dx + 1) implies post.visited(b) by {
        if offset_before(width, index, b, dy, dx) {
            assert(pre.visited(b));
        } else {
            assert(b / width - index / width == dy && b % width - index % width == dx);
        }
    }
}

proof fn lemma_scan_next_row(
    ctx: PostprocessContext,
    base: PostprocessContext,
    grow: Seq<bool>,
    width: int,
    index: int,
    dy: int,
)
    requires
        scanned_before(ctx, base, grow, width, index, dy, 2),
    ensures
        scanned_before(ctx, base, grow, width, index, dy + 1, -1),
{
    assert forall|b: int|
        0 <= b < base.plane() && grow[b] && !base.visited(b) && #[trigger] grid_adjacent(width, index, b)
            && offset_before(width, index, b, dy + 1, -1) implies ctx.visited(b) by {
        assert(offset_before(width, index, b, dy, 2));
    }
}

proof fn lemma_enqueue(
    pre: PostprocessContext,
    post: PostprocessContext,
    base: PostprocessContext,
    grow: Seq<bool>,
    width: int,
    start: int,
    tail: int,
    next: usize,
    head: int,
    index: usize,
)
    requires
        bfs_queue_ok(pre, base, grow, width, start, tail),
        0 < head <= tail,
        pre.queue@[head - 1] == index,
        (next as int) < base.plane(),
        grow[next as int],
        !pre.visited(next as int),
        grid_adjacent(width, index as int, next as int),
        tail < pre.queue@.len(),
        post.queue@ == pre.queue@.update(tail, next),
        post.visited_epoch@ == pre.visited_epoch@.update(next as int, pre.current_epoch),
        post.current_epoch == pre.current_epoch,
        post.component@ == pre.component@,
    ensures
        bfs_queue_ok(post, base, grow, width, start, tail + 1),
        forall|b: int| 0 <= b < base.plane() ==> (pre.visited(b) ==> #[trigger] post.visited(b)),
        post.visited(next as int),
{
    let q = pre.queue@;
    let q2 = post.queue@;
    let plane = base.plane() as int;
    lemma_in_prefix_update(q, tail, next);
    assert(!in_prefix(q, tail, next as int));
    assert forall|i: int| 0 <= i < tail implies q[i] != next by {
        if q[i] == next {
            assert(in_prefix(q, tail, next as int));
        }
    }
    assert forall|i: int, j: int| 0 <= i < j < tail + 1 implies q2[i] != q2[j] by {
        if j == tail {
        } else {
        }
    }
    assert forall|i: int| 1 <= i < tail + 1 implies #[trigger] grow[q2[i] as int] && !base.visited(
        q2[i] as int,
    ) by {
        if i < tail {
            assert(q2[i] == q[i]);
        } else {
            assert(!base.visited(next as int));
        }
    }
    assert forall|i: int|
        #![trigger q2[i]]
        1 <= i < tail + 1 implies exists|j: int|
        #![trigger q2[j]]
        0 <= j < i && grid_adjacent(width, q2[j] as int, q2[i] as int) by {
        if i < tail {
            assert(q2[i] == q[i]);
            let j = choose|j: int| #![trigger q[j]] 0 <= j < i && grid_adjacent(width, q[j] as int, q[i] as int);
            assert(q2[j] == q[j]);
        } else {
            assert(q2[head - 1] == index);
        }
    }
    assert forall|b: int| 0 <= b < plane implies (#[trigger] post.visited(b) <==> (base.visited(b)
        || in_prefix(q2, tail + 1, b))) by {
        assert(in_prefix(q2, tail + 1, b) <==> (in_prefix(q, tail, b) || b == next as int));
        if b == next as int {
        } else {
            assert(post.visited_epoch@[b] == pre.visited_epoch@[b]);
            assert(pre.visited(b) <==> (base.visited(b) || in_prefix(q, tail, b)));
        }
    }
    assert forall|b: int| 0 <= b < base.plane() implies (pre.visited(b) ==> #[trigger] post.visited(b)) by {
        if b != next as int {
            assert(post.visited_epoch@[b] == pre.visited_epoch@[b]);
        }
    }
    assert forall|i: int| 0 <= i < post.visited_epoch@.len() implies post.visited_epoch@[i]
        <= post.current_epoch by {
        if i != next as int {
            assert(post.visited_epoch@[i] == pre.visited_epoch@[i]);
        }
    }
}

impl PostprocessContext {
    /// Enqueues every not yet visited growable neighbour of cell `index`, in row-then-column
    /// order, and returns the new queue length.
    fn visit_neighbors(
        &mut self,
        grow: &[bool],
        width: usize,
        height: usize,
        index: usize,
        tail: usize,
        Ghost(base): Ghost<PostprocessContext>,
        Ghost(start): Ghost<int>,
        Ghost(head): Ghost<int>,
    ) -> (new_tail: usize)
        requires
            bfs_queue_ok(*old(self), base, grow@, width as int, start, tail as int),
            base.plane() == width * height,
            grow@.len() == width * height,
            0 < width <= i32::MAX,
            height <= i32::MAX,
            0 < head <= tail,
            old(self).queue@[head - 1] == index,
            bfs_ordered(old(self).queue@, width as int, tail as int),
            forall|i: int, p: int|
                1 <= i < tail && #[trigger] is_parent(old(self).queue@, width as int, i, p) ==> p < head - 1,
            forall|j: int, b: int|
                0 <= j < head - 1 && 0 <= b < base.plane() && grow@[b] && !base.visited(b)
                    && #[trigger] grid_adjacent(width as int, old(self).queue@[j] as int, b) ==> old(self).visited(b),
        ensures
            bfs_queue_ok(*final(self), base, grow@, width as int, start, new_tail as int),
            bfs_ordered(final(self).queue@, width as int, new_tail as int),
            forall|i: int, p: int|
                1 <= i < new_tail && #[trigger] is_parent(final(self).queue@, width as int, i, p) ==> p < head,
            tail <= new_tail,
            final(self).queue@.subrange(0, tail as int) == old(self).queue@.subrange(0, tail as int),
            final(self).component@ == old(self).component@,
            forall|b: int|
                0 <= b < base.plane() ==> (old(self).visited(b) ==> #[trigger] final(self).visited(b)),
            scanned_before(*final(self), base, grow@, width as int, index as int, 2, -1),
    {
        let ghost w = width as int;
        let ghost h = height as int;
        let ghost plane = w * h;
        let ghost vis0 = *old(self);
        let grow_len = grow.len();
        assert(plane <= usize::MAX);
        proof {
            lemma_cell_in_grid(w, h, index as int);
        }
        let epoch = self.current_epoch;
        let x = (index % width) as i32;
        let y = (index / width) as i32;
        let old_tail = tail;
        let mut tail = tail;
        let ghost hp = head - 1;
        let mut dy: i32 = -1;
        assert(scanned_before(*self, base, grow@, w, index as int, -1, -1)) by {
            assert forall|b: int|
                0 <= b < base.plane() && grow@[b] && !base.visited(b) && #[trigger] grid_adjacent(
                    w,
                    index as int,
                    b,
                ) && offset_before(w, index as int, b, -1, -1) implies self.visited(b) by {
            }
        }
        while dy <= 1
            invariant
                -1 <= dy <= 2,
                bfs_queue_ok(*self, base, grow@, w, start, tail as int),
                base.plane() == plane,
                plane == width * height,
                plane <= usize::MAX,
                grow@.len() == plane,
                w == width,
                h == height,
                0 < w <= i32::MAX,
                h <= i32::MAX,
                epoch == self.current_epoch,
                x as int == index as int % w,
                y as int == index as int / w,
                0 <= x < w,
                0 <= y < h,
                0 < head <= tail,
                head <= old_tail,
                self.queue@.len() == vis0.queue@.len(),
                vis0.queue@[head - 1] == index,
                vis0.queue@.subrange(0, old_tail as int) == self.queue@.subrange(0, old_tail as int),
                old_tail <= tail,
                self.component@ == vis0.component@,
                forall|b: int| 0 <= b < plane ==> (vis0.visited(b) ==> #[trigger] self.visited(b)),
                scanned_before(*self, base, grow@, w, index as int, dy as int, -1),
                hp == head - 1,
                bfs_ordered(self.queue@, w, tail as int),
                forall|i: int, p: int| 1 <= i < old_tail && #[trigger] is_parent(self.queue@, w, i, p) ==> p < hp,
                queued_from(self.queue@, w, index as int, hp, old_tail as int, tail as int, dy as int, -1),
                forall|j: int, b: int|
                    0 <= j < hp && 0 <= b < plane && grow@[b] && !base.visited(b) && #[trigger] grid_adjacent(
                        w,
                        vis0.queue@[j] as int,
                        b,
                    ) ==> vis0.visited(b),
            decreases 2 - dy,
        {
            let mut dx: i32 = -1;
            while dx <= 1
                invariant
                    -1 <= dy <= 1,
                    -1 <= dx <= 2,
                    bfs_queue_ok(*self, base, grow@, w, start, tail as int),
                    base.plane() == plane,
                    plane == width * height,
                    plane <= usize::MAX,
                    grow@.len() == plane,
                    w == width,
                    h == height,
                    0 < w <= i32::MAX,
                    h <= i32::MAX,
                    epoch == self.current_epoch,
                    x as int == index as int % w,
                    y as int == index as int / w,
                    0 <= x < w,
                    0 <= y < h,
                    0 < head <= tail,
                    head <= old_tail,
                    self.queue@.len() == vis0.queue@.len(),
                    vis0.queue@[head - 1] == index,
                    vis0.queue@.subrange(0, old_tail as int) == self.queue@.subrange(0, old_tail as int),
                    old_tail <= tail,
                    self.component@ == vis0.component@,
                    forall|b: int| 0 <= b < plane ==> (vis0.visited(b) ==> #[trigger] self.visited(b)),
                    scanned_before(*self, base, grow@, w, index as int, dy as int, dx as int),
                    hp == head - 1,
                    bfs_ordered(self.queue@, w, tail as int),
                    forall|i: int, p: int| 1 <= i < old_tail && #[trigger] is_parent(self.queue@, w, i, p) ==> p < hp,
                    queued_from(self.queue@, w, index as int, hp, old_tail as int, tail as int, dy as int, dx as int),
                    forall|j: int, b: int|
                        0 <= j < hp && 0 <= b < plane && grow@[b] && !base.visited(b) && #[trigger] grid_adjacent(
                            w,
                            vis0.queue@[j] as int,
                            b,
                        ) ==> vis0.visited(b),
                decreases 2 - dx,
            {
                let ghost pre = *self;
                let ghost t0 = tail;
                if !(dx == 0 && dy == 0) {
                    let nx = x + dx;
                    let ny = y + dy;
                    if !(nx < 0 || nx >= width as i32 || ny < 0 || ny >= height as i32) {
                        proof {
                            lemma_grid_cell(nx as int, ny as int, w, h);
                        }
                        let next = ny as usize * width + nx as usize;
                        if self.visited_epoch[next] != epoch && grow[next] {
                            let ghost qb = self.queue@;
                            assert(qb[head - 1] == index) by {
                                assert(qb.subrange(0, old_tail as int)[head - 1] == vis0.queue@.subrange(
                                    0,
                                    old_tail as int,
                                )[head - 1]);
                            }
                            assert(grid_adjacent(w, index as int, next as int)) by {
                                if next == index {
                                }
                            }
                            assert(!self.visited(next as int));
                            assert(!in_prefix(qb, tail as int, next as int));
                            assert forall|i: int| 0 <= i < tail implies qb[i] != next by {
                                if qb[i] == next {
                                    assert(in_prefix(qb, tail as int, next as int));
                                }
                            }
                            proof {
                                lemma_queue_has_room(qb, tail as int, plane, next);
                                assert(!vis0.visited(next as int));
                                assert(!base.visited(next as int));
                                assert forall|j: int| 0 <= j < hp implies !grid_adjacent(
                                    w,
                                    #[trigger] qb[j] as int,
                                    next as int,
                                ) by {
                                    assert(qb[j] == qb.subrange(0, old_tail as int)[j]);
                                    assert(vis0.queue@[j] == vis0.queue@.subrange(0, old_tail as int)[j]);
                                    if grid_adjacent(w, qb[j] as int, next as int) {
                                        assert(grid_adjacent(w, vis0.queue@[j] as int, next as int));
                                    }
                                }
                                assert(next as int / w - index as int / w == dy);
                                assert(next as int % w - index as int % w == dx);
                            }
                            self.visited_epoch.set(next, epoch);
                            self.queue.set(tail, next);
                            proof {
                                lemma_enqueue_order(qb, self.queue@, w, tail as int, next, hp, index, old_tail as int, dy as int, dx as int);
                                lemma_enqueue(pre, *self, base, grow@, w, start, tail as int, next, head, index);
                                assert(self.queue@.subrange(0, old_tail as int) == qb.subrange(0, old_tail as int));
                            }
                            tail += 1;
                        }
                        assert(offset_handled(*self, base, grow@, w, index as int, dy as int, dx as int)) by {
                            assert forall|b: int|
                                0 <= b < base.plane() && grow@[b] && !base.visited(b) && #[trigger] grid_adjacent(
                                    w,
                                    index as int,
                                    b,
                                ) && b / w - (index as int) / w == dy && b % w - (index as int) % w == dx implies self.visited(b) by {
                                lemma_same_cell(w, b, next as int);
                            }
                        }
                    } else {
                        assert(offset_handled(*self, base, grow@, w, index as int, dy as int, dx as int)) by {
                            assert forall|b: int|
                                0 <= b < base.plane() && grow@[b] && !base.visited(b) && #[trigger] grid_adjacent(
                                    w,
                                    index as int,
                                    b,
                                ) && b / w - (index as int) / w == dy && b % w - (index as int) % w == dx implies self.visited(b) by {
                                lemma_cell_in_grid(w, h, b);
                            }
                        }
                    }
                } else {
                    assert(offset_handled(*self, base, grow@, w, index as int, dy as int, dx as int)) by {
                        assert forall|b: int|
                            0 <= b < base.plane() && grow@[b] && !base.visited(b) && #[trigger] grid_adjacent(
                                w,
                                index as int,
                                b,
                            ) && b / w - (index as int) / w == dy && b % w - (index as int) % w == dx implies self.visited(b) by {
                            lemma_same_cell(w, b, index as int);
                        }
                    }
                }
                proof {
                    lemma_scan_step(pre, *self, base, grow@, w, index as int, dy as int, dx as int);
                    if tail == t0 {
                        lemma_queued_from_advance(
                            self.queue@,
                            w,
                            index as int,
                            hp,
                            old_tail as int,
                            tail as int,
                            dy as int,
                            dx as int,
                            dy as int,
                            dx + 1,
                        );
                    }
                }
                dx += 1;
            }
            proof {
                lemma_scan_next_row(*self, base, grow@, w, index as int, dy as int);
                lemma_queued_from_advance(
                    self.queue@,
                    w,
                    index as int,
                    hp,
                    old_tail as int,
                    tail as int,
                    dy as int,
                    2,
                    dy + 1,
                    -1,
                );
            }
            dy += 1;
        }
        proof {
            assert forall|i: int, p: int|
                1 <= i < tail && #[trigger] is_parent(self.queue@, w, i, p) implies p < head by {
                if i >= old_tail {
                    assert(is_parent(self.queue@, w, i, hp));
                    lemma_parent_unique(self.queue@, w, i, p, hp);
                }
            }
        }
        tail
    }
}


proof fn lemma_in_prefix_same(q1: Seq<usize>, q2: Seq<usize>, tail: int, n: int)
    requires
        0 <= n <= tail <= q1.len(),
        tail <= q2.len(),
        q1.subrange(0, tail) == q2.subrange(0, tail),
    ensures
        forall|b: int| in_prefix(q1, n, b) <==> in_prefix(q2, n, b),
        forall|i: int| 0 <= i < tail ==> q1[i] == q2[i],
{
    assert forall|i: int| 0 <= i < tail implies q1[i] == q2[i] by {
        assert(q1.subrange(0, tail)[i] == q1[i]);
        assert(q2.subrange(0, tail)[i] == q2[i]);
        assert(q1.subrange(0, tail)[i] == q2.subrange(0, tail)[i]);
    }
    assert forall|b: int| in_prefix(q1, n, b) <==> in_prefix(q2, n, b) by {
        if in_prefix(q1, n, b) {
            let j = choose|j: int| 0 <= j < n && q1[j] as int == b;
            assert(q2[j] as int == b);
        }
        if in_prefix(q2, n, b) {
            let j = choose|j: int| 0 <= j < n && q2[j] as int == b;
            assert(q1[j] as int == b);
        }
    }
}

proof fn lemma_in_prefix_empty(q: Seq<usize>)
    ensures
        forall|b: int| !in_prefix(q, 0, b),
{
}

proof fn lemma_bfs_ok_marks_change(
    pre: PostprocessContext,
    mid: PostprocessContext,
    base: PostprocessContext,
    grow: Seq<bool>,
    width: int,
    start: int,
    tail: int,
)
    requires
        bfs_queue_ok(pre, base, grow, width, start, tail),
        mid.queue == pre.queue,
        mid.visited_epoch == pre.visited_epoch,
        mid.current_epoch == pre.current_epoch,
        mid.component@.len() == pre.component@.len(),
    ensures
        bfs_queue_ok(mid, base, grow, width, start, tail),
        forall|b: int| mid.visited(b) == pre.visited(b),
{
    assert forall|b: int| mid.visited(b) == pre.visited(b) by {
    }
}

impl Default for PostprocessContext {
    fn default() -> (ctx: Self)
        ensures
            ctx.at_rest(),
            ctx.plane() == 0,
            ctx.epoch() == 0,
    {
        PostprocessContext {
            visited_epoch: Vec::new(),
            current_epoch: 0,
            component: Vec::new(),
            queue: Vec::new(),
        }
    }
}

impl PostprocessContext {
    /// Prepares the context for a pass over a plane of `plane` cells: the buffers are sized
    /// to the plane and the epoch moves on, so that no cell counts as visited. Returns the
    /// epoch of the new pass: the next one, or 1 when the plane changed size or the epochs
    /// ran out (then every stamp is cleared).
    pub fn begin_pass(&mut self, plane: usize) -> (epoch: u32)
        requires
            old(self).at_rest(),
        ensures
            final(self).at_rest(),
            final(self).plane() == plane,
            final(self).epoch() == epoch,
            epoch == if old(self).plane() != plane || old(self).epoch() == u32::MAX {
                1
            } else {
                old(self).epoch() + 1
            },
            forall|i: int| 0 <= i < plane ==> !#[trigger] final(self).visited(i),
    {
        let ghost orig = *old(self);
        assert forall|i: int| 0 <= i < orig.plane() implies orig.component@[i] == 0 by {
            assert(!orig.marked(i));
        }
        if self.visited_epoch.len() != plane {
            self.visited_epoch = vec![0; plane];
            self.current_epoch = 0;
            assert forall|i: int| 0 <= i < plane implies self.visited_epoch@[i] == 0 by {
                assert(cloned(0u32, self.visited_epoch@[i]));
            }
        }
        if self.component.len() != plane {
            self.component = vec![0; plane];
            assert forall|i: int| 0 <= i < plane implies self.component@[i] == 0 by {
                assert(cloned(0u8, self.component@[i]));
            }
        }
        if self.queue.len() != plane {
            self.queue.resize(plane, 0);
        }
        let ghost prev_epoch = self.current_epoch;
        assert(self.visited_epoch@.len() == plane);
        assert(self.component@.len() == plane);
        assert(self.queue@.len() == plane);
        assert(forall|i: int| 0 <= i < plane ==> self.visited_epoch@[i] <= prev_epoch);
        assert(forall|i: int| 0 <= i < plane ==> self.component@[i] == 0);
        assert forall|i: int| 0 <= i < plane implies !self.marked(i) by {
            assert(self.component@[i] == 0);
        }
        self.current_epoch = self.current_epoch.wrapping_add(1);
        assert(self.current_epoch != 0 ==> self.current_epoch == prev_epoch + 1);
        if self.current_epoch == 0 {
            let ghost comp = self.component@;
            let ghost qu = self.queue@;
            let mut i: usize = 0;
            while i < self.visited_epoch.len()
                invariant
                    self.component@ == comp,
                    self.queue@ == qu,
                    0 <= i <= self.visited_epoch@.len(),
                    self.visited_epoch@.len() == plane,
                    forall|j: int| 0 <= j < i ==> self.visited_epoch@[j] == 0,
                decreases self.visited_epoch@.len() - i,
            {
                self.visited_epoch.set(i, 0);
                i += 1;
            }
            self.current_epoch = 1;
        }
        assert(forall|i: int| 0 <= i < plane ==> self.visited_epoch@[i] < self.current_epoch);
        assert forall|i: int| 0 <= i < plane implies !self.marked(i) by {
            assert(self.component@[i] == 0);
        }
        self.current_epoch
    }

    /// Flood-fills, breadth first, the 8-connected component of `start` among the cells that
    /// are set in `grow` and not yet visited in this pass, marking its cells; returns the
    /// number of cells, which stand in this order at the front of the queue.
    fn fill_component(&mut self, grow: &[bool], width: usize, height: usize, start: usize) -> (tail:
        usize)
        requires
            old(self).at_rest(),
            old(self).plane() == width * height,
            grow@.len() == width * height,
            start < width * height,
            !old(self).visited(start as int),
            width <= i32::MAX,
            height <= i32::MAX,
        ensures
            fills_component(*old(self), *final(self), grow@, width as int, start as int, tail as int),
    {
        let ghost base = *old(self);
        let ghost w = width as int;
        let ghost plane = base.plane() as int;
        assert(0 < w) by (nonlinear_arith)
            requires
                0 <= start < w * height,
                0 <= height,
                0 <= w,
        ;
        let epoch = self.current_epoch;
        self.queue.set(0, start);
        self.visited_epoch.set(start, epoch);
        proof {
            lemma_in_prefix_empty(self.queue@);
            lemma_in_prefix_extend(self.queue@, 0);
            assert(self.queue@[0] == start);
            assert forall|b: int| 0 <= b < plane implies (#[trigger] self.visited(b) <==> (base.visited(b)
                || in_prefix(self.queue@, 1, b))) by {
                if b != start as int {
                    assert(self.visited_epoch@[b] == base.visited_epoch@[b]);
                }
            }
            assert forall|i: int| 0 <= i < self.visited_epoch@.len() implies self.visited_epoch@[i]
                <= self.current_epoch by {
                if i != start as int {
                    assert(self.visited_epoch@[i] == base.visited_epoch@[i]);
                }
            }
        }
        proof {
            lemma_in_prefix_empty(self.queue@);
            assert(self.component@ == base.component@);
            assert forall|b: int| 0 <= b < plane implies !self.marked(b) by {
                assert(!base.marked(b));
            }
        }
        let mut head: usize = 0;
        let mut tail: usize = 1;
        while head < tail
            invariant
                bfs_queue_ok(*self, base, grow@, w, start as int, tail as int),
                base.at_rest(),
                base.plane() == width * height,
                grow@.len() == width * height,
                w == width,
                0 < width <= i32::MAX,
                height <= i32::MAX,
                0 <= head <= tail,
                plane == base.plane(),
                forall|i: int, b: int|
                    0 <= i < head && 0 <= b < plane && grow@[b] && !base.visited(b) && #[trigger] grid_adjacent(
                        w,
                        self.queue@[i] as int,
                        b,
                    ) ==> self.visited(b),
                forall|b: int|
                    0 <= b < plane ==> (#[trigger] self.marked(b) <==> in_prefix(self.queue@, head as int, b)),
                bfs_ordered(self.queue@, w, tail as int),
                forall|i: int, p: int| 1 <= i < tail && #[trigger] is_parent(self.queue@, w, i, p) ==> p < head,
            decreases plane - head,
        {
            let ghost q_pre = self.queue@;
            let ghost pre = *self;
            let index = self.queue[head];
            head += 1;
            self.component.set(index, 1);
            proof {
                lemma_in_prefix_extend(q_pre, head - 1);
            }
            let ghost mid = *self;
            proof {
                lemma_bfs_ok_marks_change(pre, mid, base, grow@, w, start as int, tail as int);
                assert(mid.component@ == pre.component@.update(index as int, 1u8));
            }
            let ghost prev_tail = tail as int;
            proof {
                assert forall|j: int, b: int|
                    0 <= j < head - 1 && 0 <= b < base.plane() && grow@[b] && !base.visited(b)
                        && #[trigger] grid_adjacent(w, mid.queue@[j] as int, b) implies mid.visited(b) by {
                    assert(grid_adjacent(w, pre.queue@[j] as int, b));
                    assert(pre.visited(b));
                }
            }
            tail = self.visit_neighbors(grow, width, height, index, tail, Ghost(base), Ghost(start as int), Ghost(head as int));
            proof {
                let q = self.queue@;
                lemma_in_prefix_same(q_pre, q, prev_tail, head as int);
                assert forall|b: int| 0 <= b < plane implies (#[trigger] self.marked(b) <==> in_prefix(
                    q,
                    head as int,
                    b,
                )) by {
                    assert(mid.marked(b) == self.marked(b));
                    assert(pre.marked(b) <==> in_prefix(q_pre, head - 1, b));
                    assert(in_prefix(q_pre, head as int, b) <==> (in_prefix(q_pre, head - 1, b) || b == index as int));
                    if b != index as int {
                        assert(mid.component@[b] == pre.component@[b]);
                    }
                }
                assert forall|i: int, b: int|
                    0 <= i < head && 0 <= b < plane && grow@[b] && !base.visited(b) && #[trigger] grid_adjacent(
                        w,
                        q[i] as int,
                        b,
                    ) implies self.visited(b) by {
                    assert(q[i] == q_pre[i]);
                    if i < head - 1 {
                        assert(pre.visited(b));
                        assert(mid.visited(b));
                    } else {
                        assert(q_pre[i] == index);
                        assert(offset_before(w, index as int, b, 2, -1));
                    }
                }
            }
        }
        proof {
            let q = self.queue@;
            assert forall|i: int, b: int|
                0 <= i < tail && 0 <= b < plane && grow@[b] && !base.visited(b) && #[trigger] grid_adjacent(
                    w,
                    q[i] as int,
                    b,
                ) implies in_prefix(q, tail as int, b) by {
                assert(self.visited(b));
            }
        }
        tail
    }
}


proof fn lemma_prefix_min_le(q: Seq<usize>, n: int, j: int)
    requires
        0 <= j < n,
    ensures
        prefix_min(q, n) <= q[j] as int,
    decreases n,
{
    if n > 1 && j < n - 1 {
        lemma_prefix_min_le(q, n - 1, j);
    }
}

proof fn lemma_prefix_min_in_prefix(q: Seq<usize>, n: int)
    requires
        1 <= n <= q.len(),
    ensures
        in_prefix(q, n, crate::contour::prefix_min(q, n)),
    decreases n,
{
    if n == 1 {
        assert(q[0] as int == prefix_min(q, 1));
    } else {
        lemma_prefix_min_in_prefix(q, n - 1);
        let m = prefix_min(q, n - 1);
        if (q[n - 1] as int) < m {
            assert(q[n - 1] as int == prefix_min(q, n));
        } else {
            let j = choose|j: int| 0 <= j < n - 1 && q[j] as int == m;
            assert(0 <= j < n && q[j] as int == prefix_min(q, n));
        }
    }
}

impl PostprocessContext {
    /// Scans the cells `from, from + 1, ...` of the plane for the first one that is set in
    /// `seed` and not yet visited in this pass, and flood-fills its component (see
    /// [`fills_component`]). Returns that cell and the component's size, or `None` when no
    /// cell from `from` on qualifies.
    pub fn next_component(
        &mut self,
        seed: &[bool],
        grow: &[bool],
        width: usize,
        height: usize,
        from: usize,
    ) -> (found: Option<(usize, usize)>)
        requires
            old(self).at_rest(),
            old(self).plane() == width * height,
            seed@.len() == width * height,
            grow@.len() == width * height,
            width <= i32::MAX,
            height <= i32::MAX,
        ensures
            found is None ==> {
                &&& *final(self) == *old(self)
                &&& forall|s: int|
                    from <= s < old(self).plane() ==> #[trigger] old(self).visited(s) || !seed@[s]
            },
            found matches Some((start, tail)) ==> {
                &&& from <= start < old(self).plane()
                &&& seed@[start as int]
                &&& !old(self).visited(start as int)
                &&& forall|s: int| from <= s < start ==> #[trigger] old(self).visited(s) || !seed@[s]
                &&& fills_component(*old(self), *final(self), grow@, width as int, start as int, tail as int)
            },
    {
        let plane = self.visited_epoch.len();
        let epoch = self.current_epoch;
        let mut start = from;
        while start < plane
            invariant
                *self == *old(self),
                old(self).at_rest(),
                old(self).plane() == width * height,
                seed@.len() == plane,
                grow@.len() == plane,
                width <= i32::MAX,
                height <= i32::MAX,
                plane == self.plane(),
                epoch == self.current_epoch,
                from <= start,
                forall|s: int| from <= s < start ==> #[trigger] old(self).visited(s) || !seed@[s],
            decreases plane - start,
        {
            if !(self.visited_epoch[start] == epoch || !seed[start]) {
                let tail = self.fill_component(grow, width, height, start);
                return Some((start, tail));
            }
            start += 1;
        }
        None
    }

    /// Unmarks the first `tail` queued cells; when those are exactly the marked cells, the
    /// context is at rest again, with visits and queue unchanged.
    pub fn clear_component(&mut self, tail: usize)
        requires
            old(self).consistent(),
            tail <= old(self).plane(),
            forall|i: int| 0 <= i < tail ==> (#[trigger] old(self).queued()[i] as int) < old(self).plane(),
            forall|b: int|
                0 <= b < old(self).plane() ==> (#[trigger] old(self).marked(b) ==> in_prefix(
                    old(self).queued(),
                    tail as int,
                    b,
                )),
        ensures
            final(self).at_rest(),
            final(self).plane() == old(self).plane(),
            final(self).epoch() == old(self).epoch(),
            final(self).queued() == old(self).queued(),
            forall|b: int| #[trigger] final(self).visited(b) == old(self).visited(b),
    {
        let ghost orig = *old(self);
        assert forall|k: int| 0 <= k < tail implies (#[trigger] orig.queue@[k] as int) < orig.plane() by {
            assert((orig.queued()[k] as int) < orig.plane());
        }
        assert forall|b: int| 0 <= b < orig.plane() implies (#[trigger] self.component@[b] != 0 ==> in_prefix(
            orig.queue@,
            tail as int,
            b,
        )) by {
            assert(orig.marked(b) ==> in_prefix(orig.queued(), tail as int, b));
        }
        let mut i: usize = 0;
        while i < tail
            invariant
                0 <= i <= tail <= orig.plane(),
                self.queue@ == orig.queue@,
                self.visited_epoch@ == orig.visited_epoch@,
                self.current_epoch == orig.current_epoch,
                self.component@.len() == orig.component@.len(),
                orig.consistent(),
                forall|k: int| 0 <= k < tail ==> (#[trigger] orig.queue@[k] as int) < orig.plane(),
                forall|b: int|
                    0 <= b < orig.plane() ==> (#[trigger] self.component@[b] != 0 ==> in_prefix(
                        orig.queue@,
                        tail as int,
                        b,
                    )),
                forall|k: int| 0 <= k < i ==> self.component@[#[trigger] orig.queue@[k] as int] == 0,
            decreases tail - i,
        {
            let cell = self.queue[i];
            self.component.set(cell, 0);
            i += 1;
        }
        assert forall|b: int| 0 <= b < self.plane() implies !self.marked(b) by {
            if self.component@[b] != 0 {
                let k = choose|k: int| 0 <= k < tail && orig.queue@[k] as int == b;
                assert(self.component@[orig.queue@[k] as int] == 0);
            }
        }
        assert forall|b: int| #[trigger] self.visited(b) == orig.visited(b) by {
        }
    }

    /// Traces the boundary of the component formed by the first `tail` queued cells (see
    /// [`trace_contour`]); every traced point is a cell of that component.
    pub fn trace_component(&self, tail: usize, width: usize, height: usize) -> (contour: Vec<
        IntPoint,
    >)
        requires
            self.consistent(),
            self.plane() == width * height,
            1 <= tail <= self.plane(),
            tail * 8 <= usize::MAX,
            width <= i32::MAX,
            height <= i32::MAX,
            forall|i: int| 0 <= i < tail ==> (#[trigger] self.queued()[i] as int) < width * height,
            forall|b: int|
                0 <= b < self.plane() ==> (#[trigger] self.marked(b) <==> in_prefix(
                    self.queued(),
                    tail as int,
                    b,
                )),
        ensures
            is_traced_contour(
                contour@,
                self.marks(),
                self.queued(),
                tail as int,
                width as int,
                height as int,
            ),
            forall|k: int|
                0 <= k < contour@.len() ==> in_prefix(
                    self.queued(),
                    tail as int,
                    (#[trigger] contour@[k]).y * width + contour@[k].x,
                ),
            forall|k: int|
                0 <= k < contour@.len() ==> is_foreground(
                    self.marks(),
                    width as int,
                    height as int,
                    contour@[k].x as int,
                    contour@[k].y as int,
                ) && on_boundary(
                    self.marks(),
                    width as int,
                    height as int,
                    #[trigger] contour@[k].x as int,
                    contour@[k].y as int,
                ),
    {
        proof {
            assert forall|i: int| 0 <= i < tail implies (#[trigger] self.queue@[i] as int) < width * height by {
                assert((self.queued()[i] as int) < width * height);
            }
        }
        let contour = trace_contour(&self.component, &self.queue, tail, width, height);
        proof {
            let q = self.queue@;
            let w = width as int;
            assert((q[0] as int) < w * height);
            lemma_prefix_min_in_prefix(q, tail as int);
            let m = prefix_min(q, tail as int);
            assert(0 < w) by (nonlinear_arith)
                requires
                    0 <= q[0] as int,
                    (q[0] as int) < w * height,
                    0 <= height,
                    0 <= w,
            ;
            vstd::arithmetic::div_mod::lemma_fundamental_div_mod(m, w);
            assert forall|k: int| 0 <= k < contour@.len() implies in_prefix(
                q,
                tail as int,
                (#[trigger] contour@[k]).y * width + contour@[k].x,
            ) by {
                if k == 0 {
                    assert(0 <= m < w * height);
                    lemma_cell_in_grid(w, height as int, m);
                    assert(contour@[0].y == m / w);
                    assert(contour@[0].x == m % w);
                    assert(contour@[0].y * w + contour@[0].x == m) by (nonlinear_arith)
                        requires
                            contour@[0].y == m / w,
                            contour@[0].x == m % w,
                            m == w * (m / w) + m % w,
                    ;
                } else {
                    let cell = contour@[k].y * w + contour@[k].x;
                    lemma_grid_cell(contour@[k].x as int, contour@[k].y as int, w, height as int);
                    assert(self.marked(cell));
                    assert(in_prefix(q, tail as int, cell));
                }
            }
            assert(in_prefix(q, tail as int, m));
            assert(self.marked(m));
            assert forall|b: int| 0 <= b < m implies self.marks()[b] == 0 by {
                if self.marks()[b] != 0 {
                    assert(self.marked(b));
                    let j = choose|j: int| 0 <= j < tail && q[j] as int == b;
                    lemma_prefix_min_le(q, tail as int, j);
                }
            }
            lemma_contour_on_boundary(contour@, self.marks(), q, tail as int, w, height as int);
        }
        contour
    }

    /// The first `tail` queued cells, in breadth-first order.
    pub fn component_pixels(&self, tail: usize) -> (pixels: &[usize])
        requires
            tail <= self.queued().len(),
        ensures
            pixels@ == self.queued().subrange(0, tail as int),
    {
        vstd::slice::slice_subrange(self.queue.as_slice(), 0, tail)
    }
}

} // verus!
