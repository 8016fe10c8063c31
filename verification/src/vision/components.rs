//! Connected regions of a binary mask: the text detector's thresholded
//! probability map is split into 4-connected regions, and each region is
//! reported by its bounding box.
use vstd::prelude::*;
use vstd::arithmetic::div_mod::lemma_fundamental_div_mod_converse;

verus! {

/// A pixel of a `w` by `h` grid, as (column, row).
pub type Pixel = (int, int);

/// Whether a pixel lies inside the grid.
pub open spec fn in_grid(w: int, h: int, p: Pixel) -> bool {
    0 <= p.0 < w && 0 <= p.1 < h
}

/// The row-major position of a pixel.
pub open spec fn pos(w: int, p: Pixel) -> int {
    p.1 * w + p.0
}

/// The pixel at a row-major position.
pub open spec fn pixel_at(w: int, k: int) -> Pixel {
    (k % w, k / w)
}

/// Whether a pixel is set in the mask.
pub open spec fn on(mask: Seq<bool>, w: int, h: int, p: Pixel) -> bool {
    in_grid(w, h, p) && mask[pos(w, p)]
}

/// Whether two pixels share an edge.
pub open spec fn adjacent(p: Pixel, q: Pixel) -> bool {
    (p.1 == q.1 && (p.0 == q.0 + 1 || q.0 == p.0 + 1)) || (p.0 == q.0 && (p.1 == q.1 + 1 || q.1 == p.1 + 1))
}

/// Whether consecutive pixels `i` and `i + 1` of a path share an edge.
pub open spec fn step_ok(path: Seq<Pixel>, i: int) -> bool {
    adjacent(path[i], path[i + 1])
}

/// Whether a sequence of set pixels goes from edge to edge.
pub open spec fn is_path(mask: Seq<bool>, w: int, h: int, path: Seq<Pixel>) -> bool {
    &&& path.len() > 0
    &&& forall|i: int| 0 <= i < path.len() ==> on(mask, w, h, #[trigger] path[i])
    &&& forall|i: int| 0 <= i < path.len() - 1 ==> #[trigger] step_ok(path, i)
}

/// Whether two set pixels lie in one 4-connected region.
pub open spec fn connected(mask: Seq<bool>, w: int, h: int, a: Pixel, b: Pixel) -> bool {
    exists|path: Seq<Pixel>| #[trigger] is_path(mask, w, h, path) && path[0] == a && path[path.len() - 1] == b
}

/// Whether `p` comes before `q` in row-major order.
pub open spec fn before(p: Pixel, q: Pixel) -> bool {
    p.1 < q.1 || (p.1 == q.1 && p.0 < q.0)
}

/// Whether a set pixel is the first of its region in row-major order.
pub open spec fn is_first(mask: Seq<bool>, w: int, h: int, p: Pixel) -> bool {
    on(mask, w, h, p) && forall|q: Pixel| before(q, p) ==> !#[trigger] connected(mask, w, h, q, p)
}

/// The first pixels of the regions met among the first `k` positions, in order.
pub open spec fn firsts(mask: Seq<bool>, w: int, h: int, k: int) -> Seq<Pixel>
    decreases k,
{
    if k <= 0 {
        seq![]
    } else {
        firsts(mask, w, h, k - 1) + if is_first(mask, w, h, pixel_at(w, k - 1)) {
            seq![pixel_at(w, k - 1)]
        } else {
            seq![]
        }
    }
}

/// Whether `b` = (min column, min row, max column, max row) is the bounding
/// box of the region of `s`.
pub open spec fn is_box(mask: Seq<bool>, w: int, h: int, s: Pixel, b: (usize, usize, usize, usize)) -> bool {
    &&& forall|q: Pixel| #[trigger] connected(mask, w, h, s, q) ==> b.0 <= q.0 <= b.2 && b.1 <= q.1 <= b.3
    &&& exists|q: Pixel| #[trigger] connected(mask, w, h, s, q) && q.0 == b.0
    &&& exists|q: Pixel| #[trigger] connected(mask, w, h, s, q) && q.1 == b.1
    &&& exists|q: Pixel| #[trigger] connected(mask, w, h, s, q) && q.0 == b.2
    &&& exists|q: Pixel| #[trigger] connected(mask, w, h, s, q) && q.1 == b.3
}

/// Whether a pixel is marked in a visited map laid out like the mask.
pub open spec fn seen(v: Seq<bool>, w: int, p: Pixel) -> bool {
    v[pos(w, p)]
}

/// Whether every set neighbour of a marked pixel is marked.
pub open spec fn closed(mask: Seq<bool>, v: Seq<bool>, w: int, h: int) -> bool {
    forall|p: Pixel, q: Pixel|
        #![trigger seen(v, w, p), adjacent(p, q)]
        in_grid(w, h, p) && seen(v, w, p) && adjacent(p, q) && on(mask, w, h, q) ==> seen(v, w, q)
}

/// Whether only set pixels are marked.
pub open spec fn within_mask(mask: Seq<bool>, v: Seq<bool>, w: int, h: int) -> bool {
    forall|p: Pixel| in_grid(w, h, p) && #[trigger] seen(v, w, p) ==> on(mask, w, h, p)
}

proof fn lemma_pos_bounds(w: int, h: int, p: Pixel)
    requires
        in_grid(w, h, p),
    ensures
        0 <= pos(w, p) < w * h,
{
    assert(0 <= p.1 * w + p.0 < w * h) by (nonlinear_arith)
        requires
            0 <= p.0 < w,
            0 <= p.1 < h,
    ;
}

proof fn lemma_pos_order(w: int, h: int, p: Pixel, q: Pixel)
    requires
        in_grid(w, h, p),
        in_grid(w, h, q),
    ensures
        before(p, q) <==> pos(w, p) < pos(w, q),
        p != q ==> pos(w, p) != pos(w, q),
{
    if p.1 < q.1 {
        assert(p.1 * w + p.0 < q.1 * w + q.0) by (nonlinear_arith)
            requires
                0 <= p.0 < w,
                0 <= q.0,
                p.1 < q.1,
        ;
    } else if q.1 < p.1 {
        assert(q.1 * w + q.0 < p.1 * w + p.0) by (nonlinear_arith)
            requires
                0 <= q.0 < w,
                0 <= p.0,
                q.1 < p.1,
        ;
    }
}

proof fn lemma_pixel_at(w: int, h: int, p: Pixel)
    requires
        in_grid(w, h, p),
    ensures
        pixel_at(w, pos(w, p)) == p,
{
    lemma_fundamental_div_mod_converse(pos(w, p), w, p.1, p.0);
}

proof fn lemma_connected_ends(mask: Seq<bool>, w: int, h: int, a: Pixel, b: Pixel)
    requires
        connected(mask, w, h, a, b),
    ensures
        on(mask, w, h, a),
        on(mask, w, h, b),
{
    let path = choose|path: Seq<Pixel>| #[trigger] is_path(mask, w, h, path) && path[0] == a && path[path.len() - 1] == b;
    assert(on(mask, w, h, path[0]));
    assert(on(mask, w, h, path[path.len() - 1]));
}

/// Connectedness is symmetric.
proof fn lemma_connected_symmetric(mask: Seq<bool>, w: int, h: int, a: Pixel, b: Pixel)
    requires
        connected(mask, w, h, a, b),
    ensures
        connected(mask, w, h, b, a),
{
    let path = choose|path: Seq<Pixel>| #[trigger] is_path(mask, w, h, path) && path[0] == a && path[path.len() - 1] == b;
    let n = path.len();
    let rev = Seq::new(n, |i: int| path[n - 1 - i]);
    assert forall|i: int| 0 <= i < rev.len() implies on(mask, w, h, #[trigger] rev[i]) by {
        assert(on(mask, w, h, path[n - 1 - i]));
    }
    assert forall|i: int| 0 <= i < rev.len() - 1 implies #[trigger] step_ok(rev, i) by {
        assert(step_ok(path, n - 2 - i));
    }
    assert(is_path(mask, w, h, rev));
}

/// Every pixel of a path that starts at a marked pixel of a closed marking is marked.
proof fn lemma_path_closed(mask: Seq<bool>, v: Seq<bool>, w: int, h: int, path: Seq<Pixel>, k: int)
    requires
        closed(mask, v, w, h),
        is_path(mask, w, h, path),
        seen(v, w, path[0]),
        0 <= k < path.len(),
    ensures
        seen(v, w, path[k]),
    decreases k,
{
    if k > 0 {
        lemma_path_closed(mask, v, w, h, path, k - 1);
        assert(step_ok(path, k - 1));
        assert(on(mask, w, h, path[k - 1]));
        assert(on(mask, w, h, path[k]));
        assert(seen(v, w, path[k - 1]) && adjacent(path[k - 1], path[k]));
    }
}

/// A closed marking that holds `a` holds every pixel connected to it.
proof fn lemma_connected_closed(mask: Seq<bool>, v: Seq<bool>, w: int, h: int, a: Pixel, b: Pixel)
    requires
        closed(mask, v, w, h),
        seen(v, w, a),
        connected(mask, w, h, a, b),
    ensures
        seen(v, w, b),
{
    let path = choose|path: Seq<Pixel>| #[trigger] is_path(mask, w, h, path) && path[0] == a && path[path.len() - 1] == b;
    lemma_path_closed(mask, v, w, h, path, path.len() - 1);
}

proof fn lemma_connected_step(mask: Seq<bool>, w: int, h: int, a: Pixel, c: Pixel, b: Pixel)
    requires
        connected(mask, w, h, a, c),
        adjacent(c, b),
        on(mask, w, h, b),
    ensures
        connected(mask, w, h, a, b),
{
    let path = choose|path: Seq<Pixel>| #[trigger] is_path(mask, w, h, path) && path[0] == a && path[path.len() - 1] == c;
    let p2 = path.push(b);
    assert forall|i: int| 0 <= i < p2.len() implies on(mask, w, h, #[trigger] p2[i]) by {
        if i < path.len() {
            assert(p2[i] == path[i]);
        }
    }
    assert forall|i: int| 0 <= i < p2.len() - 1 implies #[trigger] step_ok(p2, i) by {
        if i < path.len() - 1 {
            assert(step_ok(path, i));
        }
    }
    assert(is_path(mask, w, h, p2));
}

proof fn lemma_connected_self(mask: Seq<bool>, w: int, h: int, a: Pixel)
    requires
        on(mask, w, h, a),
    ensures
        connected(mask, w, h, a, a),
{
    let p = seq![a];
    assert(on(mask, w, h, p[0]));
    assert(is_path(mask, w, h, p));
}

/// Whether a pixel is on the stack.
pub open spec fn stacked(st: Seq<(usize, usize)>, p: Pixel) -> bool {
    exists|i: int| 0 <= i < st.len() && (#[trigger] st[i]).0 == p.0 && st[i].1 == p.1
}

/// Whether a pixel lies in the box.
pub open spec fn in_box(b: (usize, usize, usize, usize), p: Pixel) -> bool {
    b.0 <= p.0 <= b.2 && b.1 <= p.1 <= b.3
}

/// The number of marked entries among the first `k`.
pub open spec fn count_seen(v: Seq<bool>, k: int) -> int
    decreases k,
{
    if k <= 0 {
        0
    } else {
        count_seen(v, k - 1) + if v[k - 1] { 1int } else { 0 }
    }
}

proof fn lemma_count_bound(v: Seq<bool>, k: int)
    requires
        0 <= k <= v.len(),
    ensures
        0 <= count_seen(v, k) <= k,
    decreases k,
{
    if k > 0 {
        lemma_count_bound(v, k - 1);
    }
}

proof fn lemma_count_set(v: Seq<bool>, i: int, k: int)
    requires
        0 <= i < v.len(),
        !v[i],
        0 <= k <= v.len(),
    ensures
        count_seen(v.update(i, true), k) == count_seen(v, k) + if i < k { 1int } else { 0 },
    decreases k,
{
    if k > 0 {
        lemma_count_set(v, i, k - 1);
    }
}

/// The pixel of a stack entry.
pub open spec fn px(q: (usize, usize)) -> Pixel {
    (q.0 as int, q.1 as int)
}

/// The neighbours of `(cx, cy)` inside the grid: left, right, up, down.
fn neighbours(w: usize, h: usize, cx: usize, cy: usize) -> (ns: Vec<(usize, usize)>)
    requires
        cx < w,
        cy < h,
    ensures
        forall|j: int| 0 <= j < ns@.len() ==> in_grid(w as int, h as int, px(#[trigger] ns@[j]))
            && adjacent((cx as int, cy as int), px(ns@[j])),
        forall|q: Pixel| in_grid(w as int, h as int, q) && adjacent((cx as int, cy as int), q)
            ==> exists|j: int| 0 <= j < ns@.len() && px(#[trigger] ns@[j]) == q,
{
    let mut ns: Vec<(usize, usize)> = Vec::new();
    if cx > 0 {
        ns.push((cx - 1, cy));
    }
    if cx + 1 < w {
        ns.push((cx + 1, cy));
    }
    if cy > 0 {
        ns.push((cx, cy - 1));
    }
    if cy + 1 < h {
        ns.push((cx, cy + 1));
    }
    proof {
        let c: Pixel = (cx as int, cy as int);
        assert forall|q: Pixel| in_grid(w as int, h as int, q) && adjacent(c, q)
            implies exists|j: int| 0 <= j < ns@.len() && px(#[trigger] ns@[j]) == q by {
            let l: int = if cx > 0 { 1 } else { 0 };
            let r: int = if cx + 1 < w { 1 } else { 0 };
            let u: int = if cy > 0 { 1 } else { 0 };
            if q.1 == c.1 && q.0 + 1 == c.0 {
                assert(px(ns@[0]) == q);
            } else if q.1 == c.1 && q.0 == c.0 + 1 {
                assert(px(ns@[l]) == q);
            } else if q.0 == c.0 && q.1 + 1 == c.1 {
                assert(px(ns@[l + r]) == q);
            } else {
                assert(px(ns@[l + r + u]) == q);
            }
        }
    }
    ns
}

/// Marks the neighbour `(nx, ny)` and puts it on the stack when it is set and
/// not yet marked.
fn visit(mask: &[bool], w: usize, h: usize, visited: &mut Vec<bool>, stack: &mut Vec<(usize, usize)>, nx: usize, ny: usize)
    requires
        nx < w,
        ny < h,
        mask@.len() == w * h,
        old(visited)@.len() == w * h,
    ensures
        final(visited)@.len() == w * h,
        forall|p: Pixel| in_grid(w as int, h as int, p) ==> (#[trigger] seen(final(visited)@, w as int, p) <==> (
            seen(old(visited)@, w as int, p) || (p == (nx as int, ny as int) && on(mask@, w as int, h as int, p)))),
        final(stack)@ == if on(mask@, w as int, h as int, (nx as int, ny as int)) && !seen(old(visited)@, w as int, (nx as int, ny as int)) {
            old(stack)@.push((nx, ny))
        } else {
            old(stack)@
        },
        count_seen(final(visited)@, w * h) == count_seen(old(visited)@, w * h) + if on(mask@, w as int, h as int, (nx as int, ny as int))
            && !seen(old(visited)@, w as int, (nx as int, ny as int)) { 1int } else { 0 },
{
    let ghost n: Pixel = (nx as int, ny as int);
    proof {
        lemma_pos_bounds(w as int, h as int, n);
        assert(mask@.len() == mask.len());
        assert(ny as int * w as int <= ny as int * w as int + nx as int);
    }
    let idx = ny * w + nx;
    let ghost v = visited@;
    if mask[idx] && !visited[idx] {
        visited.set(idx, true);
        stack.push((nx, ny));
        proof {
            lemma_count_set(v, idx as int, (w * h) as int);
        }
    }
    proof {
        assert forall|p: Pixel| in_grid(w as int, h as int, p) && p != n implies seen(visited@, w as int, p) == seen(v, w as int, p) by {
            lemma_pos_order(w as int, h as int, p, n);
            lemma_pos_bounds(w as int, h as int, p);
        }
    }
}

/// Marks the region of the unmarked set pixel `(sx, sy)` and returns its
/// bounding box (flood fill with an explicit stack).
#[verifier::rlimit(100)]
#[verifier::spinoff_prover]
fn fill(mask: &[bool], w: usize, h: usize, visited: &mut Vec<bool>, sx: usize, sy: usize)
    -> (b: (usize, usize, usize, usize))
    requires
        mask@.len() == w * h,
        old(visited)@.len() == w * h,
        closed(mask@, old(visited)@, w as int, h as int),
        within_mask(mask@, old(visited)@, w as int, h as int),
        on(mask@, w as int, h as int, (sx as int, sy as int)),
        !seen(old(visited)@, w as int, (sx as int, sy as int)),
    ensures
        final(visited)@.len() == w * h,
        forall|p: Pixel| in_grid(w as int, h as int, p) ==> (#[trigger] seen(final(visited)@, w as int, p) <==> (
            seen(old(visited)@, w as int, p) || connected(mask@, w as int, h as int, (sx as int, sy as int), p))),
        closed(mask@, final(visited)@, w as int, h as int),
        within_mask(mask@, final(visited)@, w as int, h as int),
        is_box(mask@, w as int, h as int, (sx as int, sy as int), b),
{
    let ghost wi = w as int;
    let ghost hi = h as int;
    let ghost m = mask@;
    let ghost v0 = visited@;
    let ghost s: Pixel = (sx as int, sy as int);
    let mut stack: Vec<(usize, usize)> = Vec::new();
    proof {
        lemma_connected_self(m, wi, hi, s);
    }
    visit(mask, w, h, visited, &mut stack, sx, sy);
    let mut min_x = sx;
    let mut min_y = sy;
    let mut max_x = sx;
    let mut max_y = sy;
    let ghost mut wx0: Pixel = s;
    let ghost mut wy0: Pixel = s;
    let ghost mut wx1: Pixel = s;
    let ghost mut wy1: Pixel = s;
    proof {
        lemma_count_bound(visited@, wi * hi);
        assert(stack@[0] == (sx, sy));
        assert forall|p: Pixel| in_grid(wi, hi, p) && #[trigger] seen(visited@, wi, p) && !seen(v0, wi, p)
            implies stacked(stack@, p) by {
            assert(stack@[0].0 == p.0 && stack@[0].1 == p.1);
        }
    }
    while stack.len() > 0
        invariant
            wi == w as int,
            hi == h as int,
            m == mask@,
            m.len() == w * h,
            visited@.len() == w * h,
            s == (sx as int, sy as int),
            on(m, wi, hi, s),
            !seen(v0, wi, s),
            v0.len() == w * h,
            closed(m, v0, wi, hi),
            within_mask(m, v0, wi, hi),
            count_seen(visited@, w * h) <= w * h,
            forall|p: Pixel| in_grid(wi, hi, p) && seen(v0, wi, p) ==> #[trigger] seen(visited@, wi, p),
            forall|p: Pixel| in_grid(wi, hi, p) && #[trigger] seen(visited@, wi, p) ==> on(m, wi, hi, p),
            forall|p: Pixel| in_grid(wi, hi, p) && #[trigger] seen(visited@, wi, p) && !seen(v0, wi, p)
                ==> connected(m, wi, hi, s, p),
            seen(visited@, wi, s),
            forall|i: int| 0 <= i < stack@.len() ==> {
                let q = #[trigger] stack@[i];
                &&& q.0 < w && q.1 < h
                &&& seen(visited@, wi, px(q))
                &&& !seen(v0, wi, px(q))
            },
            forall|p: Pixel, q: Pixel|
                #![trigger seen(visited@, wi, p), adjacent(p, q)]
                in_grid(wi, hi, p) && seen(visited@, wi, p) && !seen(v0, wi, p) && !stacked(stack@, p)
                    && adjacent(p, q) && on(m, wi, hi, q) ==> seen(visited@, wi, q),
            forall|p: Pixel|
                in_grid(wi, hi, p) && #[trigger] seen(visited@, wi, p) && !seen(v0, wi, p) && !stacked(stack@, p)
                    ==> in_box((min_x, min_y, max_x, max_y), p),
            in_box((min_x, min_y, max_x, max_y), s),
            connected(m, wi, hi, s, wx0) && wx0.0 == min_x,
            connected(m, wi, hi, s, wy0) && wy0.1 == min_y,
            connected(m, wi, hi, s, wx1) && wx1.0 == max_x,
            connected(m, wi, hi, s, wy1) && wy1.1 == max_y,
        decreases (w * h - count_seen(visited@, w * h)) * 2 + stack@.len(),
    {
        let ghost vb = visited@;
        let ghost sb = stack@;
        let top = stack.pop();
        let (cx, cy) = match top {
            Some(t) => t,
            None => (0, 0),
        };
        let ghost c: Pixel = (cx as int, cy as int);
        let ghost sb1 = stack@;
        assert(sb[sb.len() - 1] == (cx, cy));
        assert(sb1 =~= sb.drop_last());
        assert(connected(m, wi, hi, s, c));
        if cx < min_x {
            min_x = cx;
            proof { wx0 = c; }
        }
        if cy < min_y {
            min_y = cy;
            proof { wy0 = c; }
        }
        if cx > max_x {
            max_x = cx;
            proof { wx1 = c; }
        }
        if cy > max_y {
            max_y = cy;
            proof { wy1 = c; }
        }
        let ns = neighbours(w, h, cx, cy);
        let mut j: usize = 0;
        while j < ns.len()
            invariant
                wi == w as int,
                hi == h as int,
                m == mask@,
                m.len() == w * h,
                visited@.len() == w * h,
                vb.len() == w * h,
                j <= ns@.len(),
                forall|k: int| 0 <= k < ns@.len() ==> in_grid(wi, hi, px(#[trigger] ns@[k])),
                forall|p: Pixel| in_grid(wi, hi, p) ==> (#[trigger] seen(visited@, wi, p) <==> (seen(vb, wi, p)
                    || exists|k: int| 0 <= k < j && px(#[trigger] ns@[k]) == p && on(m, wi, hi, p))),
                stack@.len() >= sb1.len(),
                forall|i: int| 0 <= i < sb1.len() ==> #[trigger] stack@[i] == sb1[i],
                forall|i: int| sb1.len() <= i < stack@.len() ==> {
                    let q = #[trigger] stack@[i];
                    &&& q.0 < w && q.1 < h
                    &&& (exists|k: int| 0 <= k < j && #[trigger] ns@[k] == q)
                    &&& on(m, wi, hi, px(q))
                    &&& !seen(vb, wi, px(q))
                },
                forall|p: Pixel| in_grid(wi, hi, p) && #[trigger] seen(visited@, wi, p) && !seen(vb, wi, p)
                    ==> stacked(stack@, p),
                count_seen(visited@, w * h) - count_seen(vb, w * h) == stack@.len() - sb1.len(),
            decreases ns@.len() - j,
        {
            let (nx, ny) = ns[j];
            let ghost vj = visited@;
            let ghost sj = stack@;
            visit(mask, w, h, visited, &mut stack, nx, ny);
            proof {
                let n: Pixel = (nx as int, ny as int);
                assert(px(ns@[j as int]) == n);
                assert forall|p: Pixel| in_grid(wi, hi, p) implies (#[trigger] seen(visited@, wi, p) <==> (seen(vb, wi, p)
                    || exists|k: int| 0 <= k < j + 1 && px(#[trigger] ns@[k]) == p && on(m, wi, hi, p))) by {
                    if p == n && on(m, wi, hi, p) {
                        assert(px(ns@[j as int]) == p);
                    }
                    if exists|k: int| 0 <= k < j + 1 && px(#[trigger] ns@[k]) == p && on(m, wi, hi, p) {
                        let k = choose|k: int| 0 <= k < j + 1 && px(#[trigger] ns@[k]) == p && on(m, wi, hi, p);
                        if k < j {
                        } else {
                            assert(p == n);
                        }
                    }
                }
                assert forall|i: int| sb1.len() <= i < stack@.len() implies {
                    let q = #[trigger] stack@[i];
                    &&& q.0 < w && q.1 < h
                    &&& (exists|k: int| 0 <= k < j + 1 && #[trigger] ns@[k] == q)
                    &&& on(m, wi, hi, px(q))
                    &&& !seen(vb, wi, px(q))
                } by {
                    if i < sj.len() {
                        assert(stack@[i] == sj[i]);
                    } else {
                        assert(stack@[i] == (nx, ny));
                        assert(ns@[j as int] == (nx, ny));
                        assert(!seen(vj, wi, n));
                    }
                }
                assert forall|p: Pixel| in_grid(wi, hi, p) && #[trigger] seen(visited@, wi, p) && !seen(vb, wi, p)
                    implies stacked(stack@, p) by {
                    if seen(vj, wi, p) {
                        assert(stacked(sj, p));
                        let i = choose|i: int| 0 <= i < sj.len() && (#[trigger] sj[i]).0 == p.0 && sj[i].1 == p.1;
                        assert(stack@[i] == sj[i]);
                    } else {
                        assert(p == n);
                        assert(stack@[sj.len() as int] == (nx, ny));
                    }
                }
                assert forall|i: int| 0 <= i < sb1.len() implies #[trigger] stack@[i] == sb1[i] by {
                    assert(stack@[i] == sj[i]);
                }
            }
            j += 1;
        }
        proof {
            lemma_count_bound(visited@, wi * hi);
            let cb = (min_x, min_y, max_x, max_y);
            // Everything newly marked in this step is a set neighbour of `c`.
            assert forall|p: Pixel| in_grid(wi, hi, p) && #[trigger] seen(visited@, wi, p) implies on(m, wi, hi, p) by {
                if !seen(vb, wi, p) {
                    let k = choose|k: int| 0 <= k < ns@.len() && px(#[trigger] ns@[k]) == p && on(m, wi, hi, p);
                }
            }
            assert forall|p: Pixel| in_grid(wi, hi, p) && #[trigger] seen(visited@, wi, p) && !seen(v0, wi, p)
                implies connected(m, wi, hi, s, p) by {
                if !seen(vb, wi, p) {
                    let k = choose|k: int| 0 <= k < ns@.len() && px(#[trigger] ns@[k]) == p && on(m, wi, hi, p);
                    lemma_connected_step(m, wi, hi, s, c, p);
                }
            }
            assert forall|i: int| 0 <= i < stack@.len() implies {
                let q = #[trigger] stack@[i];
                &&& q.0 < w && q.1 < h
                &&& seen(visited@, wi, px(q))
                &&& !seen(v0, wi, px(q))
            } by {
                if i < sb1.len() {
                    assert(stack@[i] == sb[i]);
                } else {
                    let q = stack@[i];
                    let k = choose|k: int| 0 <= k < ns@.len() && #[trigger] ns@[k] == q;
                    assert(px(ns@[k]) == px(q));
                }
            }
            // A pixel that is marked and off the stack had its neighbours marked.
            assert forall|p: Pixel, q: Pixel|
                #![trigger seen(visited@, wi, p), adjacent(p, q)]
                in_grid(wi, hi, p) && seen(visited@, wi, p) && !seen(v0, wi, p) && !stacked(stack@, p)
                    && adjacent(p, q) && on(m, wi, hi, q) implies seen(visited@, wi, q) by {
                if p == c {
                    let k = choose|k: int| 0 <= k < ns@.len() && px(#[trigger] ns@[k]) == q;
                } else {
                    lemma_unstacked_before(sb, sb1, stack@, p, c);
                    assert(seen(vb, wi, q));
                }
            }
            assert forall|p: Pixel|
                in_grid(wi, hi, p) && #[trigger] seen(visited@, wi, p) && !seen(v0, wi, p) && !stacked(stack@, p)
                    implies in_box(cb, p) by {
                if p != c {
                    lemma_unstacked_before(sb, sb1, stack@, p, c);
                }
            }
        }
    }
    proof {
        lemma_fill_done(m, wi, hi, v0, visited@, s, (min_x, min_y, max_x, max_y));
    }
    (min_x, min_y, max_x, max_y)
}

/// A pixel other than the popped one that is off the stack now was off it before.
proof fn lemma_unstacked_before(sb: Seq<(usize, usize)>, sb1: Seq<(usize, usize)>, st: Seq<(usize, usize)>, p: Pixel, c: Pixel)
    requires
        sb.len() > 0,
        sb1 == sb.drop_last(),
        px(sb[sb.len() - 1]) == c,
        p != c,
        st.len() >= sb1.len(),
        forall|i: int| 0 <= i < sb1.len() ==> #[trigger] st[i] == sb1[i],
        !stacked(st, p),
    ensures
        !stacked(sb, p),
{
    if stacked(sb, p) {
        let i = choose|i: int| 0 <= i < sb.len() && (#[trigger] sb[i]).0 == p.0 && sb[i].1 == p.1;
        if i == sb.len() - 1 {
            assert(p == c);
        } else {
            assert(st[i] == sb1[i]);
            assert(stacked(st, p));
        }
    }
}

/// When the stack is empty, the marking holds exactly the earlier marks and
/// the region of the seed, and the box bounds the region.
proof fn lemma_fill_done(
    m: Seq<bool>,
    w: int,
    h: int,
    v0: Seq<bool>,
    v: Seq<bool>,
    s: Pixel,
    b: (usize, usize, usize, usize),
)
    requires
        on(m, w, h, s),
        !seen(v0, w, s),
        closed(m, v0, w, h),
        within_mask(m, v0, w, h),
        forall|p: Pixel| in_grid(w, h, p) && seen(v0, w, p) ==> #[trigger] seen(v, w, p),
        forall|p: Pixel| in_grid(w, h, p) && #[trigger] seen(v, w, p) ==> on(m, w, h, p),
        forall|p: Pixel| in_grid(w, h, p) && #[trigger] seen(v, w, p) && !seen(v0, w, p) ==> connected(m, w, h, s, p),
        seen(v, w, s),
        forall|p: Pixel, q: Pixel|
            #![trigger seen(v, w, p), adjacent(p, q)]
            in_grid(w, h, p) && seen(v, w, p) && !seen(v0, w, p) && !stacked(Seq::<(usize, usize)>::empty(), p)
                && adjacent(p, q) && on(m, w, h, q) ==> seen(v, w, q),
        forall|p: Pixel|
            in_grid(w, h, p) && #[trigger] seen(v, w, p) && !seen(v0, w, p) && !stacked(Seq::<(usize, usize)>::empty(), p)
                ==> in_box(b, p),
        exists|q: Pixel| #[trigger] connected(m, w, h, s, q) && q.0 == b.0,
        exists|q: Pixel| #[trigger] connected(m, w, h, s, q) && q.1 == b.1,
        exists|q: Pixel| #[trigger] connected(m, w, h, s, q) && q.0 == b.2,
        exists|q: Pixel| #[trigger] connected(m, w, h, s, q) && q.1 == b.3,
    ensures
        forall|p: Pixel| in_grid(w, h, p) ==> (#[trigger] seen(v, w, p) <==> (seen(v0, w, p) || connected(m, w, h, s, p))),
        closed(m, v, w, h),
        within_mask(m, v, w, h),
        is_box(m, w, h, s, b),
{
    assert forall|p: Pixel, q: Pixel|
        #![trigger seen(v, w, p), adjacent(p, q)]
        in_grid(w, h, p) && seen(v, w, p) && adjacent(p, q) && on(m, w, h, q) implies seen(v, w, q) by {
        if seen(v0, w, p) {
            assert(seen(v0, w, p) && adjacent(p, q));
        } else {
            assert(!stacked(Seq::<(usize, usize)>::empty(), p));
        }
    }
    assert forall|q: Pixel| #[trigger] connected(m, w, h, s, q) implies seen(v, w, q) && !seen(v0, w, q) && in_grid(w, h, q) by {
        lemma_connected_closed(m, v, w, h, s, q);
        lemma_connected_ends(m, w, h, s, q);
        if seen(v0, w, q) {
            lemma_connected_symmetric(m, w, h, s, q);
            lemma_connected_closed(m, v0, w, h, q, s);
        }
    }
    assert forall|q: Pixel| #[trigger] connected(m, w, h, s, q) implies in_box(b, q) by {
        assert(!stacked(Seq::<(usize, usize)>::empty(), q));
    }
}

/// Whether every set pixel before position `k` is marked.
pub open spec fn marked_before(mask: Seq<bool>, v: Seq<bool>, w: int, h: int, k: int) -> bool {
    forall|p: Pixel| in_grid(w, h, p) && pos(w, p) < k && on(mask, w, h, p) ==> #[trigger] seen(v, w, p)
}

/// Whether every marked pixel lies in the region of a pixel before position `k`.
pub open spec fn marked_from_before(mask: Seq<bool>, v: Seq<bool>, w: int, h: int, k: int) -> bool {
    forall|p: Pixel| in_grid(w, h, p) && #[trigger] seen(v, w, p) ==> exists|q: Pixel|
        in_grid(w, h, q) && pos(w, q) < k && #[trigger] connected(mask, w, h, q, p)
}

/// The bounding boxes `(min column, min row, max column, max row)` of the
/// 4-connected regions of set pixels of a `w` by `h` mask laid out row by row,
/// in the row-major order of each region's first pixel.
#[verifier::rlimit(60)]
pub fn component_boxes(mask: &[bool], w: usize, h: usize) -> (boxes: Vec<(usize, usize, usize, usize)>)
    requires
        mask@.len() == w * h,
    ensures
        boxes@.len() == firsts(mask@, w as int, h as int, w * h).len(),
        forall|j: int| 0 <= j < boxes@.len() ==> is_box(mask@, w as int, h as int,
            firsts(mask@, w as int, h as int, w * h)[j], #[trigger] boxes@[j]),
{
    let ghost wi = w as int;
    let ghost hi = h as int;
    let ghost m = mask@;
    let mut boxes: Vec<(usize, usize, usize, usize)> = Vec::new();
    if w == 0 || h == 0 {
        assert(w * h == 0) by (nonlinear_arith)
            requires
                w == 0 || h == 0,
        ;
        return boxes;
    }
    let n = mask.len();
    let mut visited: Vec<bool> = Vec::new();
    let mut i: usize = 0;
    while i < n
        invariant
            i <= n,
            visited@.len() == i,
            forall|j: int| 0 <= j < i ==> !(#[trigger] visited@[j]),
        decreases n - i,
    {
        visited.push(false);
        i += 1;
    }
    let mut k: usize = 0;
    let mut x: usize = 0;
    let mut y: usize = 0;
    proof {
        assert forall|p: Pixel, q: Pixel|
            #![trigger seen(visited@, wi, p), adjacent(p, q)]
            in_grid(wi, hi, p) && seen(visited@, wi, p) && adjacent(p, q) && on(m, wi, hi, q)
            implies seen(visited@, wi, q) by {
            lemma_pos_bounds(wi, hi, p);
        }
        assert forall|p: Pixel| in_grid(wi, hi, p) && #[trigger] seen(visited@, wi, p) implies on(m, wi, hi, p) by {
            lemma_pos_bounds(wi, hi, p);
        }
        assert forall|p: Pixel| in_grid(wi, hi, p) && #[trigger] seen(visited@, wi, p) implies exists|q: Pixel|
            in_grid(wi, hi, q) && pos(wi, q) < 0 && #[trigger] connected(m, wi, hi, q, p) by {
            lemma_pos_bounds(wi, hi, p);
        }
    }
    while k < n
        invariant
            wi == w as int,
            hi == h as int,
            m == mask@,
            w > 0,
            h > 0,
            n == w * h,
            m.len() == w * h,
            visited@.len() == w * h,
            k <= n,
            k == y * w + x,
            x < w,
            k < n ==> y < h,
            closed(m, visited@, wi, hi),
            within_mask(m, visited@, wi, hi),
            marked_before(m, visited@, wi, hi, k as int),
            marked_from_before(m, visited@, wi, hi, k as int),
            boxes@.len() == firsts(m, wi, hi, k as int).len(),
            forall|j: int| 0 <= j < boxes@.len() ==> is_box(m, wi, hi, firsts(m, wi, hi, k as int)[j], #[trigger] boxes@[j]),
        decreases n - k,
    {
        let ghost p: Pixel = (x as int, y as int);
        let ghost v = visited@;
        let ghost bs = boxes@;
        proof {
            lemma_pixel_at(wi, hi, p);
            assert(pos(wi, p) == k);
        }
        if mask[k] && !visited[k] {
            proof {
                assert forall|q: Pixel| before(q, p) implies !#[trigger] connected(m, wi, hi, q, p) by {
                    if connected(m, wi, hi, q, p) {
                        lemma_connected_ends(m, wi, hi, q, p);
                        lemma_pos_order(wi, hi, q, p);
                        assert(seen(v, wi, q));
                        lemma_connected_closed(m, v, wi, hi, q, p);
                    }
                }
                assert(is_first(m, wi, hi, p));
                assert(firsts(m, wi, hi, k + 1) == firsts(m, wi, hi, k as int) + seq![p]);
            }
            let b = fill(mask, w, h, &mut visited, x, y);
            boxes.push(b);
            proof {
                let f = firsts(m, wi, hi, k + 1);
                assert forall|j: int| 0 <= j < boxes@.len() implies is_box(m, wi, hi, f[j], #[trigger] boxes@[j]) by {
                    if j < bs.len() {
                        assert(boxes@[j] == bs[j]);
                        assert(f[j] == firsts(m, wi, hi, k as int)[j]);
                    }
                }
                assert forall|q: Pixel| in_grid(wi, hi, q) && pos(wi, q) < k + 1 && on(m, wi, hi, q)
                    implies #[trigger] seen(visited@, wi, q) by {
                    if pos(wi, q) == k {
                        lemma_pos_order(wi, hi, q, p);
                        lemma_connected_self(m, wi, hi, p);
                    }
                }
                assert forall|q: Pixel| in_grid(wi, hi, q) && #[trigger] seen(visited@, wi, q) implies exists|r: Pixel|
                    in_grid(wi, hi, r) && pos(wi, r) < k + 1 && #[trigger] connected(m, wi, hi, r, q) by {
                    if !seen(v, wi, q) {
                        assert(connected(m, wi, hi, p, q));
                    }
                }
            }
        } else {
            proof {
                if on(m, wi, hi, p) {
                    assert(seen(v, wi, p));
                    let r = choose|r: Pixel| in_grid(wi, hi, r) && pos(wi, r) < k && #[trigger] connected(m, wi, hi, r, p);
                    lemma_pos_order(wi, hi, r, p);
                    assert(!is_first(m, wi, hi, p));
                }
                assert(firsts(m, wi, hi, k + 1) == firsts(m, wi, hi, k as int));
                assert forall|q: Pixel| in_grid(wi, hi, q) && pos(wi, q) < k + 1 && on(m, wi, hi, q)
                    implies #[trigger] seen(visited@, wi, q) by {
                    if pos(wi, q) == k {
                        lemma_pos_order(wi, hi, q, p);
                    }
                }
            }
        }
        let ghost (k0, x0, y0) = (k as int, x as int, y as int);
        k += 1;
        x += 1;
        if x == w {
            x = 0;
            y += 1;
            assert(y0 * w + w == (y0 + 1) * w) by (nonlinear_arith);
        }
        assert(k == y * w + x);
        proof {
            if k < n {
                assert(y < h) by (nonlinear_arith)
                    requires
                        k == y * w + x,
                        k < w * h,
                        0 <= x,
                        w > 0,
                ;
            }
        }
    }
    boxes
}

} // verus!
