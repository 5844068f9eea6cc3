//! Road layout shared by the simulation and the drawing code.

use vstd::prelude::*;

verus! {

/// Window width in pixels.
pub const WINDOW_W: u32 = 800;

/// Window height in pixels.
pub const WINDOW_H: u32 = 800;

/// Width of one lane in pixels.
pub const LANE_W: i32 = 40;

/// Horizontal centre of the junction (half the window width).
pub const CENTER_X: i32 = 400;

/// Vertical centre of the junction (half the window height).
pub const CENTER_Y: i32 = 400;

/// Width of the three lanes that carry one direction of traffic.
pub const ROAD_W: i32 = 120;

/// The junction sits in the middle of the window and each carriageway holds
/// three lanes.
pub proof fn lemma_layout_is_consistent()
    ensures
        CENTER_X * 2 == WINDOW_W,
        CENTER_Y * 2 == WINDOW_H,
        ROAD_W == LANE_W * 3,
{
}

// ── Sprite background removal ────────────────────────────────────────────────

/// Largest per-channel difference from the corner colour that still counts
/// as background.
pub const BACKGROUND_TOLERANCE: i32 = 35;

/// An RGBA image with one byte per channel, stored row by row from the top left.
pub struct RgbaBuffer {
    pub width: u32,
    pub height: u32,
    pub pixels: Vec<u8>,
}

/// A pixel position (x, y).
pub type Pixel = (u32, u32);

/// `p` lies inside a `w` by `h` image.
pub open spec fn in_image(w: u32, h: u32, p: Pixel) -> bool {
    p.0 < w && p.1 < h
}

/// Row-major index of pixel `p` in an image `w` pixels wide.
pub open spec fn pixel_index(w: u32, p: Pixel) -> int {
    p.1 * w + p.0
}

/// Byte `c` (0 = red, 1 = green, 2 = blue, 3 = alpha) of pixel `p`.
pub open spec fn channel(bytes: Seq<u8>, w: u32, p: Pixel, c: int) -> u8 {
    bytes[4 * pixel_index(w, p) + c]
}

/// Colour channel value `v` is within tolerance of background value `b`.
pub open spec fn channel_close(v: u8, b: u8) -> bool {
    -BACKGROUND_TOLERANCE <= v - b <= BACKGROUND_TOLERANCE
}

/// Pixel `p` has nearly the colour of the top-left pixel (alpha is ignored).
pub open spec fn near_background(bytes: Seq<u8>, w: u32, p: Pixel) -> bool {
    &&& channel_close(channel(bytes, w, p, 0), bytes[0])
    &&& channel_close(channel(bytes, w, p, 1), bytes[1])
    &&& channel_close(channel(bytes, w, p, 2), bytes[2])
}

/// Pixels `a` and `b` share an edge.
pub open spec fn adjacent(a: Pixel, b: Pixel) -> bool {
    ||| a.0 == b.0 && (a.1 + 1 == b.1 || b.1 + 1 == a.1)
    ||| a.1 == b.1 && (a.0 + 1 == b.0 || b.0 + 1 == a.0)
}

/// `p` is one of the four corners of a `w` by `h` image.
pub open spec fn is_corner(w: u32, h: u32, p: Pixel) -> bool {
    (p.0 == 0 || p.0 == w - 1) && (p.1 == 0 || p.1 == h - 1)
}

/// `path` runs from a corner through adjacent pixels of the image, every
/// one of them near the background colour.
pub open spec fn background_path(bytes: Seq<u8>, w: u32, h: u32, path: Seq<Pixel>) -> bool {
    &&& path.len() > 0
    &&& is_corner(w, h, path[0])
    &&& forall|i: int|
        0 <= i < path.len() ==> in_image(w, h, #[trigger] path[i]) && near_background(bytes, w, path[i])
    &&& forall|i: int| 0 < i < path.len() ==> adjacent(path[i - 1], #[trigger] path[i])
}

/// `p` belongs to the background region: a path of near-background pixels
/// leads to it from a corner.
pub open spec fn background_region(bytes: Seq<u8>, w: u32, h: u32, p: Pixel) -> bool {
    exists|path: Seq<Pixel>| #[trigger] background_path(bytes, w, h, path) && path.last() == p
}

/// All four bytes of pixel `p` are zero (fully transparent black).
pub open spec fn pixel_cleared(bytes: Seq<u8>, w: u32, p: Pixel) -> bool {
    &&& channel(bytes, w, p, 0) == 0
    &&& channel(bytes, w, p, 1) == 0
    &&& channel(bytes, w, p, 2) == 0
    &&& channel(bytes, w, p, 3) == 0
}

/// Pixel `p` has the same four bytes in `bytes` as in `orig`.
pub open spec fn pixel_unchanged(bytes: Seq<u8>, orig: Seq<u8>, w: u32, p: Pixel) -> bool {
    &&& channel(bytes, w, p, 0) == channel(orig, w, p, 0)
    &&& channel(bytes, w, p, 1) == channel(orig, w, p, 1)
    &&& channel(bytes, w, p, 2) == channel(orig, w, p, 2)
    &&& channel(bytes, w, p, 3) == channel(orig, w, p, 3)
}

/// Pixel `p` of `bytes` is what stripping the background of `orig` makes of it:
/// cleared when it belongs to the background region, untouched otherwise.
pub open spec fn stripped_pixel(bytes: Seq<u8>, orig: Seq<u8>, w: u32, h: u32, p: Pixel) -> bool {
    if background_region(orig, w, h, p) {
        pixel_cleared(bytes, w, p)
    } else {
        pixel_unchanged(bytes, orig, w, p)
    }
}

proof fn lemma_index_in_range(w: u32, h: u32, p: Pixel)
    requires
        in_image(w, h, p),
    ensures
        0 <= pixel_index(w, p) < w * h,
        0 <= pixel_index(w, p) * 4 + 3 < (w * h) * 4,
{
    let (x, y) = (p.0 as int, p.1 as int);
    assert(0 <= y * w + x < w * h) by (nonlinear_arith)
        requires
            0 <= x < w,
            0 <= y < h,
    ;
}

proof fn lemma_index_injective(w: u32, a: Pixel, b: Pixel)
    requires
        a.0 < w,
        b.0 < w,
        pixel_index(w, a) == pixel_index(w, b),
    ensures
        a == b,
{
    let (ax, ay, bx, by) = (a.0 as int, a.1 as int, b.0 as int, b.1 as int);
    assert(ay == by) by (nonlinear_arith)
        requires
            0 <= ax < w,
            0 <= bx < w,
            0 <= ay,
            0 <= by,
            ay * w + ax == by * w + bx,
    {
        if ay < by {
            assert(ay * w + w <= by * w);
        } else if by < ay {
            assert(by * w + w <= ay * w);
        }
    }
}

/// The state of the flood fill between two steps: `done` holds the pixels
/// already taken off the queue, `queue[head..]` those waiting, `expanding`
/// the done pixel whose neighbours are being queued, and `seen` the indices
/// of all queued pixels.
spec fn fill_inv(
    orig: Seq<u8>,
    bytes: Seq<u8>,
    w: u32,
    h: u32,
    visited: Seq<bool>,
    queue: Seq<Pixel>,
    head: int,
    done: Set<Pixel>,
    expanding: Set<Pixel>,
    seen: Set<int>,
) -> bool {
    &&& visited.len() == w * h
    &&& bytes.len() == orig.len()
    &&& orig.len() == (w * h) * 4
    &&& 0 <= head <= queue.len()
    // queued pixels lie in the image, are marked visited and are queued once
    &&& forall|i: int| 0 <= i < queue.len() ==> in_image(w, h, #[trigger] queue[i])
    &&& forall|i: int| 0 <= i < queue.len() ==> visited[pixel_index(w, #[trigger] queue[i])]
    &&& forall|i: int, j: int|
        0 <= i < queue.len() && 0 <= j < queue.len() && i != j ==> #[trigger] queue[i]
            != #[trigger] queue[j]
    // the queue holds at most one pixel per index of the image
    &&& seen.finite()
    &&& seen.len() == queue.len()
    &&& forall|k: int| #[trigger] seen.contains(k) ==> 0 <= k < w * h && visited[k]
    &&& forall|i: int| 0 <= i < queue.len() ==> seen.contains(pixel_index(w, #[trigger] queue[i]))
    // waiting pixels are not done, done pixels were visited, visited pixels are done or waiting
    &&& forall|i: int| head <= i < queue.len() ==> !done.contains(#[trigger] queue[i])
    &&& forall|p: Pixel| #[trigger] done.contains(p) ==> in_image(w, h, p) && visited[pixel_index(w, p)]
    &&& forall|p: Pixel|
        in_image(w, h, p) && #[trigger] visited[pixel_index(w, p)] ==> done.contains(p) || exists|i: int|
            head <= i < queue.len() && queue[i] == p
    // done background pixels are cleared, every other pixel is untouched
    &&& forall|p: Pixel| in_image(w, h, p) ==> #[trigger] stripped_so_far(bytes, orig, w, p, done)
    // done background pixels belong to the background region
    &&& forall|p: Pixel|
        #[trigger] done.contains(p) && near_background(orig, w, p) ==> background_region(orig, w, h, p)
    // a waiting pixel is a corner or touches a done background pixel
    &&& forall|i: int|
        head <= i < queue.len() ==> is_corner(w, h, #[trigger] queue[i]) || exists|a: Pixel|
            adjacent(a, queue[i]) && done.contains(a) && near_background(orig, w, a)
    // the neighbours of done background pixels have been visited, but for those being expanded
    &&& forall|a: Pixel, b: Pixel|
        #[trigger] done.contains(a) && !expanding.contains(a) && near_background(orig, w, a)
            && in_image(w, h, b) && #[trigger] adjacent(a, b) ==> visited[pixel_index(w, b)]
}

/// Pixel `p` is cleared if it is a done background pixel, untouched otherwise.
spec fn stripped_so_far(bytes: Seq<u8>, orig: Seq<u8>, w: u32, p: Pixel, done: Set<Pixel>) -> bool {
    if done.contains(p) && near_background(orig, w, p) {
        pixel_cleared(bytes, w, p)
    } else {
        pixel_unchanged(bytes, orig, w, p)
    }
}

/// The four corners have been visited.
spec fn corners_visited(w: u32, h: u32, visited: Seq<bool>) -> bool {
    forall|p: Pixel| in_image(w, h, p) && #[trigger] is_corner(w, h, p) ==> visited[pixel_index(w, p)]
}

/// Visiting a corner, or a neighbour of a done background pixel, keeps the
/// flood fill's state consistent.
proof fn lemma_visit(
    orig: Seq<u8>,
    bytes: Seq<u8>,
    w: u32,
    h: u32,
    visited: Seq<bool>,
    queue: Seq<Pixel>,
    head: int,
    done: Set<Pixel>,
    expanding: Set<Pixel>,
    seen: Set<int>,
    p: Pixel,
)
    requires
        fill_inv(orig, bytes, w, h, visited, queue, head, done, expanding, seen),
        in_image(w, h, p),
        is_corner(w, h, p) || exists|a: Pixel|
            adjacent(a, p) && done.contains(a) && near_background(orig, w, a),
    ensures
        ({
            let k = pixel_index(w, p);
            let v2 = visited.update(k, true);
            let q2 = if visited[k] { queue } else { queue.push(p) };
            let s2 = if visited[k] { seen } else { seen.insert(k) };
            fill_inv(orig, bytes, w, h, v2, q2, head, done, expanding, s2)
        }),
{
    let k = pixel_index(w, p);
    lemma_index_in_range(w, h, p);
    if !visited[k] {
        let v2 = visited.update(k, true);
        let q2 = queue.push(p);
        let s2 = seen.insert(k);
        assert forall|i: int| 0 <= i < queue.len() implies #[trigger] queue[i] != p by {
            assert(visited[pixel_index(w, queue[i])]);
        }
        assert(!seen.contains(k));
        assert forall|i: int| 0 <= i < q2.len() implies in_image(w, h, #[trigger] q2[i]) && v2[pixel_index(w, q2[i])] && s2.contains(pixel_index(w, q2[i])) by {
            if i < queue.len() {
                assert(q2[i] == queue[i]);
            }
        }
        assert forall|i: int, j: int|
            0 <= i < q2.len() && 0 <= j < q2.len() && i != j implies #[trigger] q2[i] != #[trigger] q2[j] by {
            if i < queue.len() && j < queue.len() {
                assert(q2[i] == queue[i] && q2[j] == queue[j]);
            } else if i < queue.len() {
                assert(q2[i] == queue[i]);
            } else {
                assert(q2[j] == queue[j]);
            }
        }
        assert forall|m: int| #[trigger] s2.contains(m) implies 0 <= m < w * h && v2[m] by {
            if m != k {
                assert(seen.contains(m));
            }
        }
        assert forall|i: int| head <= i < q2.len() implies !done.contains(#[trigger] q2[i]) by {
            if i < queue.len() {
                assert(q2[i] == queue[i]);
            } else {
                assert(!visited[k]);
            }
        }
        assert forall|r: Pixel|
            in_image(w, h, r) && #[trigger] v2[pixel_index(w, r)] implies done.contains(r) || exists|i: int|
                head <= i < q2.len() && q2[i] == r by {
            lemma_index_in_range(w, h, r);
            if pixel_index(w, r) == k {
                lemma_index_injective(w, r, p);
                assert(q2[queue.len() as int] == r);
            } else {
                assert(visited[pixel_index(w, r)]);
                if !done.contains(r) {
                    let i = choose|i: int| head <= i < queue.len() && queue[i] == r;
                    assert(q2[i] == r);
                }
            }
        }
        assert forall|i: int|
            head <= i < q2.len() implies is_corner(w, h, #[trigger] q2[i]) || exists|a: Pixel|
                adjacent(a, q2[i]) && done.contains(a) && near_background(orig, w, a) by {
            if i < queue.len() {
                assert(q2[i] == queue[i]);
            }
        }
        assert forall|a: Pixel, b: Pixel|
            #[trigger] done.contains(a) && !expanding.contains(a) && near_background(orig, w, a)
                && in_image(w, h, b) && #[trigger] adjacent(a, b) implies v2[pixel_index(w, b)] by {
            lemma_index_in_range(w, h, b);
            assert(visited[pixel_index(w, b)]);
        }
        assert forall|r: Pixel| #[trigger] done.contains(r) implies in_image(w, h, r) && v2[pixel_index(w, r)] by {
            lemma_index_in_range(w, h, r);
            assert(visited[pixel_index(w, r)]);
        }
    } else {
        assert(visited.update(k, true) =~= visited);
    }
}

/// The bytes after clearing pixel `p`.
spec fn clear_pixel(bytes: Seq<u8>, w: u32, p: Pixel) -> Seq<u8> {
    let b = 4 * pixel_index(w, p);
    bytes.update(b, 0).update(b + 1, 0).update(b + 2, 0).update(b + 3, 0)
}

/// A corner, or a neighbour of a region pixel, that is near the background
/// colour belongs to the region.
proof fn lemma_region_grows(orig: Seq<u8>, w: u32, h: u32, p: Pixel, a: Pixel)
    requires
        in_image(w, h, p),
        near_background(orig, w, p),
        is_corner(w, h, p) || (adjacent(a, p) && background_region(orig, w, h, a)),
    ensures
        background_region(orig, w, h, p),
{
    if is_corner(w, h, p) {
        let path = seq![p];
        assert(background_path(orig, w, h, path));
    } else {
        let path = choose|path: Seq<Pixel>| #[trigger] background_path(orig, w, h, path) && path.last() == a;
        let longer = path.push(p);
        assert forall|i: int| 0 < i < longer.len() implies adjacent(longer[i - 1], #[trigger] longer[i]) by {
            if i < path.len() {
                assert(longer[i] == path[i] && longer[i - 1] == path[i - 1]);
            }
        }
        assert forall|i: int|
            0 <= i < longer.len() implies in_image(w, h, #[trigger] longer[i]) && near_background(orig, w, longer[i]) by {
            if i < path.len() {
                assert(longer[i] == path[i]);
            }
        }
        assert(background_path(orig, w, h, longer) && longer.last() == p);
    }
}

/// Taking the next pixel off the queue, and clearing it when it is near the
/// background colour, keeps the flood fill's state consistent; that pixel's
/// neighbours are still to be queued.
proof fn lemma_take(
    orig: Seq<u8>,
    bytes: Seq<u8>,
    w: u32,
    h: u32,
    visited: Seq<bool>,
    queue: Seq<Pixel>,
    head: int,
    done: Set<Pixel>,
    seen: Set<int>,
)
    requires
        fill_inv(orig, bytes, w, h, visited, queue, head, done, Set::empty(), seen),
        head < queue.len(),
    ensures
        ({
            let c = queue[head];
            let near = near_background(orig, w, c);
            let bytes2 = if near { clear_pixel(bytes, w, c) } else { bytes };
            let expanding = if near { Set::empty().insert(c) } else { Set::empty() };
            fill_inv(orig, bytes2, w, h, visited, queue, head + 1, done.insert(c), expanding, seen)
        }),
{
    let c = queue[head];
    let near = near_background(orig, w, c);
    let bytes2 = if near { clear_pixel(bytes, w, c) } else { bytes };
    let expanding: Set<Pixel> = if near { Set::empty().insert(c) } else { Set::empty() };
    let d2 = done.insert(c);
    assert(in_image(w, h, c));
    lemma_index_in_range(w, h, c);
    assert(stripped_so_far(bytes, orig, w, c, done));
    assert forall|i: int| head + 1 <= i < queue.len() implies !d2.contains(#[trigger] queue[i]) by {
        assert(queue[i] != queue[head]);
    }
    assert forall|p: Pixel|
        in_image(w, h, p) && #[trigger] visited[pixel_index(w, p)] implies d2.contains(p) || exists|i: int|
            head + 1 <= i < queue.len() && queue[i] == p by {
        if !done.contains(p) {
            let i = choose|i: int| head <= i < queue.len() && queue[i] == p;
            if i == head {
                assert(p == c);
            }
        }
    }
    assert forall|p: Pixel| in_image(w, h, p) implies #[trigger] stripped_so_far(bytes2, orig, w, p, d2) by {
        lemma_index_in_range(w, h, p);
        if p != c {
            assert(stripped_so_far(bytes, orig, w, p, done));
            if pixel_index(w, p) == pixel_index(w, c) {
                lemma_index_injective(w, p, c);
            }
        }
    }
    assert forall|p: Pixel|
        #[trigger] d2.contains(p) && near_background(orig, w, p) implies background_region(orig, w, h, p) by {
        if p == c {
            if !is_corner(w, h, c) {
                let a = choose|a: Pixel| adjacent(a, c) && done.contains(a) && near_background(orig, w, a);
                lemma_region_grows(orig, w, h, c, a);
            } else {
                lemma_region_grows(orig, w, h, c, c);
            }
        }
    }
    assert forall|i: int|
        head + 1 <= i < queue.len() implies is_corner(w, h, #[trigger] queue[i]) || exists|a: Pixel|
            adjacent(a, queue[i]) && d2.contains(a) && near_background(orig, w, a) by {
        if !is_corner(w, h, queue[i]) {
            let a = choose|a: Pixel| adjacent(a, queue[i]) && done.contains(a) && near_background(orig, w, a);
            assert(d2.contains(a));
        }
    }
    assert forall|a: Pixel, b: Pixel|
        #[trigger] d2.contains(a) && !expanding.contains(a) && near_background(orig, w, a)
            && in_image(w, h, b) && #[trigger] adjacent(a, b) implies visited[pixel_index(w, b)] by {
        if a == c {
            assert(expanding.contains(c));
        }
    }
}

/// Once every neighbour of the pixel being expanded has been visited, no
/// pixel is being expanded any more.
proof fn lemma_expanded(
    orig: Seq<u8>,
    bytes: Seq<u8>,
    w: u32,
    h: u32,
    visited: Seq<bool>,
    queue: Seq<Pixel>,
    head: int,
    done: Set<Pixel>,
    c: Pixel,
    seen: Set<int>,
)
    requires
        fill_inv(orig, bytes, w, h, visited, queue, head, done, Set::empty().insert(c), seen),
        forall|b: Pixel| in_image(w, h, b) && #[trigger] adjacent(c, b) ==> visited[pixel_index(w, b)],
    ensures
        fill_inv(orig, bytes, w, h, visited, queue, head, done, Set::empty(), seen),
{
    assert forall|a: Pixel, b: Pixel|
        #[trigger] done.contains(a) && near_background(orig, w, a)
            && in_image(w, h, b) && #[trigger] adjacent(a, b) implies visited[pixel_index(w, b)] by {
        if a != c {
            assert(!Set::empty().insert(c).contains(a));
        }
    }
}

/// Every pixel on a background path has been taken off the queue, once the
/// queue is empty.
proof fn lemma_path_done(
    orig: Seq<u8>,
    bytes: Seq<u8>,
    w: u32,
    h: u32,
    visited: Seq<bool>,
    queue: Seq<Pixel>,
    done: Set<Pixel>,
    seen: Set<int>,
    path: Seq<Pixel>,
    i: int,
)
    requires
        fill_inv(orig, bytes, w, h, visited, queue, queue.len() as int, done, Set::empty(), seen),
        corners_visited(w, h, visited),
        background_path(orig, w, h, path),
        0 <= i < path.len(),
    ensures
        done.contains(path[i]),
    decreases i,
{
    assert(in_image(w, h, path[i]));
    if i == 0 {
        assert(visited[pixel_index(w, path[0])]);
    } else {
        lemma_path_done(orig, bytes, w, h, visited, queue, done, seen, path, i - 1);
        assert(near_background(orig, w, path[i - 1]));
        assert(adjacent(path[i - 1], path[i]));
        assert(visited[pixel_index(w, path[i])]);
    }
}

/// When the queue runs empty every pixel has been stripped as required.
proof fn lemma_fill_complete(
    orig: Seq<u8>,
    bytes: Seq<u8>,
    w: u32,
    h: u32,
    visited: Seq<bool>,
    queue: Seq<Pixel>,
    done: Set<Pixel>,
    seen: Set<int>,
)
    requires
        fill_inv(orig, bytes, w, h, visited, queue, queue.len() as int, done, Set::empty(), seen),
        corners_visited(w, h, visited),
    ensures
        forall|p: Pixel| in_image(w, h, p) ==> #[trigger] stripped_pixel(bytes, orig, w, h, p),
{
    assert forall|p: Pixel| in_image(w, h, p) implies #[trigger] stripped_pixel(bytes, orig, w, h, p) by {
        assert(stripped_so_far(bytes, orig, w, p, done));
        if background_region(orig, w, h, p) {
            let path = choose|path: Seq<Pixel>| #[trigger] background_path(orig, w, h, path) && path.last() == p;
            lemma_path_done(orig, bytes, w, h, visited, queue, done, seen, path, path.len() - 1);
            assert(near_background(orig, w, path[path.len() - 1]));
        }
    }
}

/// Marks pixel `p` as visited and queues it, unless it was visited already.
/// `p` must be a corner or touch a done background pixel.
fn visit(
    visited: &mut Vec<bool>,
    queue: &mut Vec<Pixel>,
    w: u32,
    h: u32,
    p: Pixel,
    Ghost(orig): Ghost<Seq<u8>>,
    Ghost(bytes): Ghost<Seq<u8>>,
    Ghost(head): Ghost<int>,
    Ghost(done): Ghost<Set<Pixel>>,
    Ghost(expanding): Ghost<Set<Pixel>>,
    Ghost(seen): Ghost<Set<int>>,
) -> (seen_after: Ghost<Set<int>>)
    requires
        fill_inv(orig, bytes, w, h, old(visited)@, old(queue)@, head, done, expanding, seen),
        in_image(w, h, p),
        is_corner(w, h, p) || exists|a: Pixel|
            adjacent(a, p) && done.contains(a) && near_background(orig, w, a),
    ensures
        fill_inv(orig, bytes, w, h, final(visited)@, final(queue)@, head, done, expanding, seen_after@),
        final(visited)@ == old(visited)@.update(pixel_index(w, p), true),
        final(visited)@.len() == old(visited)@.len(),
        final(visited)@[pixel_index(w, p)],
        forall|j: int| 0 <= j < old(visited)@.len() && old(visited)@[j] ==> #[trigger] final(visited)@[j],
{
    let len = visited.len();
    proof {
        lemma_index_in_range(w, h, p);
        assert(p.1 * w <= pixel_index(w, p) < len);
        lemma_visit(orig, bytes, w, h, visited@, queue@, head, done, expanding, seen, p);
    }
    let k = (p.1 as usize) * (w as usize) + (p.0 as usize);
    if !visited[k] {
        visited[k] = true;
        queue.push(p);
        Ghost(seen.insert(pixel_index(w, p)))
    } else {
        proof {
            assert(visited@.update(k as int, true) =~= visited@);
        }
        Ghost(seen)
    }
}

/// Queues the in-image neighbours of background pixel `c` (left, right, up,
/// down), which has just been taken off the queue.
fn queue_neighbours(
    visited: &mut Vec<bool>,
    queue: &mut Vec<Pixel>,
    w: u32,
    h: u32,
    c: Pixel,
    Ghost(orig): Ghost<Seq<u8>>,
    Ghost(bytes): Ghost<Seq<u8>>,
    Ghost(head): Ghost<int>,
    Ghost(done): Ghost<Set<Pixel>>,
    Ghost(seen): Ghost<Set<int>>,
) -> (seen_after: Ghost<Set<int>>)
    requires
        fill_inv(orig, bytes, w, h, old(visited)@, old(queue)@, head, done, Set::empty().insert(c), seen),
        in_image(w, h, c),
        done.contains(c),
        near_background(orig, w, c),
    ensures
        fill_inv(orig, bytes, w, h, final(visited)@, final(queue)@, head, done, Set::empty(), seen_after@),
        forall|j: int| 0 <= j < old(visited)@.len() && old(visited)@[j] ==> final(visited)@[j],
{
    let ghost expanding = Set::<Pixel>::empty().insert(c);
    let ghost mut seen = seen;
    let ghost v0 = visited@;
    let (x, y) = c;
    if x > 0 {
        let s = visit(visited, queue, w, h, (x - 1, y), Ghost(orig), Ghost(bytes), Ghost(head), Ghost(done), Ghost(expanding), Ghost(seen));
        proof {
            seen = s@;
        }
    }
    let ghost v1 = visited@;
    if x + 1 < w {
        let s = visit(visited, queue, w, h, (x + 1, y), Ghost(orig), Ghost(bytes), Ghost(head), Ghost(done), Ghost(expanding), Ghost(seen));
        proof {
            seen = s@;
        }
    }
    let ghost v2 = visited@;
    if y > 0 {
        let s = visit(visited, queue, w, h, (x, y - 1), Ghost(orig), Ghost(bytes), Ghost(head), Ghost(done), Ghost(expanding), Ghost(seen));
        proof {
            seen = s@;
        }
    }
    let ghost v3 = visited@;
    if y + 1 < h {
        let s = visit(visited, queue, w, h, (x, y + 1), Ghost(orig), Ghost(bytes), Ghost(head), Ghost(done), Ghost(expanding), Ghost(seen));
        proof {
            seen = s@;
        }
    }
    proof {
        assert forall|nb: Pixel| in_image(w, h, nb) && #[trigger] adjacent(c, nb) implies visited@[pixel_index(w, nb)] by {
            lemma_index_in_range(w, h, nb);
            if x > 0 {
                lemma_index_in_range(w, h, ((x - 1) as u32, y));
            }
            if x + 1 < w {
                lemma_index_in_range(w, h, ((x + 1) as u32, y));
            }
            if y > 0 {
                lemma_index_in_range(w, h, (x, (y - 1) as u32));
            }
            if y + 1 < h {
                lemma_index_in_range(w, h, (x, (y + 1) as u32));
            }
            if nb.1 == y && nb.0 + 1 == x {
                assert(nb == ((x - 1) as u32, y));
                assert(v1[pixel_index(w, nb)]);
                assert(v2[pixel_index(w, nb)]);
                assert(v3[pixel_index(w, nb)]);
            } else if nb.1 == y {
                assert(nb == ((x + 1) as u32, y));
                assert(v2[pixel_index(w, nb)]);
                assert(v3[pixel_index(w, nb)]);
            } else if nb.1 + 1 == y {
                assert(nb == (x, (y - 1) as u32));
                assert(v3[pixel_index(w, nb)]);
            } else {
                assert(nb == (x, (y + 1) as u32));
            }
        }
        lemma_expanded(orig, bytes, w, h, visited@, queue@, head, done, c, seen);
    }
    Ghost(seen)
}

/// Stripping never touches a pixel whose colour stands out from the
/// background: when its red, green or blue byte differs from the top-left
/// pixel's by more than `BACKGROUND_TOLERANCE`, all four of its bytes are kept.
pub proof fn lemma_strip_keeps_distinct_colours(
    orig: Seq<u8>,
    stripped: Seq<u8>,
    w: u32,
    h: u32,
    x: u32,
    y: u32,
    c: int,
)
    requires
        forall|p: Pixel| in_image(w, h, p) ==> #[trigger] stripped_pixel(stripped, orig, w, h, p),
        x < w,
        y < h,
        0 <= c < 3,
        orig[4 * (y * w + x) + c] - orig[c] > BACKGROUND_TOLERANCE || orig[c] - orig[4 * (y * w + x)
            + c] > BACKGROUND_TOLERANCE,
    ensures
        stripped[4 * (y * w + x)] == orig[4 * (y * w + x)],
        stripped[4 * (y * w + x) + 1] == orig[4 * (y * w + x) + 1],
        stripped[4 * (y * w + x) + 2] == orig[4 * (y * w + x) + 2],
        stripped[4 * (y * w + x) + 3] == orig[4 * (y * w + x) + 3],
{
    let p: Pixel = (x, y);
    assert(stripped_pixel(stripped, orig, w, h, p));
    if background_region(orig, w, h, p) {
        let path = choose|path: Seq<Pixel>| #[trigger] background_path(orig, w, h, path) && path.last() == p;
        assert(near_background(orig, w, path[path.len() - 1]));
        assert(false);
    }
}

/// Takes the next pixel off the queue; when it is near the background colour,
/// clears it and queues its neighbours.
fn fill_step(
    img: &mut RgbaBuffer,
    visited: &mut Vec<bool>,
    queue: &mut Vec<Pixel>,
    head: usize,
    bg: (u8, u8, u8),
    Ghost(orig): Ghost<Seq<u8>>,
    Ghost(done): Ghost<Set<Pixel>>,
    Ghost(seen): Ghost<Set<int>>,
) -> (after: Ghost<(Set<Pixel>, Set<int>)>)
    requires
        fill_inv(
            orig,
            old(img).pixels@,
            old(img).width,
            old(img).height,
            old(visited)@,
            old(queue)@,
            head as int,
            done,
            Set::empty(),
            seen,
        ),
        head < old(queue)@.len(),
        bg == (orig[0], orig[1], orig[2]),
    ensures
        final(img).width == old(img).width,
        final(img).height == old(img).height,
        fill_inv(
            orig,
            final(img).pixels@,
            old(img).width,
            old(img).height,
            final(visited)@,
            final(queue)@,
            head + 1,
            after@.0,
            Set::empty(),
            after@.1,
        ),
        forall|j: int| 0 <= j < old(visited)@.len() && old(visited)@[j] ==> final(visited)@[j],
{
    let w = img.width;
    let h = img.height;
    let c = queue[head];
    let (x, y) = c;
    let vlen = visited.len();
    let plen = img.pixels.len();
    proof {
        lemma_index_in_range(w, h, c);
        assert(!done.contains(c));
        assert(stripped_so_far(img.pixels@, orig, w, c, done));
        assert(y * w <= pixel_index(w, c) < vlen);
        lemma_take(orig, img.pixels@, w, h, visited@, queue@, head as int, done, seen);
    }
    let k = (y as usize) * (w as usize) + (x as usize);
    let base = 4 * k;
    let r = img.pixels[base];
    let g = img.pixels[base + 1];
    let b = img.pixels[base + 2];
    let dr = r as i32 - bg.0 as i32;
    let dg = g as i32 - bg.1 as i32;
    let db = b as i32 - bg.2 as i32;
    let matches = -BACKGROUND_TOLERANCE <= dr && dr <= BACKGROUND_TOLERANCE && -BACKGROUND_TOLERANCE
        <= dg && dg <= BACKGROUND_TOLERANCE && -BACKGROUND_TOLERANCE <= db && db
        <= BACKGROUND_TOLERANCE;
    assert(matches == near_background(orig, w, c));
    let ghost bytes_before = img.pixels@;
    let ghost done_after = done.insert(c);
    if matches {
        img.pixels[base] = 0;
        img.pixels[base + 1] = 0;
        img.pixels[base + 2] = 0;
        img.pixels[base + 3] = 0;
        assert(img.pixels@ == clear_pixel(bytes_before, w, c));
        let s = queue_neighbours(
            visited,
            queue,
            w,
            h,
            c,
            Ghost(orig),
            Ghost(img.pixels@),
            Ghost(head + 1),
            Ghost(done_after),
            Ghost(seen),
        );
        Ghost((done_after, s@))
    } else {
        Ghost((done_after, seen))
    }
}

/// BFS flood-fill from all four corners, making every connected near-background pixel
/// fully transparent. This removes the solid white/grey canvas without touching the car body.
pub fn strip_background(img: &mut RgbaBuffer)
    requires
        old(img).width > 0,
        old(img).height > 0,
        old(img).pixels@.len() == (old(img).width * old(img).height) * 4,
    ensures
        final(img).width == old(img).width,
        final(img).height == old(img).height,
        final(img).pixels@.len() == old(img).pixels@.len(),
        forall|p: Pixel|
            in_image(old(img).width, old(img).height, p) ==> #[trigger] stripped_pixel(
                final(img).pixels@,
                old(img).pixels@,
                old(img).width,
                old(img).height,
                p,
            ),
{
    let w = img.width;
    let h = img.height;
    let ghost orig = img.pixels@;
    proof {
        assert(w * h >= 1) by (nonlinear_arith)
            requires
                w >= 1,
                h >= 1,
        ;
    }
    let byte_len = img.pixels.len();
    let bg_r = img.pixels[0];
    let bg_g = img.pixels[1];
    let bg_b = img.pixels[2];
    let n = (w as usize) * (h as usize);
    let mut visited: Vec<bool> = Vec::new();
    while visited.len() < n
        invariant
            visited@.len() <= n,
            n == w * h,
            forall|i: int| 0 <= i < visited@.len() ==> !visited@[i],
        decreases n - visited@.len(),
    {
        visited.push(false);
    }
    let mut queue: Vec<Pixel> = Vec::new();
    let ghost mut done: Set<Pixel> = Set::empty();
    let ghost mut seen: Set<int> = Set::empty();
    proof {
        assert forall|p: Pixel| in_image(w, h, p) implies #[trigger] stripped_so_far(
            img.pixels@,
            orig,
            w,
            p,
            done,
        ) by {}
        assert forall|p: Pixel| in_image(w, h, p) && #[trigger] visited@[pixel_index(w, p)] implies false by {
            lemma_index_in_range(w, h, p);
        }
    }
    let ghost no_expanding: Set<Pixel> = Set::empty();
    let corners: [Pixel; 4] = [(0, 0), (w - 1, 0), (0, h - 1), (w - 1, h - 1)];
    let mut ci: usize = 0;
    while ci < 4
        invariant
            0 <= ci <= 4,
            corners@ == seq![(0u32, 0u32), ((w - 1) as u32, 0u32), (0u32, (h - 1) as u32), ((w - 1) as u32, (h - 1) as u32)],
            img.pixels@ == orig,
            w > 0,
            h > 0,
            done == Set::<Pixel>::empty(),
            fill_inv(orig, img.pixels@, w, h, visited@, queue@, 0, done, no_expanding, seen),
            forall|j: int| 0 <= j < ci ==> visited@[pixel_index(w, #[trigger] corners@[j])],
        decreases 4 - ci,
    {
        let c = corners[ci];
        let ghost before = visited@;
        proof {
            lemma_index_in_range(w, h, c);
        }
        let s = visit(
            &mut visited,
            &mut queue,
            w,
            h,
            c,
            Ghost(orig),
            Ghost(img.pixels@),
            Ghost(0),
            Ghost(done),
            Ghost(no_expanding),
            Ghost(seen),
        );
        proof {
            seen = s@;
            assert forall|j: int| 0 <= j < ci + 1 implies visited@[pixel_index(w, #[trigger] corners@[j])] by {
                lemma_index_in_range(w, h, corners@[j]);
                if j < ci {
                    assert(before[pixel_index(w, corners@[j])]);
                }
            }
        }
        ci = ci + 1;
    }
    proof {
        assert forall|p: Pixel| in_image(w, h, p) && #[trigger] is_corner(w, h, p) implies visited@[pixel_index(w, p)] by {
            if p.0 == 0 && p.1 == 0 {
                assert(p == corners@[0]);
            } else if p.1 == 0 {
                assert(p == corners@[1]);
            } else if p.0 == 0 {
                assert(p == corners@[2]);
            } else {
                assert(p == corners@[3]);
            }
        }
    }
    let mut head: usize = 0;
    while head < queue.len()
        invariant
            img.width == w,
            img.height == h,
            w > 0,
            h > 0,
            orig.len() == (w * h) * 4,
            bg_r == orig[0],
            bg_g == orig[1],
            bg_b == orig[2],
            fill_inv(orig, img.pixels@, w, h, visited@, queue@, head as int, done, no_expanding, seen),
            no_expanding == Set::<Pixel>::empty(),
            corners_visited(w, h, visited@),
        decreases w * h - head,
    {
        proof {
            vstd::set_lib::lemma_int_range(0, w * h);
            vstd::set_lib::lemma_len_subset(seen, vstd::set_lib::set_int_range(0, w * h));
        }
        let step = fill_step(
            img,
            &mut visited,
            &mut queue,
            head,
            (bg_r, bg_g, bg_b),
            Ghost(orig),
            Ghost(done),
            Ghost(seen),
        );
        proof {
            done = step@.0;
            seen = step@.1;
            assert forall|p: Pixel| in_image(w, h, p) && #[trigger] is_corner(w, h, p) implies visited@[pixel_index(w, p)] by {
                lemma_index_in_range(w, h, p);
            }
        }
        head = head + 1;
    }
    proof {
        lemma_fill_complete(orig, img.pixels@, w, h, visited@, queue@, done, seen);
    }
}

} // verus!
