//! Connected-component labelling.  Every pixel that differs from the
//! background reference value is a foreground candidate; candidates receive
//! positive labels assigned in scan order by an explicit stack-based flood
//! fill under the chosen adjacency, and every other pixel keeps label 0.

use vstd::prelude::*;
use crate::grid::Grid;
use crate::grid::flat;
use crate::grid::lemma_flat_in_bounds;
use crate::grid::lemma_flat_injective;
use crate::size_filter::count_eq;
use crate::size_filter::lemma_count_eq_bounds;
use crate::size_filter::lemma_count_eq_update;

verus! {

/// Pixel-adjacency rule for labelling: orthogonal neighbors only, or
/// orthogonal and diagonal neighbors.
#[derive(Clone, Copy, Debug)]
pub enum Connectivity {
    Four,
    Eight,
}

/// Whether `(x1, y1)` and `(x2, y2)` are neighbors under `conn`.
pub open spec fn spec_adjacent(conn: Connectivity, x1: int, y1: int, x2: int, y2: int) -> bool {
    match conn {
        Connectivity::Four => (x1 == x2 && (y1 == y2 + 1 || y2 == y1 + 1)) || (y1 == y2 && (x1
            == x2 + 1 || x2 == x1 + 1)),
        Connectivity::Eight => !(x1 == x2 && y1 == y2) && x1 <= x2 + 1 && x2 <= x1 + 1 && y1 <= y2
            + 1 && y2 <= y1 + 1,
    }
}

/// Some cell of `labels` carries the label `l`.
pub open spec fn label_used(labels: Grid<usize>, l: usize) -> bool {
    exists|i: int| 0 <= i < labels.cells.len() && labels.cells[i] == l
}

/// What the labeller guarantees: a well-formed label buffer of the image's
/// dimensions in which exactly the non-background pixels carry labels, all
/// labels lie in `1 ..= count`, and every label in that range is used.
pub open spec fn labelling_ok(
    width: int,
    height: int,
    img_cells: Seq<u8>,
    background: u8,
    labels: Grid<usize>,
    count: usize,
) -> bool {
    &&& labels.wf()
    &&& labels.width == width
    &&& labels.height == height
    &&& labels.cells.len() == img_cells.len()
    &&& forall|i: int|
        0 <= i < labels.cells.len() ==> ((labels.cells[i] != 0) <==> (img_cells[i] != background))
    &&& forall|i: int| 0 <= i < labels.cells.len() ==> labels.cells[i] <= count
    &&& forall|l: usize| 1 <= l <= count ==> #[trigger] label_used(labels, l)
    &&& count <= labels.cells.len()
}

/// Adjacency soundness: whenever a labelled pixel has a foreground
/// neighbor under `conn`, the neighbor carries the same label — no
/// connected region is ever split across two labels.
pub open spec fn adjacency_sound(
    img: Grid<u8>,
    background: u8,
    conn: Connectivity,
    labels: Grid<usize>,
) -> bool {
    forall|x1: int, y1: int, x2: int, y2: int|
        #![trigger spec_adjacent(conn, x1, y1, x2, y2)]
        labels.in_bounds(x1, y1) && labels.in_bounds(x2, y2) && spec_adjacent(conn, x1, y1, x2, y2)
            && labels.cell(x1, y1) != 0 && img.cell(x2, y2) != background ==> labels.cell(x2, y2)
            == labels.cell(x1, y1)
}

/// A walk through the foreground: at least one pixel, every pixel
/// in bounds and non-background, and consecutive pixels neighbors under
/// `conn`.
pub open spec fn is_path(
    img: Grid<u8>,
    background: u8,
    conn: Connectivity,
    path: Seq<(usize, usize)>,
) -> bool {
    &&& path.len() >= 1
    &&& forall|k: int|
        0 <= k < path.len() ==> img.in_bounds((#[trigger] path[k]).0 as int, path[k].1 as int)
            && img.cell(path[k].0 as int, path[k].1 as int) != background
    &&& forall|k: int|
        0 <= k < path.len() - 1 ==> spec_adjacent(
            conn,
            (#[trigger] path[k]).0 as int,
            path[k].1 as int,
            path[k + 1].0 as int,
            path[k + 1].1 as int,
        )
}

/// `p` can be reached from `root` through the foreground.
pub open spec fn connected_from(
    img: Grid<u8>,
    background: u8,
    conn: Connectivity,
    root: (usize, usize),
    p: (usize, usize),
) -> bool {
    exists|path: Seq<(usize, usize)>|
        #[trigger] is_path(img, background, conn, path) && path.first() == root && path.last() == p
}

/// Every pixel of label `l` can be reached from `root` through the
/// foreground.
pub open spec fn rooted(
    img: Grid<u8>,
    background: u8,
    conn: Connectivity,
    labels: Grid<usize>,
    l: usize,
    root: (usize, usize),
) -> bool {
    forall|x: int, y: int|
        labels.in_bounds(x, y) && #[trigger] labels.cell(x, y) == l ==> connected_from(
            img,
            background,
            conn,
            root,
            ((x as usize), (y as usize)),
        )
}

/// The pixels of label `l` all hang together: some root pixel reaches
/// every one of them through the foreground, so one label never covers
/// two separate regions.
pub open spec fn label_connected(
    img: Grid<u8>,
    background: u8,
    conn: Connectivity,
    labels: Grid<usize>,
    l: usize,
) -> bool {
    exists|root: (usize, usize)| #[trigger] rooted(img, background, conn, labels, l, root)
}

/// A foreground path grows by one neighboring foreground pixel.
proof fn lemma_path_extend(
    img: Grid<u8>,
    background: u8,
    conn: Connectivity,
    path: Seq<(usize, usize)>,
    q: (usize, usize),
)
    requires
        is_path(img, background, conn, path),
        img.in_bounds(q.0 as int, q.1 as int),
        img.cell(q.0 as int, q.1 as int) != background,
        spec_adjacent(
            conn,
            path.last().0 as int,
            path.last().1 as int,
            q.0 as int,
            q.1 as int,
        ),
    ensures
        is_path(img, background, conn, path.push(q)),
        path.push(q).first() == path.first(),
        path.push(q).last() == q,
{
    let ext = path.push(q);
    assert forall|k: int|
        0 <= k < ext.len() implies img.in_bounds((#[trigger] ext[k]).0 as int, ext[k].1 as int)
        && img.cell(ext[k].0 as int, ext[k].1 as int) != background by {
        if k < path.len() {
            assert(ext[k] == path[k]);
        } else {
            assert(ext[k] == q);
        }
    }
    assert forall|k: int| 0 <= k < ext.len() - 1 implies spec_adjacent(
        conn,
        (#[trigger] ext[k]).0 as int,
        ext[k].1 as int,
        ext[k + 1].0 as int,
        ext[k + 1].1 as int,
    ) by {
        if k < path.len() - 1 {
            assert(ext[k] == path[k]);
            assert(ext[k + 1] == path[k + 1]);
        } else {
            assert(ext[k] == path.last());
            assert(ext[k + 1] == q);
        }
    }
}

/// Under adjacency soundness, the label is constant along any foreground
/// path whose start is labelled: a labelled region is never left by
/// walking through the foreground.
pub proof fn lemma_path_label_constant(
    img: Grid<u8>,
    background: u8,
    conn: Connectivity,
    labels: Grid<usize>,
    path: Seq<(usize, usize)>,
)
    requires
        labels.width == img.width,
        labels.height == img.height,
        adjacency_sound(img, background, conn, labels),
        is_path(img, background, conn, path),
        labels.cell(path.first().0 as int, path.first().1 as int) != 0,
    ensures
        forall|k: int|
            0 <= k < path.len() ==> labels.cell((#[trigger] path[k]).0 as int, path[k].1 as int)
                == labels.cell(path.first().0 as int, path.first().1 as int),
    decreases path.len(),
{
    if path.len() > 1 {
        let front = path.drop_last();
        assert(is_path(img, background, conn, front)) by {
            assert forall|k: int|
                0 <= k < front.len() implies img.in_bounds(
                (#[trigger] front[k]).0 as int,
                front[k].1 as int,
            ) && img.cell(front[k].0 as int, front[k].1 as int) != background by {
                assert(front[k] == path[k]);
            }
            assert forall|k: int| 0 <= k < front.len() - 1 implies spec_adjacent(
                conn,
                (#[trigger] front[k]).0 as int,
                front[k].1 as int,
                front[k + 1].0 as int,
                front[k + 1].1 as int,
            ) by {
                assert(front[k] == path[k]);
                assert(front[k + 1] == path[k + 1]);
            }
        }
        assert(front.first() == path.first());
        lemma_path_label_constant(img, background, conn, labels, front);
        let n = path.len() - 1;
        assert(front[n - 1] == path[n - 1]);
        assert(spec_adjacent(
            conn,
            path[n - 1].0 as int,
            path[n - 1].1 as int,
            path[n].0 as int,
            path[n].1 as int,
        ));
        assert forall|k: int|
            0 <= k < path.len() implies labels.cell(
            (#[trigger] path[k]).0 as int,
            path[k].1 as int,
        ) == labels.cell(path.first().0 as int, path.first().1 as int) by {
            if k < n {
                assert(front[k] == path[k]);
            }
        }
    }
}

/// On a uniform-background image the labeller yields zero non-zero labels.
pub proof fn lemma_uniform_background_unlabelled(
    width: int,
    height: int,
    img_cells: Seq<u8>,
    background: u8,
    labels: Grid<usize>,
    count: usize,
)
    requires
        labelling_ok(width, height, img_cells, background, labels, count),
        forall|i: int| 0 <= i < img_cells.len() ==> img_cells[i] == background,
    ensures
        count == 0,
        forall|i: int| 0 <= i < labels.cells.len() ==> labels.cells[i] == 0,
{
    assert(img_cells.len() == labels.cells.len());
    if count >= 1 {
        assert(label_used(labels, count));
        let i = choose|i: int| 0 <= i < labels.cells.len() && labels.cells[i] == count;
        assert(img_cells[i] != background);
        assert(false);
    }
}

/// One flood-fill step: if the neighbor is an unlabelled foreground pixel,
/// label it `next` and push it; otherwise change nothing.
fn try_visit(
    img: &Grid<u8>,
    background: u8,
    labels: &mut Grid<usize>,
    stack: &mut Vec<(usize, usize)>,
    nx: usize,
    ny: usize,
    next: usize,
) -> (visited: bool)
    requires
        img.wf(),
        old(labels).wf(),
        old(labels).width == img.width,
        old(labels).height == img.height,
        old(labels).in_bounds(nx as int, ny as int),
    ensures
        visited == (img.cell(nx as int, ny as int) != background && old(labels).cell(
            nx as int,
            ny as int,
        ) == 0),
        visited ==> final(labels).cells@ == old(labels).cells@.update(
            flat(nx as int, ny as int, img.width as int),
            next,
        ) && final(stack)@ == old(stack)@.push((nx, ny)),
        !visited ==> *final(labels) == *old(labels) && final(stack)@ == old(stack)@,
        final(labels).width == old(labels).width,
        final(labels).height == old(labels).height,
        final(labels).wf(),
{
    if img.get(nx, ny) != background && labels.get(nx, ny) == 0 {
        labels.set(nx, ny, next);
        stack.push((nx, ny));
        true
    } else {
        false
    }
}

/// Labels become defined only where the old buffer held 0, and only with
/// the value `next` on foreground pixels; everything else is untouched.
spec fn grows_to(
    img: Grid<u8>,
    background: u8,
    l0: Grid<usize>,
    l1: Grid<usize>,
    next: usize,
) -> bool {
    &&& l1.wf()
    &&& l1.width == l0.width
    &&& l1.height == l0.height
    &&& l1.cells.len() == l0.cells.len()
    &&& forall|i: int|
        0 <= i < l1.cells.len() ==> (l1.cells[i] != l0.cells[i] ==> l0.cells[i] == 0
            && l1.cells[i] == next && img.cells[i] != background)
}

/// Every stack entry is an in-bounds pixel of the current component.
spec fn stack_labelled(labels: Grid<usize>, stack: Seq<(usize, usize)>, next: usize) -> bool {
    forall|k: int|
        0 <= k < stack.len() ==> labels.in_bounds((#[trigger] stack[k]).0 as int, stack[k].1 as int)
            && labels.cell(stack[k].0 as int, stack[k].1 as int) == next
}

/// Only foreground pixels carry labels.
spec fn fg_only(img: Grid<u8>, background: u8, labels: Grid<usize>) -> bool {
    forall|i: int|
        0 <= i < labels.cells.len() ==> (labels.cells[i] != 0 ==> img.cells[i] != background)
}

/// The flood-fill invariant: a labelled pixel whose foreground neighbor
/// carries a different label (or none yet) is an open pixel of the
/// current component — labelled `next` and still on the stack.
spec fn flood_consistent(
    img: Grid<u8>,
    background: u8,
    conn: Connectivity,
    labels: Grid<usize>,
    stack: Seq<(usize, usize)>,
    next: usize,
) -> bool {
    forall|x1: int, y1: int, x2: int, y2: int|
        #![trigger spec_adjacent(conn, x1, y1, x2, y2)]
        labels.in_bounds(x1, y1) && labels.in_bounds(x2, y2) && spec_adjacent(conn, x1, y1, x2, y2)
            && labels.cell(x1, y1) != 0 && img.cell(x2, y2) != background ==> labels.cell(x2, y2)
            == labels.cell(x1, y1) || (labels.cell(x1, y1) == next && stack.contains(
            ((x1 as usize), (y1 as usize)),
        ))
}

/// Flood fill from an unlabelled foreground seed: labels the seed `next`
/// and extends the label through neighboring unlabelled foreground pixels
/// with an explicit stack.
fn flood(
    img: &Grid<u8>,
    background: u8,
    conn: Connectivity,
    labels: &mut Grid<usize>,
    seed_x: usize,
    seed_y: usize,
    next: usize,
)
    requires
        img.wf(),
        old(labels).wf(),
        old(labels).width == img.width,
        old(labels).height == img.height,
        old(labels).in_bounds(seed_x as int, seed_y as int),
        img.cell(seed_x as int, seed_y as int) != background,
        old(labels).cell(seed_x as int, seed_y as int) == 0,
        next >= 1,
        forall|i: int| 0 <= i < old(labels).cells.len() ==> old(labels).cells[i] < next,
        fg_only(*img, background, *old(labels)),
        adjacency_sound(*img, background, conn, *old(labels)),
    ensures
        grows_to(*img, background, *old(labels), *final(labels), next),
        final(labels).cell(seed_x as int, seed_y as int) == next,
        adjacency_sound(*img, background, conn, *final(labels)),
        rooted(*img, background, conn, *final(labels), next, (seed_x, seed_y)),
{
    let w: usize = img.width;
    let h: usize = img.height;
    let ghost labels0 = *labels;
    proof {
        lemma_flat_in_bounds(seed_x as int, seed_y as int, w as int, h as int);
    }
    labels.set(seed_x, seed_y, next);
    let mut stack: Vec<(usize, usize)> = Vec::new();
    stack.push((seed_x, seed_y));
    proof {
        let f0 = flat(seed_x as int, seed_y as int, w as int);
        assert forall|x: int, y: int|
            labels.in_bounds(x, y) && #[trigger] labels.cell(x, y) == next implies connected_from(
            *img,
            background,
            conn,
            (seed_x, seed_y),
            ((x as usize), (y as usize)),
        ) by {
            lemma_flat_in_bounds(x, y, w as int, h as int);
            if flat(x, y, w as int) == f0 {
                lemma_flat_injective(x, y, seed_x as int, seed_y as int, w as int);
                let path = seq![(seed_x, seed_y)];
                assert(is_path(*img, background, conn, path)) by {
                    assert(path[0] == (seed_x, seed_y));
                }
                assert(path.first() == (seed_x, seed_y) && path.last() == (seed_x, seed_y));
            } else {
                assert(labels0.cell(x, y) == next);
                assert(false);
            }
        }
        assert forall|x1: int, y1: int, x2: int, y2: int|
            labels.in_bounds(x1, y1) && labels.in_bounds(x2, y2) && #[trigger] spec_adjacent(
                conn,
                x1,
                y1,
                x2,
                y2,
            ) && labels.cell(x1, y1) != 0 && img.cell(x2, y2)
            != background implies labels.cell(x2, y2) == labels.cell(x1, y1) || (labels.cell(
            x1,
            y1,
        ) == next && stack@.contains(((x1 as usize), (y1 as usize)))) by {
            lemma_flat_in_bounds(x1, y1, w as int, h as int);
            lemma_flat_in_bounds(x2, y2, w as int, h as int);
            if flat(x1, y1, w as int) == f0 {
                lemma_flat_injective(x1, y1, seed_x as int, seed_y as int, w as int);
                assert(stack@[0] == (seed_x, seed_y));
                assert(stack@.contains(((x1 as usize), (y1 as usize))));
            } else {
                assert(labels.cell(x1, y1) == labels0.cell(x1, y1));
                if flat(x2, y2, w as int) == f0 {
                    lemma_flat_injective(x2, y2, seed_x as int, seed_y as int, w as int);
                    // The seed was unlabelled, so by adjacency soundness no
                    // labelled pixel borders it.
                    assert(labels0.cell(x2, y2) == labels0.cell(x1, y1));
                    assert(false);
                }
            }
        }
    }
    while stack.len() > 0
        invariant
            labels.wf(),
            labels.width == w,
            labels.height == h,
            grows_to(*img, background, labels0, *labels, next),
            labels.cell(seed_x as int, seed_y as int) == next,
            stack_labelled(*labels, stack@, next),
            rooted(*img, background, conn, *labels, next, (seed_x, seed_y)),
            fg_only(*img, background, *labels),
            forall|i: int| 0 <= i < labels.cells.len() ==> labels.cells[i] <= next,
            flood_consistent(*img, background, conn, *labels, stack@, next),
        decreases count_eq(labels.cells@, 0usize) + stack.len(),
    {
        proof {
            lemma_count_eq_bounds(labels.cells@, 0usize);
        }
        let ghost zeros0 = count_eq(labels.cells@, 0usize);
        let ghost slen0 = stack@.len();
        let ghost stack_pre = stack@;
        let popped: (usize, usize) = stack.pop().unwrap();
        let cx = popped.0;
        let cy = popped.1;
        proof {
            assert(stack@.push((cx, cy)) =~= stack_pre);
        }
        visit_neighbors(
            img,
            background,
            conn,
            labels,
            &mut stack,
            cx,
            cy,
            next,
            Ghost((seed_x, seed_y)),
        );
        proof {
            assert(count_eq(labels.cells@, 0usize) + stack@.len() < zeros0 + slen0);
        }
    }
    proof {
        assert forall|x1: int, y1: int, x2: int, y2: int|
            labels.in_bounds(x1, y1) && labels.in_bounds(x2, y2) && #[trigger] spec_adjacent(
                conn,
                x1,
                y1,
                x2,
                y2,
            ) && labels.cell(x1, y1) != 0 && img.cell(x2, y2)
            != background implies labels.cell(x2, y2) == labels.cell(x1, y1) by {
            assert(!stack@.contains(((x1 as usize), (y1 as usize))));
        }
    }
}

/// Offers every neighbor of the popped pixel `(cx, cy)` to the flood
/// fill, closing that pixel: afterwards every foreground neighbor of it
/// is labelled, so the invariant holds without it on the stack.
#[verifier::rlimit(60)]
fn visit_neighbors(
    img: &Grid<u8>,
    background: u8,
    conn: Connectivity,
    labels: &mut Grid<usize>,
    stack: &mut Vec<(usize, usize)>,
    cx: usize,
    cy: usize,
    next: usize,
    Ghost(seed): Ghost<(usize, usize)>,
)
    requires
        img.wf(),
        old(labels).wf(),
        old(labels).width == img.width,
        old(labels).height == img.height,
        old(labels).in_bounds(cx as int, cy as int),
        old(labels).cell(cx as int, cy as int) == next,
        next >= 1,
        stack_labelled(*old(labels), old(stack)@, next),
        rooted(*img, background, conn, *old(labels), next, seed),
        fg_only(*img, background, *old(labels)),
        forall|i: int| 0 <= i < old(labels).cells.len() ==> old(labels).cells[i] <= next,
        flood_consistent(*img, background, conn, *old(labels), old(stack)@.push((cx, cy)), next),
    ensures
        final(labels).wf(),
        final(labels).width == old(labels).width,
        final(labels).height == old(labels).height,
        grows_to(*img, background, *old(labels), *final(labels), next),
        stack_labelled(*final(labels), final(stack)@, next),
        rooted(*img, background, conn, *final(labels), next, seed),
        fg_only(*img, background, *final(labels)),
        forall|i: int| 0 <= i < final(labels).cells.len() ==> final(labels).cells[i] <= next,
        flood_consistent(*img, background, conn, *final(labels), final(stack)@, next),
        count_eq(final(labels).cells@, 0usize) + final(stack)@.len() == count_eq(
            old(labels).cells@,
            0usize,
        ) + old(stack)@.len(),
        forall|x: int, y: int|
            old(labels).in_bounds(x, y) && old(labels).cell(x, y) != 0 ==> final(labels).cell(x, y)
                == old(labels).cell(x, y),
{
    let w: usize = img.width;
    let h: usize = img.height;
    let ghost extra = (cx, cy);
    if cx > 0 {
        visit_one(img, background, conn, labels, stack, cx - 1, cy, next, Ghost(extra), Ghost(seed));
    }
    if cx + 1 < w {
        visit_one(img, background, conn, labels, stack, cx + 1, cy, next, Ghost(extra), Ghost(seed));
    }
    if cy > 0 {
        visit_one(img, background, conn, labels, stack, cx, cy - 1, next, Ghost(extra), Ghost(seed));
    }
    if cy + 1 < h {
        visit_one(img, background, conn, labels, stack, cx, cy + 1, next, Ghost(extra), Ghost(seed));
    }
    match conn {
        Connectivity::Four => {
        },
        Connectivity::Eight => {
            if cx > 0 && cy > 0 {
                visit_one(img, background, conn, labels, stack, cx - 1, cy - 1, next, Ghost(extra), Ghost(seed));
            }
            if cx + 1 < w && cy > 0 {
                visit_one(img, background, conn, labels, stack, cx + 1, cy - 1, next, Ghost(extra), Ghost(seed));
            }
            if cx > 0 && cy + 1 < h {
                visit_one(img, background, conn, labels, stack, cx - 1, cy + 1, next, Ghost(extra), Ghost(seed));
            }
            if cx + 1 < w && cy + 1 < h {
                visit_one(img, background, conn, labels, stack, cx + 1, cy + 1, next, Ghost(extra), Ghost(seed));
            }
        },
    }
    proof {
        assert forall|x2: int, y2: int|
            labels.in_bounds(x2, y2) && #[trigger] spec_adjacent(conn, cx as int, cy as int, x2, y2)
                && img.cell(x2, y2) != background implies labels.cell(x2, y2) != 0 by {}
        assert forall|x1: int, y1: int, x2: int, y2: int|
            labels.in_bounds(x1, y1) && labels.in_bounds(x2, y2) && #[trigger] spec_adjacent(
                conn,
                x1,
                y1,
                x2,
                y2,
            ) && labels.cell(x1, y1) != 0 && img.cell(x2, y2)
            != background implies labels.cell(x2, y2) == labels.cell(x1, y1) || (labels.cell(
            x1,
            y1,
        ) == next && stack@.contains(((x1 as usize), (y1 as usize)))) by {
            if labels.cell(x2, y2) != labels.cell(x1, y1) {
                assert(labels.cell(x1, y1) == next && stack@.push(extra).contains(
                    ((x1 as usize), (y1 as usize)),
                ));
                let p = ((x1 as usize), (y1 as usize));
                if !stack@.contains(p) {
                    // Only the closed pixel itself can have left the stack.
                    let k = choose|k: int|
                        0 <= k < stack@.push(extra).len() && stack@.push(extra)[k] == p;
                    assert(k == stack@.len());
                    assert(p == extra);
                    // Its foreground neighbors are all labelled now, and a
                    // labelled neighbor of another label would itself have
                    // to be open, which forces its label to `next` too.
                    assert(labels.cell(x2, y2) != 0);
                    lemma_flat_in_bounds(x1, y1, w as int, h as int);
                    lemma_flat_in_bounds(x2, y2, w as int, h as int);
                    assert(spec_adjacent(conn, x2, y2, x1, y1));
                    assert(labels.cell(x1, y1) == labels.cell(x2, y2) || (labels.cell(x2, y2)
                        == next && stack@.contains(((x2 as usize), (y2 as usize)))));
                    assert(false);
                }
            }
        }
    }
}

/// `try_visit` plus the invariants the flood-fill loop tracks; `extra` is
/// the popped pixel whose neighbors are being visited, counted as still
/// open while this runs.
fn visit_one(
    img: &Grid<u8>,
    background: u8,
    conn: Connectivity,
    labels: &mut Grid<usize>,
    stack: &mut Vec<(usize, usize)>,
    nx: usize,
    ny: usize,
    next: usize,
    Ghost(extra): Ghost<(usize, usize)>,
    Ghost(seed): Ghost<(usize, usize)>,
)
    requires
        img.wf(),
        old(labels).wf(),
        old(labels).width == img.width,
        old(labels).height == img.height,
        old(labels).in_bounds(nx as int, ny as int),
        next >= 1,
        stack_labelled(*old(labels), old(stack)@, next),
        old(labels).in_bounds(extra.0 as int, extra.1 as int),
        old(labels).cell(extra.0 as int, extra.1 as int) == next,
        spec_adjacent(conn, extra.0 as int, extra.1 as int, nx as int, ny as int),
        rooted(*img, background, conn, *old(labels), next, seed),
        fg_only(*img, background, *old(labels)),
        forall|i: int| 0 <= i < old(labels).cells.len() ==> old(labels).cells[i] <= next,
        flood_consistent(*img, background, conn, *old(labels), old(stack)@.push(extra), next),
    ensures
        final(labels).wf(),
        final(labels).width == old(labels).width,
        final(labels).height == old(labels).height,
        grows_to(*img, background, *old(labels), *final(labels), next),
        stack_labelled(*final(labels), final(stack)@, next),
        final(labels).cell(extra.0 as int, extra.1 as int) == next,
        rooted(*img, background, conn, *final(labels), next, seed),
        fg_only(*img, background, *final(labels)),
        forall|i: int| 0 <= i < final(labels).cells.len() ==> final(labels).cells[i] <= next,
        flood_consistent(*img, background, conn, *final(labels), final(stack)@.push(extra), next),
        count_eq(final(labels).cells@, 0usize) + final(stack)@.len() == count_eq(
            old(labels).cells@,
            0usize,
        ) + old(stack)@.len(),
        forall|x: int, y: int|
            old(labels).in_bounds(x, y) && old(labels).cell(x, y) != 0 ==> final(labels).cell(x, y)
                == old(labels).cell(x, y),
        img.cell(nx as int, ny as int) != background ==> final(labels).cell(nx as int, ny as int)
            != 0,
{
    let ghost pre = *labels;
    let ghost spre = stack@;
    let visited = try_visit(img, background, labels, stack, nx, ny, next);
    proof {
        let w = img.width as int;
        let h = img.height as int;
        lemma_flat_in_bounds(nx as int, ny as int, w, h);
        let f0 = flat(nx as int, ny as int, w);
        if visited {
            lemma_count_eq_update(pre.cells@, f0, next, 0usize);
            assert forall|x: int, y: int|
                labels.in_bounds(x, y) && #[trigger] labels.cell(x, y) == next implies
                connected_from(*img, background, conn, seed, ((x as usize), (y as usize))) by {
                lemma_flat_in_bounds(x, y, w, h);
                if flat(x, y, w) == f0 {
                    lemma_flat_injective(x, y, nx as int, ny as int, w);
                    assert(pre.cell(extra.0 as int, extra.1 as int) == next);
                    assert(connected_from(*img, background, conn, seed, extra));
                    let path = choose|path: Seq<(usize, usize)>|
                        is_path(*img, background, conn, path) && path.first() == seed
                            && path.last() == extra;
                    lemma_path_extend(*img, background, conn, path, (nx, ny));
                    assert(is_path(*img, background, conn, path.push((nx, ny))));
                } else {
                    assert(pre.cell(x, y) == next);
                }
            }
            assert forall|x: int, y: int|
                pre.in_bounds(x, y) && pre.cell(x, y) != 0 implies labels.cell(x, y) == pre.cell(
                x,
                y,
            ) by {
                lemma_flat_in_bounds(x, y, w, h);
                if flat(x, y, w) == f0 {
                    assert(pre.cells[flat(x, y, w)] == 0);
                }
            }
            assert forall|k: int|
                0 <= k < stack@.len() implies labels.in_bounds(
                (#[trigger] stack@[k]).0 as int,
                stack@[k].1 as int,
            ) && labels.cell(stack@[k].0 as int, stack@[k].1 as int) == next by {
                if k < spre.len() {
                    assert(stack@[k] == spre[k]);
                    lemma_flat_in_bounds(spre[k].0 as int, spre[k].1 as int, w, h);
                } else {
                    assert(stack@[k] == (nx, ny));
                }
            }
            assert forall|x1: int, y1: int, x2: int, y2: int|
                labels.in_bounds(x1, y1) && labels.in_bounds(x2, y2) && #[trigger] spec_adjacent(
                    conn,
                    x1,
                    y1,
                    x2,
                    y2,
                ) && labels.cell(x1, y1) != 0 && img.cell(x2, y2)
                != background implies labels.cell(x2, y2) == labels.cell(x1, y1) || (labels.cell(
                x1,
                y1,
            ) == next && stack@.push(extra).contains(((x1 as usize), (y1 as usize)))) by {
                lemma_flat_in_bounds(x1, y1, w, h);
                lemma_flat_in_bounds(x2, y2, w, h);
                let f1 = flat(x1, y1, w);
                let f2 = flat(x2, y2, w);
                if f1 == f0 {
                    lemma_flat_injective(x1, y1, nx as int, ny as int, w);
                    assert(stack@.push(extra)[spre.len() as int] == (nx, ny));
                    assert(stack@.push(extra).contains(((x1 as usize), (y1 as usize))));
                } else {
                    assert(labels.cell(x1, y1) == pre.cell(x1, y1));
                    if f2 == f0 {
                        lemma_flat_injective(x2, y2, nx as int, ny as int, w);
                        assert(pre.cell(x2, y2) == 0);
                        // The old invariant at this pair leaves only the
                        // open case, so the labelled side carries `next`.
                        assert(pre.cell(x1, y1) == next);
                        assert(labels.cell(x2, y2) == next);
                    } else {
                        assert(labels.cell(x2, y2) == pre.cell(x2, y2));
                        if pre.cell(x2, y2) != pre.cell(x1, y1) {
                            let p = ((x1 as usize), (y1 as usize));
                            assert(spre.push(extra).contains(p));
                            let k = choose|k: int|
                                0 <= k < spre.push(extra).len() && spre.push(extra)[k] == p;
                            if k < spre.len() {
                                assert(stack@.push(extra)[k] == p);
                            } else {
                                assert(stack@.push(extra)[stack@.len() as int] == extra);
                            }
                            assert(stack@.push(extra).contains(p));
                        }
                    }
                }
            }
        }
    }
}

/// Partitions the non-background pixels of `img` into labelled connected
/// regions under `conn`: labels are assigned in first-seen scan order by
/// an iterative flood fill, label 0 marks exactly the background pixels,
/// the returned count bounds every assigned label, and neighboring
/// foreground pixels always share a label.
pub fn connected_components(img: &Grid<u8>, conn: Connectivity, background: u8) -> (r: (
    Grid<usize>,
    usize,
))
    requires
        img.wf(),
    ensures
        labelling_ok(img.width as int, img.height as int, img.cells@, background, r.0, r.1),
        adjacency_sound(*img, background, conn, r.0),
        forall|l: usize|
            1 <= l <= r.1 ==> #[trigger] label_connected(*img, background, conn, r.0, l),
{
    let w: usize = img.width;
    let h: usize = img.height;
    let mut labels: Grid<usize> = Grid::new_fill(w, h, 0usize);
    proof {
        assert forall|x1: int, y1: int, x2: int, y2: int|
            labels.in_bounds(x1, y1) && labels.in_bounds(x2, y2) && #[trigger] spec_adjacent(
                conn,
                x1,
                y1,
                x2,
                y2,
            ) && labels.cell(x1, y1) != 0 && img.cell(x2, y2)
            != background implies labels.cell(x2, y2) == labels.cell(x1, y1) by {
            lemma_flat_in_bounds(x1, y1, w as int, h as int);
        }
    }
    let mut count: usize = 0;
    let mut y: usize = 0;
    while y < h
        invariant
            y <= h,
            labels.wf(),
            labels.width == w,
            labels.height == h,
            count <= y * w,
            forall|i: int|
                0 <= i < labels.cells.len() ==> (labels.cells[i] != 0 ==> img.cells[i]
                    != background),
            forall|i: int| 0 <= i < labels.cells.len() ==> labels.cells[i] <= count,
            forall|l: usize| 1 <= l <= count ==> #[trigger] label_used(labels, l),
            forall|i: int| 0 <= i < y * w ==> (img.cells[i] != background ==> labels.cells[i] != 0),
            adjacency_sound(*img, background, conn, labels),
            forall|l: usize|
                1 <= l <= count ==> #[trigger] label_connected(*img, background, conn, labels, l),
        decreases h - y,
    {
        let mut x: usize = 0;
        while x < w
            invariant
                x <= w,
                labels.wf(),
                labels.width == w,
                labels.height == h,
                count <= y * w + x,
                forall|i: int|
                    0 <= i < labels.cells.len() ==> (labels.cells[i] != 0 ==> img.cells[i]
                        != background),
                forall|i: int| 0 <= i < labels.cells.len() ==> labels.cells[i] <= count,
                forall|l: usize| 1 <= l <= count ==> #[trigger] label_used(labels, l),
                forall|i: int|
                    0 <= i < y * w + x ==> (img.cells[i] != background ==> labels.cells[i] != 0),
                adjacency_sound(*img, background, conn, labels),
                forall|l: usize|
                    1 <= l <= count ==> #[trigger] label_connected(
                        *img,
                        background,
                        conn,
                        labels,
                        l,
                    ),
            decreases w - x,
        {
            proof {
                lemma_flat_in_bounds(x as int, y as int, w as int, h as int);
            }
            if img.get(x, y) != background && labels.get(x, y) == 0 {
                count = count + 1;
                let ghost pre = labels;
                flood(img, background, conn, &mut labels, x, y, count);
                proof {
                    assert forall|l: usize| 1 <= l <= count implies #[trigger] label_used(
                        labels,
                        l,
                    ) by {
                        if l == count {
                            assert(labels.cells[flat(x as int, y as int, w as int)] == l);
                        } else {
                            assert(label_used(pre, l));
                            let i = choose|i: int| 0 <= i < pre.cells.len() && pre.cells[i] == l;
                            assert(labels.cells[i] == l);
                        }
                    }
                    assert forall|l: usize| 1 <= l <= count implies #[trigger] label_connected(
                        *img,
                        background,
                        conn,
                        labels,
                        l,
                    ) by {
                        if l == count {
                            assert(rooted(*img, background, conn, labels, l, (x, y)));
                        } else {
                            assert(label_connected(*img, background, conn, pre, l));
                            let root = choose|root: (usize, usize)|
                                #[trigger] rooted(*img, background, conn, pre, l, root);
                            assert forall|xx: int, yy: int|
                                labels.in_bounds(xx, yy) && #[trigger] labels.cell(xx, yy)
                                == l implies connected_from(
                                *img,
                                background,
                                conn,
                                root,
                                ((xx as usize), (yy as usize)),
                            ) by {
                                lemma_flat_in_bounds(xx, yy, w as int, h as int);
                                assert(pre.cell(xx, yy) == l);
                            }
                            assert(rooted(*img, background, conn, labels, l, root));
                        }
                    }
                }
            }
            proof {
                assert(labels.cells[flat(x as int, y as int, w as int)] != 0 || img.cells[flat(
                    x as int,
                    y as int,
                    w as int,
                )] == background);
            }
            x = x + 1;
        }
        proof {
            assert((y as int + 1) * (w as int) == y as int * (w as int) + w as int)
                by (nonlinear_arith);
        }
        y = y + 1;
    }
    proof {
        assert(y as int * (w as int) == (w as int) * (h as int)) by (nonlinear_arith)
            requires
                y == h,
        ;
        assert(y * w == labels.cells.len());
        assert forall|i: int|
            0 <= i < labels.cells.len() implies ((labels.cells[i] != 0) <==> (img.cells[i]
            != background)) by {}
    }
    (labels, count)
}

} // verus!
