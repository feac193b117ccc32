use crate::regions::region_area;
use crate::slic::label_at;
use crate::slic_helpers::{get_in_bounds, get_mut_in_bounds};
use vstd::prelude::*;

verus! {

/// The label of a pixel that has not been given a label yet.
pub const UNSET: usize = usize::MAX;

/// Whether the pixel in row `y`, column `x` lies in a picture of `width` by
/// `height` pixels.
pub open spec fn inside(width: int, height: int, y: int, x: int) -> bool {
    0 <= y < height && 0 <= x < width
}

/// Whether two pixels share a side.
pub open spec fn beside(y1: int, x1: int, y2: int, x2: int) -> bool {
    (y1 == y2 && (x1 == x2 + 1 || x2 == x1 + 1)) || (x1 == x2 && (y1 == y2 + 1 || y2 == y1 + 1))
}

/// Whether a numbering of the pixels gives the same number to every two
/// pixels that share a side and carry the same label.
pub open spec fn respects(
    labels: Seq<usize>,
    width: int,
    height: int,
    numbering: spec_fn(int, int) -> int,
) -> bool {
    forall|y1: int, x1: int, y2: int, x2: int|
        #![trigger numbering(y1, x1), numbering(y2, x2)]
        inside(width, height, y1, x1) && inside(width, height, y2, x2) && beside(y1, x1, y2, x2)
            && label_at(labels, width, y1, x1) != UNSET && label_at(labels, width, y1, x1)
            == label_at(labels, width, y2, x2) ==> numbering(y1, x1) == numbering(y2, x2)
}

/// Whether two pixels lie in one connected piece of one label: every
/// numbering of the pixels that does not change between pixels that share a
/// side and carry the same label gives them the same number.
pub open spec fn joined(
    labels: Seq<usize>,
    width: int,
    height: int,
    y1: int,
    x1: int,
    y2: int,
    x2: int,
) -> bool {
    forall|numbering: spec_fn(int, int) -> int| #[trigger]
        respects(labels, width, height, numbering) ==> numbering(y1, x1) == numbering(y2, x2)
}

/// Whether labelling `coarse` keeps together what labelling `fine` keeps
/// together: pixels with one label in `fine` have one label in `coarse`.
pub open spec fn coarser(fine: Seq<usize>, coarse: Seq<usize>, width: int, height: int) -> bool {
    forall|y1: int, x1: int, y2: int, x2: int|
        #![trigger label_at(fine, width, y1, x1), label_at(fine, width, y2, x2)]
        inside(width, height, y1, x1) && inside(width, height, y2, x2) && label_at(
            fine,
            width,
            y1,
            x1,
        ) != UNSET && label_at(fine, width, y1, x1) == label_at(fine, width, y2, x2) ==> label_at(
            coarse,
            width,
            y1,
            x1,
        ) != UNSET && label_at(coarse, width, y1, x1) == label_at(coarse, width, y2, x2)
}

/// What is joined under a labelling is joined under a coarser one.
pub proof fn lemma_joined_coarser(
    fine: Seq<usize>,
    coarse: Seq<usize>,
    width: int,
    height: int,
    y1: int,
    x1: int,
    y2: int,
    x2: int,
)
    requires
        coarser(fine, coarse, width, height),
        joined(fine, width, height, y1, x1, y2, x2),
    ensures
        joined(coarse, width, height, y1, x1, y2, x2),
{
    assert forall|numbering: spec_fn(int, int) -> int| #[trigger]
        respects(coarse, width, height, numbering) implies numbering(y1, x1) == numbering(
        y2,
        x2,
    ) by {
        assert forall|b1: int, a1: int, b2: int, a2: int|
            #![trigger numbering(b1, a1), numbering(b2, a2)]
            inside(width, height, b1, a1) && inside(width, height, b2, a2) && beside(b1, a1, b2, a2)
                && label_at(fine, width, b1, a1) != UNSET && label_at(fine, width, b1, a1)
                == label_at(fine, width, b2, a2) implies numbering(b1, a1) == numbering(b2, a2) by {
            assert(label_at(coarse, width, b1, a1) == label_at(coarse, width, b2, a2));
        }
        assert(respects(fine, width, height, numbering));
    }
}

/// Two pixels that share a side and carry the same label are joined.
pub proof fn lemma_joined_beside(
    labels: Seq<usize>,
    width: int,
    height: int,
    y1: int,
    x1: int,
    y2: int,
    x2: int,
)
    requires
        inside(width, height, y1, x1),
        inside(width, height, y2, x2),
        beside(y1, x1, y2, x2),
        label_at(labels, width, y1, x1) != UNSET,
        label_at(labels, width, y1, x1) == label_at(labels, width, y2, x2),
    ensures
        joined(labels, width, height, y1, x1, y2, x2),
{
}

/// Being joined carries over a common pixel.
pub proof fn lemma_joined_through(
    labels: Seq<usize>,
    width: int,
    height: int,
    y1: int,
    x1: int,
    y2: int,
    x2: int,
    y3: int,
    x3: int,
)
    requires
        joined(labels, width, height, y1, x1, y2, x2),
        joined(labels, width, height, y2, x2, y3, x3),
    ensures
        joined(labels, width, height, y1, x1, y3, x3),
        joined(labels, width, height, y2, x2, y1, x1),
{
}

/// Giving a label to a pixel that had none leaves one pixel less without
/// a label.
proof fn lemma_one_less_unset(labels: Seq<usize>, i: int, label: usize, upto: int)
    requires
        0 <= i < labels.len(),
        0 <= upto <= labels.len(),
        labels[i] == UNSET,
        label != UNSET,
    ensures
        region_area(labels.update(i, label), UNSET as int, upto) == region_area(
            labels,
            UNSET as int,
            upto,
        ) - if i < upto {
            1int
        } else {
            0int
        },
        region_area(labels, UNSET as int, upto) >= if i < upto {
            1int
        } else {
            0int
        },
    decreases upto,
{
    if upto > 0 {
        lemma_one_less_unset(labels, i, label, upto - 1);
    }
}

/// A place in a row-major buffer belongs to one pixel only.
proof fn lemma_places_apart(width: int, y1: int, x1: int, y2: int, x2: int)
    requires
        0 <= x1 < width,
        0 <= x2 < width,
        0 <= y1,
        0 <= y2,
        y1 != y2 || x1 != x2,
    ensures
        y1 * width + x1 != y2 * width + x2,
{
    crate::utils::lemma_cells_apart(width, 1, y1, x1, 0, y2, x2);
    assert((y1 * width + x1) * 1 + 0 != (y2 * width + x2) * 1 + 0);
}

/// Whether the pixels that carry `mark` are those listed in `queue`, all
/// of them inside the picture.
spec fn listed(
    fresh: Seq<usize>,
    width: int,
    height: int,
    mark: usize,
    queue: Seq<(i64, i64)>,
) -> bool {
    &&& forall|k: int|
        0 <= k < queue.len() ==> inside(width, height, (#[trigger] queue[k]).0 as int, queue[k].1 as int)
            && label_at(fresh, width, queue[k].0 as int, queue[k].1 as int) == mark
    &&& forall|y: int, x: int|
        inside(width, height, y, x) && #[trigger] label_at(fresh, width, y, x) == mark
            ==> exists|k: int|
            0 <= k < queue.len() && (#[trigger] queue[k]) == (y as i64, x as i64)
    &&& forall|i: int, j: int|
        0 <= i < queue.len() && 0 <= j < queue.len() && i != j ==> (#[trigger] queue[i]) != (
        #[trigger] queue[j])
}

/// Whether no pixel that has a label other than `mark` is beside a pixel
/// with the same old label and another new label.
spec fn settled(
    old_labels: Seq<usize>,
    fresh: Seq<usize>,
    width: int,
    height: int,
    mark: usize,
) -> bool {
    forall|y1: int, x1: int, y2: int, x2: int|
        #![trigger label_at(fresh, width, y1, x1), label_at(fresh, width, y2, x2)]
        inside(width, height, y1, x1) && inside(width, height, y2, x2) && beside(y1, x1, y2, x2)
            && label_at(old_labels, width, y1, x1) == label_at(old_labels, width, y2, x2)
            && label_at(fresh, width, y1, x1) != UNSET && label_at(fresh, width, y1, x1) != mark
            ==> label_at(fresh, width, y2, x2) == label_at(fresh, width, y1, x1)
}

/// Whether the first `head` pixels of the queue have all their neighbours
/// of the same old label marked.
spec fn expanded(
    old_labels: Seq<usize>,
    fresh: Seq<usize>,
    width: int,
    height: int,
    mark: usize,
    queue: Seq<(i64, i64)>,
    head: int,
) -> bool {
    forall|k: int, y: int, x: int|
        #![trigger queue[k], label_at(fresh, width, y, x)]
        0 <= k < head && inside(width, height, y, x) && beside(
            queue[k].0 as int,
            queue[k].1 as int,
            y,
            x,
        ) && label_at(old_labels, width, y, x) == label_at(
            old_labels,
            width,
            queue[k].0 as int,
            queue[k].1 as int,
        ) ==> label_at(fresh, width, y, x) == mark
}

/// Whether `fresh` is `start` with `mark` given to some pixels that had
/// no label and carry the old label `piece`.
spec fn marked_from(
    old_labels: Seq<usize>,
    start: Seq<usize>,
    fresh: Seq<usize>,
    width: int,
    height: int,
    mark: usize,
    piece: usize,
) -> bool {
    &&& fresh.len() == start.len()
    &&& forall|y: int, x: int|
        inside(width, height, y, x) ==> {
            &&& #[trigger] label_at(fresh, width, y, x) != mark ==> label_at(fresh, width, y, x)
                == label_at(start, width, y, x)
            &&& label_at(fresh, width, y, x) == mark ==> label_at(start, width, y, x) == UNSET
                && label_at(old_labels, width, y, x) == piece
        }
}

/// Looks at the neighbour in row `ny`, column `nx` of a marked pixel: if
/// it carries the old label `piece` and has no new label, it is marked and
/// queued.
fn visit(
    old_labels: &Vec<usize>,
    fresh: &mut Vec<usize>,
    width: i64,
    height: i64,
    ny: i64,
    nx: i64,
    mark: usize,
    piece: usize,
    queue: &mut Vec<(i64, i64)>,
)
    requires
        0 <= width <= u32::MAX,
        0 <= height <= u32::MAX,
        old_labels@.len() == height * width,
        old(fresh)@.len() == height * width,
        mark != UNSET,
    ensures
        final(fresh)@.len() == old(fresh)@.len(),
        ({
            let take = inside(width as int, height as int, ny as int, nx as int) && label_at(
                old_labels@,
                width as int,
                ny as int,
                nx as int,
            ) == piece && label_at(old(fresh)@, width as int, ny as int, nx as int) == UNSET;
            &&& take ==> final(fresh)@ == old(fresh)@.update(ny * width + nx, mark) && final(queue)@ == old(queue)@.push((ny, nx))
            &&& !take ==> final(fresh)@ == old(fresh)@ && final(queue)@ == old(queue)@
        }),
{
    proof {
        if inside(width as int, height as int, ny as int, nx as int) {
            crate::utils::lemma_planar_bounds(
                height as int,
                width as int,
                1,
                ny as int,
                nx as int,
                0,
            );
            assert((ny * width + nx) * 1 + 0 == ny * width + nx);
            assert(height * width * 1 == height * width) by (nonlinear_arith);
        }
    }
    let same = match get_in_bounds(width, height, nx, ny, old_labels.as_slice()) {
        Some(label) => *label == piece,
        None => false,
    };
    if same {
        let mut taken = false;
        match get_mut_in_bounds(width, height, nx, ny, fresh.as_mut_slice()) {
            Some(label) => {
                if *label == UNSET {
                    *label = mark;
                    taken = true;
                }
            },
            None => {},
        }
        if taken {
            queue.push((ny, nx));
        }
    }
}

/// Whether every pixel that carries `mark` is joined to the pixel in row
/// `sy`, column `sx`.
spec fn gathered_at(fresh: Seq<usize>, width: int, height: int, mark: usize, sy: int, sx: int) -> bool {
    forall|y: int, x: int|
        inside(width, height, y, x) && #[trigger] label_at(fresh, width, y, x) == mark ==> joined(
            fresh,
            width,
            height,
            y,
            x,
            sy,
            sx,
        )
}

/// Whether every pixel that carries `mark` lies in the piece of the pixel
/// in row `sy`, column `sx`: the two are joined under the old labels.
spec fn traced(
    old_labels: Seq<usize>,
    fresh: Seq<usize>,
    width: int,
    height: int,
    mark: usize,
    sy: int,
    sx: int,
) -> bool {
    forall|y: int, x: int|
        inside(width, height, y, x) && #[trigger] label_at(fresh, width, y, x) == mark ==> joined(
            old_labels,
            width,
            height,
            y,
            x,
            sy,
            sx,
        )
}

/// Marking one more pixel beside a marked pixel keeps what the flood fill
/// has established.
proof fn lemma_fill_step(
    old_labels: Seq<usize>,
    start: Seq<usize>,
    before: Seq<usize>,
    after: Seq<usize>,
    width: int,
    height: int,
    mark: usize,
    piece: usize,
    sy: int,
    sx: int,
    py: int,
    px: int,
    ny: int,
    nx: int,
)
    requires
        0 < width,
        0 <= height,
        before.len() == height * width,
        mark != UNSET,
        inside(width, height, py, px),
        inside(width, height, ny, nx),
        beside(py, px, ny, nx),
        label_at(before, width, py, px) == mark,
        label_at(before, width, ny, nx) == UNSET,
        label_at(old_labels, width, ny, nx) == piece,
        after == before.update(ny * width + nx, mark),
        marked_from(old_labels, start, before, width, height, mark, piece),
        settled(old_labels, before, width, height, mark),
        gathered_at(before, width, height, mark, sy, sx),
        traced(old_labels, before, width, height, mark, sy, sx),
        piece != UNSET,
    ensures
        marked_from(old_labels, start, after, width, height, mark, piece),
        settled(old_labels, after, width, height, mark),
        gathered_at(after, width, height, mark, sy, sx),
        traced(old_labels, after, width, height, mark, sy, sx),
        coarser(before, after, width, height),
        forall|y: int, x: int|
            inside(width, height, y, x) ==> #[trigger] label_at(after, width, y, x) == if y == ny
                && x == nx {
                mark
            } else {
                label_at(before, width, y, x)
            },
{
    crate::utils::lemma_planar_bounds(height, width, 1, ny, nx, 0);
    assert(height * width * 1 == height * width) by (nonlinear_arith);
    assert(after.len() == before.len());
    assert forall|y: int, x: int| inside(width, height, y, x) implies #[trigger] label_at(
        after,
        width,
        y,
        x,
    ) == if y == ny && x == nx {
        mark
    } else {
        label_at(before, width, y, x)
    } by {
        crate::utils::lemma_planar_bounds(height, width, 1, y, x, 0);
        if y != ny || x != nx {
            lemma_places_apart(width, y, x, ny, nx);
        }
    }
    assert(coarser(before, after, width, height)) by {
        assert forall|y1: int, x1: int, y2: int, x2: int|
            #![trigger label_at(before, width, y1, x1), label_at(before, width, y2, x2)]
            inside(width, height, y1, x1) && inside(width, height, y2, x2) && label_at(
                before,
                width,
                y1,
                x1,
            ) != UNSET && label_at(before, width, y1, x1) == label_at(
                before,
                width,
                y2,
                x2,
            ) implies label_at(after, width, y1, x1) != UNSET && label_at(after, width, y1, x1)
            == label_at(after, width, y2, x2) by {
            assert(label_at(after, width, y1, x1) == label_at(before, width, y1, x1));
            assert(label_at(after, width, y2, x2) == label_at(before, width, y2, x2));
        }
    }
    assert(settled(old_labels, after, width, height, mark)) by {
        assert forall|y1: int, x1: int, y2: int, x2: int|
            #![trigger label_at(after, width, y1, x1), label_at(after, width, y2, x2)]
            inside(width, height, y1, x1) && inside(width, height, y2, x2) && beside(y1, x1, y2, x2)
                && label_at(old_labels, width, y1, x1) == label_at(old_labels, width, y2, x2)
                && label_at(after, width, y1, x1) != UNSET && label_at(after, width, y1, x1)
                != mark implies label_at(after, width, y2, x2) == label_at(after, width, y1, x1) by {
            assert(label_at(after, width, y1, x1) == label_at(before, width, y1, x1));
            assert(label_at(before, width, y2, x2) == label_at(before, width, y1, x1));
            assert(label_at(after, width, y2, x2) == label_at(before, width, y2, x2));
        }
    }
    assert(gathered_at(after, width, height, mark, sy, sx)) by {
        assert forall|y: int, x: int|
            inside(width, height, y, x) && #[trigger] label_at(after, width, y, x)
                == mark implies joined(after, width, height, y, x, sy, sx) by {
            assert(joined(before, width, height, py, px, sy, sx));
            lemma_joined_coarser(before, after, width, height, py, px, sy, sx);
            if y == ny && x == nx {
                assert(label_at(after, width, py, px) == mark);
                lemma_joined_beside(after, width, height, ny, nx, py, px);
                lemma_joined_through(after, width, height, ny, nx, py, px, sy, sx);
            } else {
                assert(label_at(before, width, y, x) == mark);
                lemma_joined_coarser(before, after, width, height, y, x, sy, sx);
            }
        }
    }
    assert(traced(old_labels, after, width, height, mark, sy, sx)) by {
        assert forall|y: int, x: int|
            inside(width, height, y, x) && #[trigger] label_at(after, width, y, x)
                == mark implies joined(old_labels, width, height, y, x, sy, sx) by {
            if y == ny && x == nx {
                assert(label_at(before, width, py, px) == mark);
                assert(label_at(old_labels, width, py, px) == piece);
                assert(joined(old_labels, width, height, py, px, sy, sx));
                lemma_joined_beside(old_labels, width, height, ny, nx, py, px);
                lemma_joined_through(old_labels, width, height, ny, nx, py, px, sy, sx);
            } else {
                assert(label_at(before, width, y, x) == mark);
            }
        }
    }
    assert(marked_from(old_labels, start, after, width, height, mark, piece)) by {
        assert forall|y: int, x: int| inside(width, height, y, x) implies {
            &&& #[trigger] label_at(after, width, y, x) != mark ==> label_at(after, width, y, x)
                == label_at(start, width, y, x)
            &&& label_at(after, width, y, x) == mark ==> label_at(start, width, y, x) == UNSET
                && label_at(old_labels, width, y, x) == piece
        } by {
            assert(label_at(before, width, y, x) != mark ==> label_at(before, width, y, x)
                == label_at(start, width, y, x));
            assert(label_at(before, width, y, x) == mark ==> label_at(start, width, y, x) == UNSET
                && label_at(old_labels, width, y, x) == piece);
            assert(label_at(after, width, y, x) == if y == ny && x == nx {
                mark
            } else {
                label_at(before, width, y, x)
            });
        }
        assert(after.len() == start.len());
    }
}

/// What holds while a piece is being flood-filled from the pixel in row
/// `sy`, column `sx`.
spec fn filling(
    old_labels: Seq<usize>,
    start: Seq<usize>,
    fresh: Seq<usize>,
    queue: Seq<(i64, i64)>,
    width: int,
    height: int,
    mark: usize,
    piece: usize,
    sy: int,
    sx: int,
) -> bool {
    &&& 0 < width <= u32::MAX
    &&& 0 < height <= u32::MAX
    &&& mark != UNSET
    &&& old_labels.len() == height * width
    &&& fresh.len() == height * width
    &&& marked_from(old_labels, start, fresh, width, height, mark, piece)
    &&& settled(old_labels, fresh, width, height, mark)
    &&& gathered_at(fresh, width, height, mark, sy, sx)
    &&& traced(old_labels, fresh, width, height, mark, sy, sx)
    &&& piece != UNSET
    &&& listed(fresh, width, height, mark, queue)
}

/// Whether every pixel that has a label in `before` has the same label in
/// `after`.
spec fn kept(before: Seq<usize>, after: Seq<usize>, width: int, height: int) -> bool {
    forall|y: int, x: int|
        inside(width, height, y, x) && #[trigger] label_at(before, width, y, x) != UNSET
            ==> label_at(after, width, y, x) == label_at(before, width, y, x)
}

/// Looks from the marked pixel in row `py`, column `px` at the place in
/// row `ny`, column `nx` beside it, and marks and queues the pixel there if
/// it belongs to the piece.
fn expand(
    old_labels: &Vec<usize>,
    fresh: &mut Vec<usize>,
    queue: &mut Vec<(i64, i64)>,
    width: i64,
    height: i64,
    py: i64,
    px: i64,
    ny: i64,
    nx: i64,
    mark: usize,
    piece: usize,
    Ghost(start): Ghost<Seq<usize>>,
    Ghost(seed): Ghost<(int, int)>,
)
    requires
        filling(
            old_labels@,
            start,
            old(fresh)@,
            old(queue)@,
            width as int,
            height as int,
            mark,
            piece,
            seed.0,
            seed.1,
        ),
        inside(width as int, height as int, py as int, px as int),
        label_at(old(fresh)@, width as int, py as int, px as int) == mark,
        beside(py as int, px as int, ny as int, nx as int),
    ensures
        filling(
            old_labels@,
            start,
            final(fresh)@,
            final(queue)@,
            width as int,
            height as int,
            mark,
            piece,
            seed.0,
            seed.1,
        ),
        kept(old(fresh)@, final(fresh)@, width as int, height as int),
        final(queue)@.len() >= old(queue)@.len(),
        forall|k: int| 0 <= k < old(queue)@.len() ==> (#[trigger] final(queue)@[k]) == old(queue)@[k],
        2 * region_area(final(fresh)@, UNSET as int, final(fresh)@.len() as int) + final(queue)@.len()
            < 2 * region_area(old(fresh)@, UNSET as int, old(fresh)@.len() as int) + old(queue)@.len() || (final(fresh)@ == old(fresh)@ && final(queue)@ == old(queue)@),
        inside(width as int, height as int, ny as int, nx as int) && label_at(
            old_labels@,
            width as int,
            ny as int,
            nx as int,
        ) == piece ==> label_at(final(fresh)@, width as int, ny as int, nx as int) == mark,
{
    let ghost before = fresh@;
    let ghost listed_before = queue@;
    visit(old_labels, fresh, width, height, ny, nx, mark, piece, queue);
    proof {
        let w = width as int;
        let h = height as int;
        let take = inside(w, h, ny as int, nx as int) && label_at(old_labels@, w, ny as int, nx as int)
            == piece && label_at(before, w, ny as int, nx as int) == UNSET;
        if take {
            lemma_fill_step(
                old_labels@,
                start,
                before,
                fresh@,
                w,
                h,
                mark,
                piece,
                seed.0,
                seed.1,
                py as int,
                px as int,
                ny as int,
                nx as int,
            );
            crate::utils::lemma_planar_bounds(h, w, 1, ny as int, nx as int, 0);
            assert(h * w * 1 == h * w) by (nonlinear_arith);
            lemma_one_less_unset(before, ny * w + nx, mark, before.len() as int);
            assert(listed(fresh@, w, h, mark, queue@)) by {
                assert forall|k: int| 0 <= k < queue@.len() implies inside(
                    w,
                    h,
                    (#[trigger] queue@[k]).0 as int,
                    queue@[k].1 as int,
                ) && label_at(fresh@, w, queue@[k].0 as int, queue@[k].1 as int) == mark by {
                    if k < listed_before.len() {
                        assert(queue@[k] == listed_before[k]);
                    }
                }
                assert forall|i: int, j: int|
                    0 <= i < queue@.len() && 0 <= j < queue@.len() && i != j implies (
                #[trigger] queue@[i]) != (#[trigger] queue@[j]) by {
                    if i < listed_before.len() && j < listed_before.len() {
                        assert(queue@[i] == listed_before[i]);
                        assert(queue@[j] == listed_before[j]);
                    } else if i < listed_before.len() {
                        assert(queue@[i] == listed_before[i]);
                        assert(label_at(
                            before,
                            w,
                            listed_before[i].0 as int,
                            listed_before[i].1 as int,
                        ) == mark);
                    } else if j < listed_before.len() {
                        assert(queue@[j] == listed_before[j]);
                        assert(label_at(
                            before,
                            w,
                            listed_before[j].0 as int,
                            listed_before[j].1 as int,
                        ) == mark);
                    }
                }
                assert forall|y: int, x: int|
                    inside(w, h, y, x) && #[trigger] label_at(fresh@, w, y, x)
                        == mark implies exists|k: int|
                    0 <= k < queue@.len() && (#[trigger] queue@[k]) == (y as i64, x as i64) by {
                    if y == ny && x == nx {
                        assert(queue@[listed_before.len() as int] == (y as i64, x as i64));
                    } else {
                        assert(label_at(before, w, y, x) == mark);
                        let k = choose|k: int|
                            0 <= k < listed_before.len() && (#[trigger] listed_before[k]) == (
                                y as i64,
                                x as i64,
                            );
                        assert(queue@[k] == (y as i64, x as i64));
                    }
                }
            }
            assert(kept(before, fresh@, w, h));
        } else {
            if inside(w, h, ny as int, nx as int) && label_at(old_labels@, w, ny as int, nx as int)
                == piece {
                // The neighbour has a label already: it is the mark.
                assert(label_at(before, w, ny as int, nx as int) != UNSET);
                if label_at(before, w, ny as int, nx as int) != mark {
                    assert(label_at(old_labels@, w, py as int, px as int) == piece);
                    assert(label_at(before, w, py as int, px as int) == label_at(
                        before,
                        w,
                        ny as int,
                        nx as int,
                    ));
                }
            }
        }
    }
}

/// Marks the connected piece of one old label around the pixel in row
/// `sy`, column `sx`, and lists its pixels in `queue`.
fn fill(
    old_labels: &Vec<usize>,
    fresh: &mut Vec<usize>,
    queue: &mut Vec<(i64, i64)>,
    width: i64,
    height: i64,
    sy: i64,
    sx: i64,
    mark: usize,
)
    requires
        0 < width <= u32::MAX,
        0 < height <= u32::MAX,
        old_labels@.len() == height * width,
        old(fresh)@.len() == height * width,
        inside(width as int, height as int, sy as int, sx as int),
        label_at(old(fresh)@, width as int, sy as int, sx as int) == UNSET,
        mark != UNSET,
        forall|y: int, x: int|
            inside(width as int, height as int, y, x) ==> #[trigger] label_at(
                old(fresh)@,
                width as int,
                y,
                x,
            ) != mark,
        settled(old_labels@, old(fresh)@, width as int, height as int, UNSET),
        label_at(old_labels@, width as int, sy as int, sx as int) != UNSET,
    ensures
        final(fresh)@.len() == old(fresh)@.len(),
        forall|y: int, x: int|
            inside(width as int, height as int, y, x) ==> (#[trigger] label_at(
                final(fresh)@,
                width as int,
                y,
                x,
            ) == mark <==> joined(
                old_labels@,
                width as int,
                height as int,
                y,
                x,
                sy as int,
                sx as int,
            )),
        marked_from(
            old_labels@,
            old(fresh)@,
            final(fresh)@,
            width as int,
            height as int,
            mark,
            label_at(old_labels@, width as int, sy as int, sx as int),
        ),
        listed(final(fresh)@, width as int, height as int, mark, final(queue)@),
        label_at(final(fresh)@, width as int, sy as int, sx as int) == mark,
        settled(old_labels@, final(fresh)@, width as int, height as int, UNSET),
        gathered_at(final(fresh)@, width as int, height as int, mark, sy as int, sx as int),
        coarser(old(fresh)@, final(fresh)@, width as int, height as int),
{
    let ghost w = width as int;
    let ghost h = height as int;
    let ghost start = fresh@;
    proof {
        crate::utils::lemma_planar_bounds(h, w, 1, sy as int, sx as int, 0);
        assert((sy * w + sx) * 1 + 0 == sy * w + sx);
        assert(h * w * 1 == h * w) by (nonlinear_arith);
        assert(sy * width <= 0xffff_ffff * 0xffff_ffff && 0 <= sy * width) by (nonlinear_arith)
            requires
                0 <= sy <= 0xffff_ffff,
                0 <= width <= 0xffff_ffff,
        ;
    }
    let pixels = fresh.len();
    let place: usize = (sy as usize) * (width as usize) + (sx as usize);
    let piece = old_labels[place];
    assert(piece == label_at(old_labels@, w, sy as int, sx as int));
    queue.clear();
    assert(label_at(start, w, sy as int, sx as int) == start[sy * w + sx]);
    fresh[place] = mark;
    queue.push((sy, sx));
    proof {
        // The seed alone is marked.
        assert forall|y: int, x: int| inside(w, h, y, x) implies #[trigger] label_at(fresh@, w, y, x)
            == if y == sy && x == sx {
            mark
        } else {
            label_at(start, w, y, x)
        } by {
            crate::utils::lemma_planar_bounds(h, w, 1, y, x, 0);
            if y != sy || x != sx {
                lemma_places_apart(w, y, x, sy as int, sx as int);
            }
        }
        assert(marked_from(old_labels@, start, fresh@, w, h, mark, piece));
        assert(settled(old_labels@, fresh@, w, h, mark)) by {
            assert forall|y1: int, x1: int, y2: int, x2: int|
                #![trigger label_at(fresh@, w, y1, x1), label_at(fresh@, w, y2, x2)]
                inside(w, h, y1, x1) && inside(w, h, y2, x2) && beside(y1, x1, y2, x2) && label_at(
                    old_labels@,
                    w,
                    y1,
                    x1,
                ) == label_at(old_labels@, w, y2, x2) && label_at(fresh@, w, y1, x1) != UNSET
                    && label_at(fresh@, w, y1, x1) != mark implies label_at(fresh@, w, y2, x2)
                == label_at(fresh@, w, y1, x1) by {
                assert(label_at(start, w, y1, x1) == label_at(fresh@, w, y1, x1));
                assert(label_at(start, w, y2, x2) == label_at(start, w, y1, x1));
            }
        }
        assert(gathered_at(fresh@, w, h, mark, sy as int, sx as int));
        assert(traced(old_labels@, fresh@, w, h, mark, sy as int, sx as int));
        assert(listed(fresh@, w, h, mark, queue@)) by {
            assert(queue@[0] == (sy, sx));
        }
        assert(coarser(start, fresh@, w, h)) by {
            assert forall|y1: int, x1: int, y2: int, x2: int|
                #![trigger label_at(start, w, y1, x1), label_at(start, w, y2, x2)]
                inside(w, h, y1, x1) && inside(w, h, y2, x2) && label_at(start, w, y1, x1) != UNSET
                    && label_at(start, w, y1, x1) == label_at(start, w, y2, x2) implies label_at(
                fresh@,
                w,
                y1,
                x1,
            ) != UNSET && label_at(fresh@, w, y1, x1) == label_at(fresh@, w, y2, x2) by {
                assert(label_at(fresh@, w, y1, x1) == label_at(start, w, y1, x1));
                assert(label_at(fresh@, w, y2, x2) == label_at(start, w, y2, x2));
            }
        }
    }
    let mut head: usize = 0;
    while head < queue.len()
        invariant
            head <= queue@.len(),
            w == width,
            h == height,
            filling(old_labels@, start, fresh@, queue@, w, h, mark, piece, sy as int, sx as int),
            expanded(old_labels@, fresh@, w, h, mark, queue@, head as int),
            coarser(start, fresh@, w, h),
            inside(w, h, sy as int, sx as int),
            label_at(fresh@, w, sy as int, sx as int) == mark,
        decreases
                2 * region_area(fresh@, UNSET as int, fresh@.len() as int) + queue@.len() - head,
    {
        let (py, px) = queue[head];
        let ghost entry = fresh@;
        let ghost entry_queue = queue@;
        let ghost m0 = 2 * region_area(fresh@, UNSET as int, fresh@.len() as int) + queue@.len();
        assert(inside(w, h, py as int, px as int) && label_at(fresh@, w, py as int, px as int)
            == mark);
        expand(
            old_labels,
            fresh,
            queue,
            width,
            height,
            py,
            px,
            py,
            px - 1,
            mark,
            piece,
            Ghost(start),
            Ghost((sy as int, sx as int)),
        );
        let ghost first = fresh@;
        let ghost m1 = 2 * region_area(fresh@, UNSET as int, fresh@.len() as int) + queue@.len();
        assert(m1 <= m0);
        expand(
            old_labels,
            fresh,
            queue,
            width,
            height,
            py,
            px,
            py - 1,
            px,
            mark,
            piece,
            Ghost(start),
            Ghost((sy as int, sx as int)),
        );
        let ghost second = fresh@;
        let ghost m2 = 2 * region_area(fresh@, UNSET as int, fresh@.len() as int) + queue@.len();
        assert(m2 <= m1);
        expand(
            old_labels,
            fresh,
            queue,
            width,
            height,
            py,
            px,
            py,
            px + 1,
            mark,
            piece,
            Ghost(start),
            Ghost((sy as int, sx as int)),
        );
        let ghost third = fresh@;
        let ghost m3 = 2 * region_area(fresh@, UNSET as int, fresh@.len() as int) + queue@.len();
        assert(m3 <= m2);
        expand(
            old_labels,
            fresh,
            queue,
            width,
            height,
            py,
            px,
            py + 1,
            px,
            mark,
            piece,
            Ghost(start),
            Ghost((sy as int, sx as int)),
        );
        proof {
            let m4 = 2 * region_area(fresh@, UNSET as int, fresh@.len() as int) + queue@.len();
            assert(m4 <= m3);
            assert(kept(entry, fresh@, w, h)) by {
                assert forall|y: int, x: int|
                    inside(w, h, y, x) && #[trigger] label_at(entry, w, y, x)
                        != UNSET implies label_at(fresh@, w, y, x) == label_at(entry, w, y, x) by {
                    assert(label_at(first, w, y, x) == label_at(entry, w, y, x));
                    assert(label_at(second, w, y, x) == label_at(first, w, y, x));
                    assert(label_at(third, w, y, x) == label_at(second, w, y, x));
                }
            }
            assert(label_at(old_labels@, w, py as int, px as int) == piece) by {
                assert(label_at(entry, w, py as int, px as int) == mark);
            }
            assert(label_at(entry, w, sy as int, sx as int) == mark);
            assert(label_at(fresh@, w, sy as int, sx as int) == mark);
            assert(expanded(old_labels@, fresh@, w, h, mark, queue@, head + 1)) by {
                assert forall|k: int, y: int, x: int|
                    #![trigger queue@[k], label_at(fresh@, w, y, x)]
                    0 <= k < head + 1 && inside(w, h, y, x) && beside(
                        queue@[k].0 as int,
                        queue@[k].1 as int,
                        y,
                        x,
                    ) && label_at(old_labels@, w, y, x) == label_at(
                        old_labels@,
                        w,
                        queue@[k].0 as int,
                        queue@[k].1 as int,
                    ) implies label_at(fresh@, w, y, x) == mark by {
                    assert(queue@[k] == entry_queue[k]);
                    if k < head {
                        assert(label_at(entry, w, y, x) == mark);
                    } else {
                        if y == py && x == px - 1 {
                            assert(label_at(first, w, y, x) == mark);
                            assert(label_at(second, w, y, x) == mark);
                            assert(label_at(third, w, y, x) == mark);
                        } else if y == py - 1 && x == px {
                            assert(label_at(second, w, y, x) == mark);
                            assert(label_at(third, w, y, x) == mark);
                        } else if y == py && x == px + 1 {
                            assert(label_at(third, w, y, x) == mark);
                        } else {
                            assert(y == py + 1 && x == px);
                        }
                    }
                }
            }
            assert(coarser(start, fresh@, w, h)) by {
                assert forall|y1: int, x1: int, y2: int, x2: int|
                    #![trigger label_at(start, w, y1, x1), label_at(start, w, y2, x2)]
                    inside(w, h, y1, x1) && inside(w, h, y2, x2) && label_at(start, w, y1, x1)
                        != UNSET && label_at(start, w, y1, x1) == label_at(
                        start,
                        w,
                        y2,
                        x2,
                    ) implies label_at(fresh@, w, y1, x1) != UNSET && label_at(fresh@, w, y1, x1)
                    == label_at(fresh@, w, y2, x2) by {
                    assert(label_at(entry, w, y1, x1) == label_at(entry, w, y2, x2));
                    assert(label_at(fresh@, w, y1, x1) == label_at(entry, w, y1, x1));
                    assert(label_at(fresh@, w, y2, x2) == label_at(entry, w, y2, x2));
                }
            }
        }
        proof {
            crate::regions::lemma_region_bounds(
                Seq::<u8>::empty(),
                0,
                fresh@,
                UNSET as int,
                0,
                fresh@.len() as int,
            );
            crate::regions::lemma_region_bounds(
                Seq::<u8>::empty(),
                0,
                entry,
                UNSET as int,
                0,
                entry.len() as int,
            );
        }
        head = head + 1;
    }
    proof {
        assert(settled(old_labels@, fresh@, w, h, UNSET)) by {
            assert forall|y1: int, x1: int, y2: int, x2: int|
                #![trigger label_at(fresh@, w, y1, x1), label_at(fresh@, w, y2, x2)]
                inside(w, h, y1, x1) && inside(w, h, y2, x2) && beside(y1, x1, y2, x2) && label_at(
                    old_labels@,
                    w,
                    y1,
                    x1,
                ) == label_at(old_labels@, w, y2, x2) && label_at(fresh@, w, y1, x1) != UNSET
                    && label_at(fresh@, w, y1, x1) != UNSET implies label_at(fresh@, w, y2, x2)
                == label_at(fresh@, w, y1, x1) by {
                if label_at(fresh@, w, y1, x1) == mark {
                    let k = choose|k: int|
                        0 <= k < queue@.len() && (#[trigger] queue@[k]) == (y1 as i64, x1 as i64);
                    assert(label_at(fresh@, w, y2, x2) == mark);
                }
            }
        }
        lemma_piece_marked(old_labels@, fresh@, w, h, mark, sy as int, sx as int);
    }
}

/// Once a flood fill has run out, the marked pixels are the piece of its
/// first pixel: every pixel joined to it under the old labels is marked.
proof fn lemma_piece_marked(
    old_labels: Seq<usize>,
    fresh: Seq<usize>,
    width: int,
    height: int,
    mark: usize,
    sy: int,
    sx: int,
)
    requires
        inside(width, height, sy, sx),
        mark != UNSET,
        label_at(fresh, width, sy, sx) == mark,
        settled(old_labels, fresh, width, height, UNSET),
        traced(old_labels, fresh, width, height, mark, sy, sx),
    ensures
        forall|y: int, x: int|
            inside(width, height, y, x) ==> (#[trigger] label_at(fresh, width, y, x) == mark
                <==> joined(old_labels, width, height, y, x, sy, sx)),
{
    let numbering = |y: int, x: int|
        if inside(width, height, y, x) && label_at(fresh, width, y, x) == mark {
            1int
        } else {
            0int
        };
    assert(respects(old_labels, width, height, numbering)) by {
        assert forall|y1: int, x1: int, y2: int, x2: int|
            #![trigger numbering(y1, x1), numbering(y2, x2)]
            inside(width, height, y1, x1) && inside(width, height, y2, x2) && beside(y1, x1, y2, x2)
                && label_at(old_labels, width, y1, x1) != UNSET && label_at(
                old_labels,
                width,
                y1,
                x1,
            ) == label_at(old_labels, width, y2, x2) implies numbering(y1, x1) == numbering(
            y2,
            x2,
        ) by {
            if label_at(fresh, width, y1, x1) == mark {
                assert(label_at(fresh, width, y2, x2) == label_at(fresh, width, y1, x1));
            }
            if label_at(fresh, width, y2, x2) == mark {
                assert(label_at(fresh, width, y1, x1) == label_at(fresh, width, y2, x2));
            }
        }
    }
    assert forall|y: int, x: int| inside(width, height, y, x) implies (#[trigger] label_at(
        fresh,
        width,
        y,
        x,
    ) == mark <==> joined(old_labels, width, height, y, x, sy, sx)) by {
        if joined(old_labels, width, height, y, x, sy, sx) {
            assert(numbering(y, x) == numbering(sy, sx));
        }
    }
}

/// Whether the place in row `y`, column `x` is a pixel of the picture that
/// carries `label`.
pub open spec fn carries(labels: Seq<usize>, width: int, height: int, y: int, x: int, label: int) -> bool {
    inside(width, height, y, x) && label_at(labels, width, y, x) == label
}

/// The number of the four places beside the pixel in row `y`, column `x`
/// that are pixels carrying `label`.
pub open spec fn sides(labels: Seq<usize>, width: int, height: int, y: int, x: int, label: int) -> int {
    (if carries(labels, width, height, y, x - 1, label) {
        1int
    } else {
        0int
    }) + (if carries(labels, width, height, y - 1, x, label) {
        1int
    } else {
        0int
    }) + (if carries(labels, width, height, y, x + 1, label) {
        1int
    } else {
        0int
    }) + (if carries(labels, width, height, y + 1, x, label) {
        1int
    } else {
        0int
    })
}

/// The number of pixel sides between pixels that carry `mark` and pixels
/// that carry `label`, among the sides of the first `upto` pixels of row
/// `y`.
pub open spec fn row_sides(
    labels: Seq<usize>,
    width: int,
    height: int,
    mark: int,
    y: int,
    upto: int,
    label: int,
) -> int
    decreases upto,
{
    if upto <= 0 {
        0
    } else {
        row_sides(labels, width, height, mark, y, upto - 1, label) + if label_at(
            labels,
            width,
            y,
            upto - 1,
        ) == mark {
            sides(labels, width, height, y, upto - 1, label)
        } else {
            0int
        }
    }
}

/// The number of pixel sides between pixels that carry `mark` and pixels
/// that carry `label`, among the sides of the pixels of the first `upto`
/// rows.
pub open spec fn all_sides(
    labels: Seq<usize>,
    width: int,
    height: int,
    mark: int,
    upto: int,
    label: int,
) -> int
    decreases upto,
{
    if upto <= 0 {
        0
    } else {
        all_sides(labels, width, height, mark, upto - 1, label) + row_sides(
            labels,
            width,
            height,
            mark,
            upto - 1,
            width,
            label,
        )
    }
}

/// The label below `upto` that shares the most pixel sides with the pixels
/// that carry `mark`, the least of them where several share the most; `-1`
/// where none shares a side with them.
pub open spec fn best_label(labels: Seq<usize>, width: int, height: int, mark: int, upto: int) -> int
    decreases upto,
{
    if upto <= 0 {
        -1
    } else {
        let before = best_label(labels, width, height, mark, upto - 1);
        let here = all_sides(labels, width, height, mark, height, upto - 1);
        if here > 0 && (before < 0 || here > all_sides(labels, width, height, mark, height, before)) {
            upto - 1
        } else {
            before
        }
    }
}

/// The best label is a label below `upto` that shares a side with the
/// marked pixels, or `-1`.
pub proof fn lemma_best_label(labels: Seq<usize>, width: int, height: int, mark: int, upto: int)
    requires
        0 <= upto,
    ensures
        -1 <= best_label(labels, width, height, mark, upto) < upto,
        best_label(labels, width, height, mark, upto) >= 0 ==> all_sides(
            labels,
            width,
            height,
            mark,
            height,
            best_label(labels, width, height, mark, upto),
        ) > 0,
    decreases upto,
{
    if upto > 0 {
        lemma_best_label(labels, width, height, mark, upto - 1);
    }
}

/// A row without marked pixels in a range of columns has the same number
/// of sides before and after the range; sides are counted at most four per
/// pixel.
proof fn lemma_row_sides_skip(
    labels: Seq<usize>,
    width: int,
    height: int,
    mark: int,
    y: int,
    from: int,
    upto: int,
    label: int,
)
    requires
        0 <= from <= upto,
        forall|x: int| from <= x < upto ==> #[trigger] label_at(labels, width, y, x) != mark,
    ensures
        row_sides(labels, width, height, mark, y, upto, label) == row_sides(
            labels,
            width,
            height,
            mark,
            y,
            from,
            label,
        ),
        0 <= row_sides(labels, width, height, mark, y, from, label) <= 4 * from,
    decreases upto,
{
    if upto > from {
        lemma_row_sides_skip(labels, width, height, mark, y, from, upto - 1, label);
    } else {
        lemma_row_sides_bound(labels, width, height, mark, y, from, label);
    }
}

proof fn lemma_row_sides_bound(
    labels: Seq<usize>,
    width: int,
    height: int,
    mark: int,
    y: int,
    upto: int,
    label: int,
)
    requires
        0 <= upto,
    ensures
        0 <= row_sides(labels, width, height, mark, y, upto, label) <= 4 * upto,
    decreases upto,
{
    if upto > 0 {
        lemma_row_sides_bound(labels, width, height, mark, y, upto - 1, label);
    }
}

/// Rows without marked pixels add no sides; sides are counted at most four
/// per pixel.
proof fn lemma_all_sides_skip(
    labels: Seq<usize>,
    width: int,
    height: int,
    mark: int,
    from: int,
    upto: int,
    label: int,
)
    requires
        0 <= from <= upto,
        0 <= width,
        forall|y: int, x: int|
            from <= y < upto && 0 <= x < width ==> #[trigger] label_at(labels, width, y, x) != mark,
    ensures
        all_sides(labels, width, height, mark, upto, label) == all_sides(
            labels,
            width,
            height,
            mark,
            from,
            label,
        ),
        0 <= all_sides(labels, width, height, mark, from, label) <= 4 * (from * width),
    decreases upto,
{
    if upto > from {
        lemma_all_sides_skip(labels, width, height, mark, from, upto - 1, label);
        lemma_row_sides_skip(labels, width, height, mark, upto - 1, 0, width, label);
    } else {
        lemma_all_sides_bound(labels, width, height, mark, from, label);
    }
}

proof fn lemma_all_sides_bound(
    labels: Seq<usize>,
    width: int,
    height: int,
    mark: int,
    upto: int,
    label: int,
)
    requires
        0 <= upto,
        0 <= width,
    ensures
        0 <= all_sides(labels, width, height, mark, upto, label) <= 4 * (upto * width),
    decreases upto,
{
    if upto > 0 {
        lemma_all_sides_bound(labels, width, height, mark, upto - 1, label);
        lemma_row_sides_bound(labels, width, height, mark, upto - 1, width, label);
        assert(4 * ((upto - 1) * width) + 4 * width == 4 * (upto * width)) by (nonlinear_arith);
    } else {
        assert(0 * width == 0);
    }
}

/// A pixel of a marked piece together with a pixel beside it that carries
/// the label `label`.
pub struct Border {
    pub label: usize,
    pub inner: (i64, i64),
    pub outer: (i64, i64),
}

/// Whether `border` names a marked pixel and a pixel beside it that has a
/// label other than the mark.
spec fn is_border(fresh: Seq<usize>, width: int, height: int, mark: usize, border: Border) -> bool {
    &&& inside(width, height, border.inner.0 as int, border.inner.1 as int)
    &&& inside(width, height, border.outer.0 as int, border.outer.1 as int)
    &&& beside(
        border.inner.0 as int,
        border.inner.1 as int,
        border.outer.0 as int,
        border.outer.1 as int,
    )
    &&& label_at(fresh, width, border.inner.0 as int, border.inner.1 as int) == mark
    &&& label_at(fresh, width, border.outer.0 as int, border.outer.1 as int) == border.label
    &&& border.label != UNSET
    &&& border.label != mark
}

/// The label of the pixel in row `y`, column `x`, if it lies in the
/// picture.
fn label_of(fresh: &Vec<usize>, width: i64, height: i64, y: i64, x: i64) -> (res: Option<usize>)
    requires
        0 < width <= u32::MAX,
        0 < height <= u32::MAX,
        fresh@.len() == height * width,
    ensures
        res.is_some() <==> inside(width as int, height as int, y as int, x as int),
        res.is_some() ==> res.unwrap() == label_at(fresh@, width as int, y as int, x as int),
{
    proof {
        if inside(width as int, height as int, y as int, x as int) {
            crate::utils::lemma_planar_bounds(height as int, width as int, 1, y as int, x as int, 0);
            assert((y * width + x) * 1 + 0 == y * width + x);
            assert(height * width * 1 == height * width) by (nonlinear_arith);
        }
    }
    match get_in_bounds(width, height, x, y, fresh.as_slice()) {
        Some(label) => Some(*label),
        None => None,
    }
}

/// Whether the counts hold, for every label, a number of sides, with a
/// border on record for every label that has one.
spec fn counted(
    fresh: Seq<usize>,
    counts: Seq<u128>,
    seen: Seq<Border>,
    width: int,
    height: int,
    mark: usize,
) -> bool {
    &&& seen.len() == counts.len()
    &&& forall|l: int|
        0 <= l < counts.len() && #[trigger] counts[l] > 0 ==> is_border(
            fresh,
            width,
            height,
            mark,
            seen[l],
        ) && seen[l].label == l
}

/// Counts the side between the marked pixel in row `py`, column `px` and
/// the place in row `qy`, column `qx` beside it for the label of the pixel
/// there, if there is one.
fn count_side(
    fresh: &Vec<usize>,
    counts: &mut Vec<u128>,
    seen: &mut Vec<Border>,
    width: i64,
    height: i64,
    mark: usize,
    py: i64,
    px: i64,
    qy: i64,
    qx: i64,
)
    requires
        0 < width <= u32::MAX,
        0 < height <= u32::MAX,
        fresh@.len() == height * width,
        inside(width as int, height as int, py as int, px as int),
        label_at(fresh@, width as int, py as int, px as int) == mark,
        beside(py as int, px as int, qy as int, qx as int),
        mark != UNSET,
        old(counts)@.len() <= mark,
        forall|y: int, x: int|
            inside(width as int, height as int, y, x) ==> #[trigger] label_at(
                fresh@,
                width as int,
                y,
                x,
            ) == UNSET || label_at(fresh@, width as int, y, x) <= mark,
        counted(fresh@, old(counts)@, old(seen)@, width as int, height as int, mark),
        forall|l: int| 0 <= l < old(counts)@.len() ==> #[trigger] old(counts)@[l] < u128::MAX,
    ensures
        final(counts)@.len() == old(counts)@.len(),
        counted(fresh@, final(counts)@, final(seen)@, width as int, height as int, mark),
        forall|l: int|
            0 <= l < old(counts)@.len() ==> #[trigger] final(counts)@[l] == old(counts)@[l] + if carries(
                fresh@,
                width as int,
                height as int,
                qy as int,
                qx as int,
                l,
            ) {
                1int
            } else {
                0int
            },
{
    match label_of(fresh, width, height, qy, qx) {
        Some(label) => {
            if label < counts.len() {
                counts[label] = counts[label] + 1;
                seen[label] = Border { label, inner: (py, px), outer: (qy, qx) };
            }
        },
        None => {},
    }
}

/// The rows and columns that hold the pixels of a queue: the least and the
/// greatest row, and the least and the greatest column.
fn bounding_box(queue: &Vec<(i64, i64)>) -> (res: (i64, i64, i64, i64))
    requires
        queue@.len() >= 1,
    ensures
        forall|k: int|
            0 <= k < queue@.len() ==> res.0 <= (#[trigger] queue@[k]).0 <= res.1 && res.2
                <= queue@[k].1 <= res.3,
        exists|k: int| 0 <= k < queue@.len() && (#[trigger] queue@[k]).0 == res.0,
        exists|k: int| 0 <= k < queue@.len() && (#[trigger] queue@[k]).0 == res.1,
        exists|k: int| 0 <= k < queue@.len() && (#[trigger] queue@[k]).1 == res.2,
        exists|k: int| 0 <= k < queue@.len() && (#[trigger] queue@[k]).1 == res.3,
{
    let mut top = queue[0].0;
    let mut bottom = queue[0].0;
    let mut left = queue[0].1;
    let mut right = queue[0].1;
    let mut k: usize = 1;
    while k < queue.len()
        invariant
            1 <= k <= queue@.len(),
            forall|j: int|
                0 <= j < k ==> top <= (#[trigger] queue@[j]).0 <= bottom && left <= queue@[j].1
                    <= right,
            exists|j: int| 0 <= j < k && (#[trigger] queue@[j]).0 == top,
            exists|j: int| 0 <= j < k && (#[trigger] queue@[j]).0 == bottom,
            exists|j: int| 0 <= j < k && (#[trigger] queue@[j]).1 == left,
            exists|j: int| 0 <= j < k && (#[trigger] queue@[j]).1 == right,
        decreases queue@.len() - k,
    {
        let (y, x) = queue[k];
        if y < top {
            top = y;
        }
        if y > bottom {
            bottom = y;
        }
        if x < left {
            left = x;
        }
        if x > right {
            right = x;
        }
        proof {
            assert(queue@[k as int] == (y, x));
        }
        k = k + 1;
    }
    (top, bottom, left, right)
}

/// Whether the counts hold, for every label, the sides counted over the
/// first `rows` rows and the first `cols` pixels of the next row.
spec fn counts_upto(
    fresh: Seq<usize>,
    counts: Seq<u128>,
    width: int,
    height: int,
    mark: usize,
    rows: int,
    cols: int,
) -> bool {
    forall|l: int|
        0 <= l < counts.len() ==> #[trigger] counts[l] == all_sides(
            fresh,
            width,
            height,
            mark as int,
            rows,
            l,
        ) + row_sides(fresh, width, height, mark as int, rows, cols, l)
}

/// Counts the sides of the marked pixel in row `y`, column `x`.
fn count_pixel(
    fresh: &Vec<usize>,
    counts: &mut Vec<u128>,
    seen: &mut Vec<Border>,
    width: i64,
    height: i64,
    mark: usize,
    y: i64,
    x: i64,
)
    requires
        0 < width <= u32::MAX,
        0 < height <= u32::MAX,
        fresh@.len() == height * width,
        inside(width as int, height as int, y as int, x as int),
        label_at(fresh@, width as int, y as int, x as int) == mark,
        mark != UNSET,
        old(counts)@.len() <= mark,
        forall|b: int, a: int|
            inside(width as int, height as int, b, a) ==> #[trigger] label_at(
                fresh@,
                width as int,
                b,
                a,
            ) == UNSET || label_at(fresh@, width as int, b, a) <= mark,
        counted(fresh@, old(counts)@, old(seen)@, width as int, height as int, mark),
        forall|l: int| 0 <= l < old(counts)@.len() ==> #[trigger] old(counts)@[l] < u128::MAX - 4,
    ensures
        final(counts)@.len() == old(counts)@.len(),
        counted(fresh@, final(counts)@, final(seen)@, width as int, height as int, mark),
        forall|l: int|
            0 <= l < old(counts)@.len() ==> #[trigger] final(counts)@[l] == old(counts)@[l] + sides(
                fresh@,
                width as int,
                height as int,
                y as int,
                x as int,
                l,
            ),
{
    let ghost c0 = counts@;
    count_side(fresh, counts, seen, width, height, mark, y, x, y, x - 1);
    let ghost c1 = counts@;
    count_side(fresh, counts, seen, width, height, mark, y, x, y - 1, x);
    let ghost c2 = counts@;
    count_side(fresh, counts, seen, width, height, mark, y, x, y, x + 1);
    let ghost c3 = counts@;
    count_side(fresh, counts, seen, width, height, mark, y, x, y + 1, x);
    proof {
        assert forall|l: int| 0 <= l < c0.len() implies #[trigger] counts@[l] == c0[l] + sides(
            fresh@,
            width as int,
            height as int,
            y as int,
            x as int,
            l,
        ) by {
            assert(c1[l] == c0[l] + if carries(
                fresh@,
                width as int,
                height as int,
                y as int,
                x - 1,
                l,
            ) {
                1int
            } else {
                0int
            });
            assert(c2[l] == c1[l] + if carries(
                fresh@,
                width as int,
                height as int,
                y - 1,
                x as int,
                l,
            ) {
                1int
            } else {
                0int
            });
            assert(c3[l] == c2[l] + if carries(
                fresh@,
                width as int,
                height as int,
                y as int,
                x + 1,
                l,
            ) {
                1int
            } else {
                0int
            });
        }
    }
}

/// Looks for the label that shares the most pixel sides with the marked
/// piece listed in `queue`; of several such labels the least is taken.
fn pick(fresh: &Vec<usize>, queue: &Vec<(i64, i64)>, width: i64, height: i64, mark: usize) -> (res:
    Option<Border>)
    requires
        0 < width <= u32::MAX,
        0 < height <= u32::MAX,
        fresh@.len() == height * width,
        mark != UNSET,
        queue@.len() >= 1,
        listed(fresh@, width as int, height as int, mark, queue@),
        forall|b: int, a: int|
            inside(width as int, height as int, b, a) ==> #[trigger] label_at(
                fresh@,
                width as int,
                b,
                a,
            ) == UNSET || label_at(fresh@, width as int, b, a) <= mark,
    ensures
        res.is_some() <==> best_label(
            fresh@,
            width as int,
            height as int,
            mark as int,
            mark as int,
        ) >= 0,
        res.is_some() ==> res.unwrap().label == best_label(
            fresh@,
            width as int,
            height as int,
            mark as int,
            mark as int,
        ) && is_border(fresh@, width as int, height as int, mark, res.unwrap()),
{
    let ghost w = width as int;
    let ghost h = height as int;
    let ghost m = mark as int;
    let mut counts: Vec<u128> = Vec::new();
    let mut seen: Vec<Border> = Vec::new();
    let mut l: usize = 0;
    while l < mark
        invariant
            l <= mark,
            counts@.len() == l,
            seen@.len() == l,
            forall|j: int| 0 <= j < l ==> #[trigger] counts@[j] == 0,
        decreases mark - l,
    {
        counts.push(0);
        seen.push(Border { label: 0, inner: (0, 0), outer: (0, 0) });
        l = l + 1;
    }
    let (top, bottom, left, right) = bounding_box(queue);
    proof {
        // The box lies in the picture and holds every marked pixel.
        let kt = choose|k: int| 0 <= k < queue@.len() && (#[trigger] queue@[k]).0 == top;
        let kb = choose|k: int| 0 <= k < queue@.len() && (#[trigger] queue@[k]).0 == bottom;
        let kl = choose|k: int| 0 <= k < queue@.len() && (#[trigger] queue@[k]).1 == left;
        let kr = choose|k: int| 0 <= k < queue@.len() && (#[trigger] queue@[k]).1 == right;
        assert(inside(w, h, queue@[kt].0 as int, queue@[kt].1 as int));
        assert(inside(w, h, queue@[kb].0 as int, queue@[kb].1 as int));
        assert(inside(w, h, queue@[kl].0 as int, queue@[kl].1 as int));
        assert(inside(w, h, queue@[kr].0 as int, queue@[kr].1 as int));
        assert forall|y: int, x: int|
            inside(w, h, y, x) && #[trigger] label_at(fresh@, w, y, x) == mark implies top <= y
            <= bottom && left <= x <= right by {
            let k = choose|k: int|
                0 <= k < queue@.len() && (#[trigger] queue@[k]) == (y as i64, x as i64);
            assert(top <= queue@[k].0 <= bottom);
        }
        assert forall|l: int| 0 <= l < counts@.len() implies #[trigger] counts@[l] == all_sides(
            fresh@,
            w,
            h,
            m,
            top as int,
            l,
        ) + row_sides(fresh@, w, h, m, top as int, left as int, l) by {
            lemma_all_sides_skip(fresh@, w, h, m, 0, top as int, l);
            lemma_row_sides_skip(fresh@, w, h, m, top as int, 0, left as int, l);
        }
    }
    let mut y: i64 = top;
    while y <= bottom
        invariant
            0 <= top <= y <= bottom + 1,
            bottom < height,
            0 <= left <= right < width,
            w == width,
            h == height,
            m == mark,
            0 < width <= u32::MAX,
            0 < height <= u32::MAX,
            fresh@.len() == height * width,
            mark != UNSET,
            counts@.len() == mark,
            counted(fresh@, counts@, seen@, w, h, mark),
            forall|b: int, a: int|
                inside(w, h, b, a) ==> #[trigger] label_at(fresh@, w, b, a) == UNSET || label_at(
                    fresh@,
                    w,
                    b,
                    a,
                ) <= mark,
            forall|b: int, a: int|
                inside(w, h, b, a) && #[trigger] label_at(fresh@, w, b, a) == mark ==> top <= b
                    <= bottom && left <= a <= right,
            y <= bottom ==> counts_upto(fresh@, counts@, w, h, mark, y as int, left as int),
            y == bottom + 1 ==> counts_upto(fresh@, counts@, w, h, mark, y as int, 0),
        decreases bottom + 1 - y,
    {
        let mut x: i64 = left;
        while x <= right
            invariant
                0 <= top <= y <= bottom,
                bottom < height,
                0 <= left <= x <= right + 1,
                right < width,
                w == width,
                h == height,
                m == mark,
                0 < width <= u32::MAX,
                0 < height <= u32::MAX,
                fresh@.len() == height * width,
                mark != UNSET,
                counts@.len() == mark,
                counted(fresh@, counts@, seen@, w, h, mark),
                forall|b: int, a: int|
                    inside(w, h, b, a) ==> #[trigger] label_at(fresh@, w, b, a) == UNSET
                        || label_at(fresh@, w, b, a) <= mark,
                counts_upto(fresh@, counts@, w, h, mark, y as int, x as int),
            decreases right + 1 - x,
        {
            proof {
                assert forall|l: int| 0 <= l < counts@.len() implies #[trigger] counts@[l]
                    < u128::MAX - 4 by {
                    lemma_all_sides_bound(fresh@, w, h, m, y as int, l);
                    lemma_row_sides_bound(fresh@, w, h, m, y as int, x as int, l);
                    assert(y * w <= 0xffff_ffff * 0xffff_ffff) by (nonlinear_arith)
                        requires
                            0 <= y <= 0xffff_ffff,
                            0 <= w <= 0xffff_ffff,
                    ;
                }
            }
            let here = label_of(fresh, width, height, y, x);
            let ghost before = counts@;
            if here == Some(mark) {
                count_pixel(fresh, &mut counts, &mut seen, width, height, mark, y, x);
            }
            proof {
                assert forall|l: int| 0 <= l < counts@.len() implies #[trigger] counts@[l]
                    == all_sides(fresh@, w, h, m, y as int, l) + row_sides(
                    fresh@,
                    w,
                    h,
                    m,
                    y as int,
                    x + 1,
                    l,
                ) by {
                    assert(before[l] == all_sides(fresh@, w, h, m, y as int, l) + row_sides(
                        fresh@,
                        w,
                        h,
                        m,
                        y as int,
                        x as int,
                        l,
                    ));
                }
            }
            x = x + 1;
        }
        proof {
            assert forall|l: int| 0 <= l < counts@.len() implies #[trigger] counts@[l] == all_sides(
                fresh@,
                w,
                h,
                m,
                y + 1,
                l,
            ) + row_sides(fresh@, w, h, m, y + 1, 0, l) by {
                lemma_row_sides_skip(fresh@, w, h, m, y as int, right + 1, w, l);
            }
            if y + 1 <= bottom {
                assert forall|l: int| 0 <= l < counts@.len() implies #[trigger] counts@[l]
                    == all_sides(fresh@, w, h, m, y + 1, l) + row_sides(
                    fresh@,
                    w,
                    h,
                    m,
                    y + 1,
                    left as int,
                    l,
                ) by {
                    lemma_row_sides_skip(fresh@, w, h, m, y + 1, 0, left as int, l);
                }
            }
        }
        y = y + 1;
    }
    proof {
        assert forall|l: int| 0 <= l < counts@.len() implies #[trigger] counts@[l] == all_sides(
            fresh@,
            w,
            h,
            m,
            h,
            l,
        ) by {
            lemma_all_sides_skip(fresh@, w, h, m, bottom + 1, h, l);
        }
    }
    let mut best: Option<usize> = None;
    let mut most: u128 = 0;
    let mut l: usize = 0;
    while l < mark
        invariant
            l <= mark,
            counts@.len() == mark,
            m == mark,
            forall|j: int|
                0 <= j < counts@.len() ==> #[trigger] counts@[j] == all_sides(fresh@, w, h, m, h, j),
            best.is_none() <==> best_label(fresh@, w, h, m, l as int) < 0,
            best.is_some() ==> best.unwrap() == best_label(fresh@, w, h, m, l as int)
                && best.unwrap() < l && most == counts@[best.unwrap() as int],
            best.is_none() ==> most == 0,
        decreases mark - l,
    {
        proof {
            lemma_best_label(fresh@, w, h, m, l as int);
        }
        if counts[l] > most {
            most = counts[l];
            best = Some(l);
        }
        l = l + 1;
    }
    match best {
        Some(label) => {
            proof {
                lemma_best_label(fresh@, w, h, m, m);
            }
            Some(Border { label, inner: seen[label].inner, outer: seen[label].outer })
        },
        None => None,
    }
}

/// Gives the label `label` to the pixels listed in `queue`, which are the
/// pixels that carry `mark`.
fn relabel(fresh: &mut Vec<usize>, queue: &Vec<(i64, i64)>, width: i64, height: i64, mark: usize, label: usize)
    requires
        0 < width <= u32::MAX,
        0 < height <= u32::MAX,
        old(fresh)@.len() == height * width,
        listed(old(fresh)@, width as int, height as int, mark, queue@),
        label != mark,
    ensures
        final(fresh)@.len() == old(fresh)@.len(),
        forall|y: int, x: int|
            inside(width as int, height as int, y, x) ==> #[trigger] label_at(
                final(fresh)@,
                width as int,
                y,
                x,
            ) == if label_at(old(fresh)@, width as int, y, x) == mark {
                label
            } else {
                label_at(old(fresh)@, width as int, y, x)
            },
{
    let ghost w = width as int;
    let ghost h = height as int;
    let mut k: usize = 0;
    while k < queue.len()
        invariant
            k <= queue@.len(),
            w == width,
            h == height,
            0 < width <= u32::MAX,
            0 < height <= u32::MAX,
            label != mark,
            fresh@.len() == h * w,
            old(fresh)@.len() == h * w,
            listed(old(fresh)@, w, h, mark, queue@),
            forall|y: int, x: int|
                inside(w, h, y, x) ==> #[trigger] label_at(fresh@, w, y, x) == if label_at(
                    old(fresh)@,
                    w,
                    y,
                    x,
                ) == mark && (exists|j: int|
                    0 <= j < k && (#[trigger] queue@[j]) == (y as i64, x as i64)) {
                    label
                } else {
                    label_at(old(fresh)@, w, y, x)
                },
        decreases queue@.len() - k,
    {
        let (py, px) = queue[k];
        let ghost before = fresh@;
        proof {
            crate::utils::lemma_planar_bounds(h, w, 1, py as int, px as int, 0);
            assert((py * w + px) * 1 + 0 == py * w + px);
            assert(h * w * 1 == h * w) by (nonlinear_arith);
        }
        let pixels = fresh.len();
        let place: usize = (py as usize) * (width as usize) + (px as usize);
        fresh[place] = label;
        proof {
            assert forall|y: int, x: int| inside(w, h, y, x) implies #[trigger] label_at(
                fresh@,
                w,
                y,
                x,
            ) == if label_at(old(fresh)@, w, y, x) == mark && (exists|j: int|
                0 <= j < k + 1 && (#[trigger] queue@[j]) == (y as i64, x as i64)) {
                label
            } else {
                label_at(old(fresh)@, w, y, x)
            } by {
                crate::utils::lemma_planar_bounds(h, w, 1, y, x, 0);
                if y == py && x == px {
                    assert(queue@[k as int] == (y as i64, x as i64));
                } else {
                    lemma_places_apart(w, y, x, py as int, px as int);
                    assert(label_at(fresh@, w, y, x) == label_at(before, w, y, x));
                    if exists|j: int| 0 <= j < k + 1 && (#[trigger] queue@[j]) == (y as i64, x as i64) {
                        let j = choose|j: int|
                            0 <= j < k + 1 && (#[trigger] queue@[j]) == (y as i64, x as i64);
                        assert(j < k);
                    }
                }
            }
        }
        k = k + 1;
    }
    proof {
        assert forall|y: int, x: int| inside(w, h, y, x) implies #[trigger] label_at(fresh@, w, y, x)
            == if label_at(old(fresh)@, w, y, x) == mark {
            label
        } else {
            label_at(old(fresh)@, w, y, x)
        } by {
            if label_at(old(fresh)@, w, y, x) == mark {
                let j = choose|j: int|
                    0 <= j < queue@.len() && (#[trigger] queue@[j]) == (y as i64, x as i64);
            }
        }
    }
}

/// Whether some pixel of the picture carries `label`.
pub open spec fn occurs(labels: Seq<usize>, width: int, height: int, label: int) -> bool {
    exists|y: int, x: int|
        inside(width, height, y, x) && #[trigger] label_at(labels, width, y, x) == label
}

/// Whether the labels of the picture are exactly the numbers below
/// `count`.
pub open spec fn contiguous(labels: Seq<usize>, width: int, height: int, count: int) -> bool {
    &&& forall|y: int, x: int|
        inside(width, height, y, x) ==> 0 <= #[trigger] label_at(labels, width, y, x) < count
    &&& forall|label: int| 0 <= label < count ==> #[trigger] occurs(labels, width, height, label)
}

/// Whether every two pixels that share a side and a label in `before`
/// share their label in `after`: no connected piece is split.
pub open spec fn unsplit(before: Seq<usize>, after: Seq<usize>, width: int, height: int) -> bool {
    forall|y1: int, x1: int, y2: int, x2: int|
        #![trigger label_at(after, width, y1, x1), label_at(after, width, y2, x2)]
        inside(width, height, y1, x1) && inside(width, height, y2, x2) && beside(y1, x1, y2, x2)
            && label_at(before, width, y1, x1) == label_at(before, width, y2, x2) ==> label_at(
            after,
            width,
            y1,
            x1,
        ) == label_at(after, width, y2, x2)
}

/// Whether the pixels of every label form one connected region.
pub open spec fn connected(labels: Seq<usize>, width: int, height: int) -> bool {
    forall|y1: int, x1: int, y2: int, x2: int|
        #![trigger label_at(labels, width, y1, x1), label_at(labels, width, y2, x2)]
        inside(width, height, y1, x1) && inside(width, height, y2, x2) && label_at(
            labels,
            width,
            y1,
            x1,
        ) == label_at(labels, width, y2, x2) ==> joined(labels, width, height, y1, x1, y2, x2)
}

/// Whether the pixel in row `b`, column `a` comes before the pixel in row
/// `y`, column `x` when the picture is read row by row.
spec fn earlier(b: int, a: int, y: int, x: int) -> bool {
    b < y || (b == y && a < x)
}

/// What holds of the new labels once the pixels before row `y`, column `x`
/// have theirs.
spec fn scanned(
    old_labels: Seq<usize>,
    fresh: Seq<usize>,
    firsts: Seq<(int, int)>,
    width: int,
    height: int,
    next: usize,
    y: int,
    x: int,
) -> bool {
    &&& 0 < width <= u32::MAX
    &&& 0 < height <= u32::MAX
    &&& old_labels.len() == height * width
    &&& fresh.len() == height * width
    &&& next <= y * width + x
    &&& forall|b: int, a: int|
        inside(width, height, b, a) && earlier(b, a, y, x) ==> #[trigger] label_at(
            fresh,
            width,
            b,
            a,
        ) != UNSET
    &&& forall|b: int, a: int|
        inside(width, height, b, a) && #[trigger] label_at(fresh, width, b, a) != UNSET
            ==> label_at(fresh, width, b, a) < next
    &&& firsts.len() == next
    &&& forall|label: int|
        0 <= label < next ==> inside(width, height, (#[trigger] firsts[label]).0, firsts[label].1)
            && label_at(fresh, width, firsts[label].0, firsts[label].1) == label
    &&& settled(old_labels, fresh, width, height, UNSET)
    &&& forall|b: int, a: int|
        inside(width, height, b, a) && #[trigger] label_at(fresh, width, b, a) != UNSET ==> joined(
            fresh,
            width,
            height,
            b,
            a,
            firsts[label_at(fresh, width, b, a) as int].0,
            firsts[label_at(fresh, width, b, a) as int].1,
        )
}

/// A piece that keeps its mark as its label leaves the scan in order.
proof fn lemma_scan_keep(
    old_labels: Seq<usize>,
    start: Seq<usize>,
    fresh: Seq<usize>,
    firsts: Seq<(int, int)>,
    queue: Seq<(i64, i64)>,
    width: int,
    height: int,
    next: usize,
    y: int,
    x: int,
)
    requires
        scanned(old_labels, start, firsts, width, height, next, y, x),
        inside(width, height, y, x),
        next < UNSET,
        marked_from(old_labels, start, fresh, width, height, next, label_at(old_labels, width, y, x)),
        label_at(fresh, width, y, x) == next,
        settled(old_labels, fresh, width, height, UNSET),
        gathered_at(fresh, width, height, next, y, x),
        coarser(start, fresh, width, height),
    ensures
        scanned(old_labels, fresh, firsts.push((y, x)), width, height, (next + 1) as usize, y, x + 1),
{
    let after = firsts.push((y, x));
    assert forall|b: int, a: int|
        inside(width, height, b, a) && earlier(b, a, y, x + 1) implies #[trigger] label_at(
        fresh,
        width,
        b,
        a,
    ) != UNSET by {
        if earlier(b, a, y, x) {
            assert(label_at(start, width, b, a) != UNSET);
        }
    }
    assert forall|b: int, a: int|
        inside(width, height, b, a) && #[trigger] label_at(fresh, width, b, a)
            != UNSET implies label_at(fresh, width, b, a) < next + 1 by {
        if label_at(fresh, width, b, a) != next {
            assert(label_at(start, width, b, a) == label_at(fresh, width, b, a));
        }
    }
    assert forall|label: int| 0 <= label < next + 1 implies inside(
        width,
        height,
        (#[trigger] after[label]).0,
        after[label].1,
    ) && label_at(fresh, width, after[label].0, after[label].1) == label by {
        if label < next {
            assert(after[label] == firsts[label]);
            let b = firsts[label].0;
            let a = firsts[label].1;
            assert(label_at(start, width, b, a) == label);
            assert(label_at(fresh, width, b, a) != next ==> label_at(fresh, width, b, a)
                == label_at(start, width, b, a));
            assert(label_at(fresh, width, b, a) == next ==> label_at(start, width, b, a) == UNSET);
        }
    }
    assert forall|b: int, a: int|
        inside(width, height, b, a) && #[trigger] label_at(fresh, width, b, a)
            != UNSET implies joined(
        fresh,
        width,
        height,
        b,
        a,
        after[label_at(fresh, width, b, a) as int].0,
        after[label_at(fresh, width, b, a) as int].1,
    ) by {
        let label = label_at(fresh, width, b, a);
        if label == next {
        } else {
            assert(label_at(start, width, b, a) == label);
            assert(after[label as int] == firsts[label as int]);
            lemma_joined_coarser(
                start,
                fresh,
                width,
                height,
                b,
                a,
                firsts[label as int].0,
                firsts[label as int].1,
            );
        }
    }
    assert((y * width + x) + 1 == y * width + (x + 1));
}

/// A piece that takes the label of a pixel beside it leaves the scan in
/// order.
proof fn lemma_scan_merge(
    old_labels: Seq<usize>,
    start: Seq<usize>,
    fresh: Seq<usize>,
    merged: Seq<usize>,
    firsts: Seq<(int, int)>,
    width: int,
    height: int,
    next: usize,
    y: int,
    x: int,
    border: Border,
)
    requires
        scanned(old_labels, start, firsts, width, height, next, y, x),
        inside(width, height, y, x),
        next < UNSET,
        marked_from(old_labels, start, fresh, width, height, next, label_at(old_labels, width, y, x)),
        label_at(fresh, width, y, x) == next,
        settled(old_labels, fresh, width, height, UNSET),
        gathered_at(fresh, width, height, next, y, x),
        coarser(start, fresh, width, height),
        is_border(fresh, width, height, next, border),
        border.label < next,
        merged.len() == fresh.len(),
        forall|b: int, a: int|
            inside(width, height, b, a) ==> #[trigger] label_at(merged, width, b, a) == if label_at(
                fresh,
                width,
                b,
                a,
            ) == next {
                border.label
            } else {
                label_at(fresh, width, b, a)
            },
    ensures
        scanned(old_labels, merged, firsts, width, height, next, y, x + 1),
{
    let target = border.label;
    assert(coarser(fresh, merged, width, height)) by {
        assert forall|y1: int, x1: int, y2: int, x2: int|
            #![trigger label_at(fresh, width, y1, x1), label_at(fresh, width, y2, x2)]
            inside(width, height, y1, x1) && inside(width, height, y2, x2) && label_at(
                fresh,
                width,
                y1,
                x1,
            ) != UNSET && label_at(fresh, width, y1, x1) == label_at(
                fresh,
                width,
                y2,
                x2,
            ) implies label_at(merged, width, y1, x1) != UNSET && label_at(merged, width, y1, x1)
            == label_at(merged, width, y2, x2) by {
            assert(label_at(merged, width, y1, x1) == if label_at(fresh, width, y1, x1) == next {
                target
            } else {
                label_at(fresh, width, y1, x1)
            });
            assert(label_at(merged, width, y2, x2) == if label_at(fresh, width, y2, x2) == next {
                target
            } else {
                label_at(fresh, width, y2, x2)
            });
        }
    }
    assert forall|b: int, a: int|
        inside(width, height, b, a) && earlier(b, a, y, x + 1) implies #[trigger] label_at(
        merged,
        width,
        b,
        a,
    ) != UNSET by {
        if earlier(b, a, y, x) {
            assert(label_at(start, width, b, a) != UNSET);
            assert(label_at(fresh, width, b, a) != next ==> label_at(fresh, width, b, a)
                == label_at(start, width, b, a));
        }
    }
    assert forall|b: int, a: int|
        inside(width, height, b, a) && #[trigger] label_at(merged, width, b, a)
            != UNSET implies label_at(merged, width, b, a) < next by {
        if label_at(fresh, width, b, a) != next {
            assert(label_at(start, width, b, a) == label_at(fresh, width, b, a));
        }
    }
    assert forall|label: int| 0 <= label < next implies inside(
        width,
        height,
        (#[trigger] firsts[label]).0,
        firsts[label].1,
    ) && label_at(merged, width, firsts[label].0, firsts[label].1) == label by {
        let b = firsts[label].0;
        let a = firsts[label].1;
        assert(label_at(start, width, b, a) == label);
        assert(label_at(fresh, width, b, a) != next ==> label_at(fresh, width, b, a) == label_at(
            start,
            width,
            b,
            a,
        ));
        assert(label_at(fresh, width, b, a) == next ==> label_at(start, width, b, a) == UNSET);
        assert(label_at(merged, width, b, a) == label_at(fresh, width, b, a));
    }
    assert(settled(old_labels, merged, width, height, UNSET)) by {
        assert forall|y1: int, x1: int, y2: int, x2: int|
            #![trigger label_at(merged, width, y1, x1), label_at(merged, width, y2, x2)]
            inside(width, height, y1, x1) && inside(width, height, y2, x2) && beside(y1, x1, y2, x2)
                && label_at(old_labels, width, y1, x1) == label_at(old_labels, width, y2, x2)
                && label_at(merged, width, y1, x1) != UNSET && label_at(merged, width, y1, x1)
                != UNSET implies label_at(merged, width, y2, x2) == label_at(
            merged,
            width,
            y1,
            x1,
        ) by {
            assert(label_at(fresh, width, y1, x1) != UNSET);
            assert(label_at(fresh, width, y2, x2) == label_at(fresh, width, y1, x1));
        }
    }
    // The border joins the piece to the first pixel of its new label.
    let iy = border.inner.0 as int;
    let ix = border.inner.1 as int;
    let oy = border.outer.0 as int;
    let ox = border.outer.1 as int;
    let fy = firsts[target as int].0;
    let fx = firsts[target as int].1;
    assert(label_at(start, width, oy, ox) == target);
    assert(joined(start, width, height, oy, ox, fy, fx));
    lemma_joined_coarser(start, fresh, width, height, oy, ox, fy, fx);
    lemma_joined_coarser(fresh, merged, width, height, oy, ox, fy, fx);
    assert(joined(fresh, width, height, iy, ix, y, x));
    lemma_joined_coarser(fresh, merged, width, height, iy, ix, y, x);
    assert(label_at(merged, width, iy, ix) == target);
    assert(label_at(merged, width, oy, ox) == target);
    lemma_joined_beside(merged, width, height, iy, ix, oy, ox);
    lemma_joined_through(merged, width, height, y, x, iy, ix, oy, ox);
    lemma_joined_through(merged, width, height, iy, ix, y, x, y, x);
    assert(joined(merged, width, height, y, x, oy, ox)) by {
        lemma_joined_through(merged, width, height, iy, ix, y, x, y, x);
        assert(joined(merged, width, height, y, x, iy, ix));
        lemma_joined_through(merged, width, height, y, x, iy, ix, oy, ox);
    }
    lemma_joined_through(merged, width, height, y, x, oy, ox, fy, fx);
    assert forall|b: int, a: int|
        inside(width, height, b, a) && #[trigger] label_at(merged, width, b, a)
            != UNSET implies joined(
        merged,
        width,
        height,
        b,
        a,
        firsts[label_at(merged, width, b, a) as int].0,
        firsts[label_at(merged, width, b, a) as int].1,
    ) by {
        if label_at(fresh, width, b, a) == next {
            assert(joined(fresh, width, height, b, a, y, x));
            lemma_joined_coarser(fresh, merged, width, height, b, a, y, x);
            lemma_joined_through(merged, width, height, b, a, y, x, fy, fx);
        } else {
            let label = label_at(fresh, width, b, a);
            assert(label_at(start, width, b, a) == label);
            lemma_joined_coarser(
                start,
                fresh,
                width,
                height,
                b,
                a,
                firsts[label as int].0,
                firsts[label as int].1,
            );
            lemma_joined_coarser(
                fresh,
                merged,
                width,
                height,
                b,
                a,
                firsts[label as int].0,
                firsts[label as int].1,
            );
        }
    }
    assert((y * width + x) + 1 == y * width + (x + 1));
}

/// Whether a piece of `size` pixels is small for the grid interval `s`:
/// smaller than a quarter of `s` squared.
pub open spec fn small_piece(size: int, s: int) -> bool {
    4 * size < s * s
}

/// Whether the pixel in row `y`, column `x` lies in the piece of the pixel
/// in row `sy`, column `sx`: the connected piece of one label around it.
pub open spec fn in_piece(
    old_labels: Seq<usize>,
    width: int,
    height: int,
    sy: int,
    sx: int,
    y: int,
    x: int,
) -> bool {
    inside(width, height, y, x) && joined(old_labels, width, height, y, x, sy, sx)
}

/// The pixels of the piece of the pixel in row `sy`, column `sx`.
pub open spec fn piece(old_labels: Seq<usize>, width: int, height: int, sy: int, sx: int) -> Set<
    (int, int),
> {
    Set::new(|p: (int, int)| in_piece(old_labels, width, height, sy, sx, p.0, p.1))
}

/// The labels with `label` given to the piece of the pixel in row `sy`,
/// column `sx`.
pub open spec fn painted(
    labels: Seq<usize>,
    old_labels: Seq<usize>,
    width: int,
    height: int,
    sy: int,
    sx: int,
    label: usize,
) -> Seq<usize> {
    Seq::new(
        labels.len(),
        |i: int|
            if in_piece(old_labels, width, height, sy, sx, i / width, i % width) {
                label
            } else {
                labels[i]
            },
    )
}

/// The new labels given so far, and their number.
pub struct Scan {
    pub labels: Seq<usize>,
    pub count: usize,
}

/// What the pixel in row `y`, column `x` does to the new labels when the
/// picture is read: nothing if it has its new label; else its piece gets
/// the next label, unless the piece is small for the grid interval `s` and
/// lies beside labelled pixels, in which case it takes the label among
/// these that shares the most pixel sides with it, the least of several
/// such labels.
pub open spec fn step(
    old_labels: Seq<usize>,
    width: int,
    height: int,
    s: int,
    state: Scan,
    y: int,
    x: int,
) -> Scan {
    if label_at(state.labels, width, y, x) != UNSET {
        state
    } else {
        let marked = painted(state.labels, old_labels, width, height, y, x, state.count);
        let best = best_label(marked, width, height, state.count as int, state.count as int);
        if small_piece(piece(old_labels, width, height, y, x).len() as int, s) && best >= 0 {
            Scan {
                labels: painted(state.labels, old_labels, width, height, y, x, best as usize),
                count: state.count,
            }
        } else {
            Scan { labels: marked, count: (state.count + 1) as usize }
        }
    }
}

/// The new labels after the first `upto` pixels of row `y` have been
/// read.
pub open spec fn scan_row(
    old_labels: Seq<usize>,
    width: int,
    height: int,
    s: int,
    state: Scan,
    y: int,
    upto: int,
) -> Scan
    decreases upto,
{
    if upto <= 0 {
        state
    } else {
        step(
            old_labels,
            width,
            height,
            s,
            scan_row(old_labels, width, height, s, state, y, upto - 1),
            y,
            upto - 1,
        )
    }
}

/// The new labels after the first `upto` rows have been read.
pub open spec fn scan_rows(old_labels: Seq<usize>, width: int, height: int, s: int, upto: int) -> Scan
    decreases upto,
{
    if upto <= 0 {
        Scan { labels: Seq::new((height * width) as nat, |i: int| UNSET), count: 0 }
    } else {
        scan_row(
            old_labels,
            width,
            height,
            s,
            scan_rows(old_labels, width, height, s, upto - 1),
            upto - 1,
            width,
        )
    }
}

/// The listed pixels are as many as the piece has.
proof fn lemma_piece_size(
    old_labels: Seq<usize>,
    fresh: Seq<usize>,
    queue: Seq<(i64, i64)>,
    width: int,
    height: int,
    mark: usize,
    sy: int,
    sx: int,
)
    requires
        width <= u32::MAX,
        height <= u32::MAX,
        listed(fresh, width, height, mark, queue),
        forall|y: int, x: int|
            inside(width, height, y, x) ==> (#[trigger] label_at(fresh, width, y, x) == mark
                <==> joined(old_labels, width, height, y, x, sy, sx)),
    ensures
        piece(old_labels, width, height, sy, sx).len() == queue.len(),
{
    let points = Seq::new(queue.len(), |k: int| (queue[k].0 as int, queue[k].1 as int));
    assert(points.no_duplicates()) by {
        assert forall|i: int, j: int|
            0 <= i < points.len() && 0 <= j < points.len() && i != j implies points[i]
            != points[j] by {
            assert(queue[i] != queue[j]);
        }
    }
    points.unique_seq_to_set();
    assert(points.to_set() =~= piece(old_labels, width, height, sy, sx)) by {
        assert forall|p: (int, int)| points.to_set().contains(p) implies piece(
            old_labels,
            width,
            height,
            sy,
            sx,
        ).contains(p) by {
            let k = choose|k: int| 0 <= k < points.len() && points[k] == p;
            assert(label_at(fresh, width, queue[k].0 as int, queue[k].1 as int) == mark);
        }
        assert forall|p: (int, int)|
            piece(old_labels, width, height, sy, sx).contains(p) implies points.to_set().contains(
            p,
        ) by {
            assert(label_at(fresh, width, p.0, p.1) == mark);
            let k = choose|k: int|
                0 <= k < queue.len() && (#[trigger] queue[k]) == (p.0 as i64, p.1 as i64);
            assert(points[k] == p);
        }
    }
}

/// Labels that are `label` on a piece and `labels` elsewhere are the
/// labels painted with `label`.
proof fn lemma_painted(
    labels: Seq<usize>,
    result: Seq<usize>,
    old_labels: Seq<usize>,
    width: int,
    height: int,
    sy: int,
    sx: int,
    label: usize,
)
    requires
        0 < width,
        0 <= height,
        labels.len() == height * width,
        result.len() == labels.len(),
        forall|y: int, x: int|
            inside(width, height, y, x) ==> #[trigger] label_at(result, width, y, x) == if joined(
                old_labels,
                width,
                height,
                y,
                x,
                sy,
                sx,
            ) {
                label
            } else {
                label_at(labels, width, y, x)
            },
    ensures
        result == painted(labels, old_labels, width, height, sy, sx, label),
{
    let target = painted(labels, old_labels, width, height, sy, sx, label);
    assert forall|i: int| 0 <= i < result.len() implies result[i] == target[i] by {
        crate::slic::lemma_pixel_place(i, width, height);
        assert(label_at(result, width, i / width, i % width) == result[i]);
        assert(label_at(labels, width, i / width, i % width) == labels[i]);
    }
    assert(result =~= target);
}

/// Makes every label one connected region and numbers the labels from
/// zero without gaps.
///
/// The picture is read row by row. Every connected piece of one old label
/// gets a label of its own, in the order in which the pieces are met; but a
/// piece that is small for the grid interval `s` and lies beside pixels that
/// have their new label takes the label among these that shares the most
/// pixel sides with it, the least of several such labels. Returns the
/// number of labels.
///
/// The largest machine word stands for "no label" and may not occur among
/// the labels.
pub fn enforce_connectivity(width: u32, height: u32, s: u32, labels: &mut Vec<usize>) -> (count: usize)
    requires
        old(labels)@.len() == height * width,
        forall|i: int| 0 <= i < old(labels)@.len() ==> #[trigger] old(labels)@[i] != UNSET,
    ensures
        final(labels)@.len() == old(labels)@.len(),
        width > 0 && height > 0 ==> final(labels)@ == scan_rows(
            old(labels)@,
            width as int,
            height as int,
            s as int,
            height as int,
        ).labels && count == scan_rows(
            old(labels)@,
            width as int,
            height as int,
            s as int,
            height as int,
        ).count,
        width == 0 || height == 0 ==> final(labels)@ == old(labels)@ && count == 0,
        contiguous(final(labels)@, width as int, height as int, count as int),
        unsplit(old(labels)@, final(labels)@, width as int, height as int),
        connected(final(labels)@, width as int, height as int),
{
    let ghost w = width as int;
    let ghost h = height as int;
    let ghost given = labels@;
    if width == 0 || height == 0 {
        return 0;
    }
    let pixels = labels.len();
    let mut fresh: Vec<usize> = Vec::new();
    let mut i: usize = 0;
    while i < pixels
        invariant
            i <= pixels,
            fresh@.len() == i,
            forall|j: int| 0 <= j < i ==> #[trigger] fresh@[j] == UNSET,
        decreases pixels - i,
    {
        fresh.push(UNSET);
        i = i + 1;
    }
    let mut queue: Vec<(i64, i64)> = Vec::new();
    let mut next: usize = 0;
    let ghost mut firsts: Seq<(int, int)> = Seq::empty();
    proof {
        assert forall|b: int, a: int| inside(w, h, b, a) implies #[trigger] label_at(fresh@, w, b, a)
            == UNSET by {
            crate::utils::lemma_planar_bounds(h, w, 1, b, a, 0);
            assert(h * w * 1 == h * w) by (nonlinear_arith);
        }
        assert(0 * w + 0 == 0);
        assert(scanned(labels@, fresh@, firsts, w, h, next, 0, 0));
        assert(fresh@ =~= scan_rows(given, w, h, s as int, 0).labels);
    }
    let mut y: u32 = 0;
    while y < height
        invariant
            y <= height,
            w == width,
            h == height,
            labels@ == old(labels)@,
            forall|i: int| 0 <= i < labels@.len() ==> #[trigger] labels@[i] != UNSET,
            scanned(labels@, fresh@, firsts, w, h, next, y as int, 0),
            given == old(labels)@,
            (Scan { labels: fresh@, count: next }) == scan_rows(given, w, h, s as int, y as int),
        decreases height - y,
    {
        let mut x: u32 = 0;
        while x < width
            invariant
                y < height,
                x <= width,
                w == width,
                h == height,
                labels@ == old(labels)@,
                forall|i: int| 0 <= i < labels@.len() ==> #[trigger] labels@[i] != UNSET,
                scanned(labels@, fresh@, firsts, w, h, next, y as int, x as int),
                given == old(labels)@,
                (Scan { labels: fresh@, count: next }) == scan_row(
                    given,
                    w,
                    h,
                    s as int,
                    scan_rows(given, w, h, s as int, y as int),
                    y as int,
                    x as int,
                ),
            decreases width - x,
        {
            proof {
                crate::utils::lemma_planar_bounds(h, w, 1, y as int, x as int, 0);
                assert((y * w + x) * 1 + 0 == y * w + x);
                assert(h * w * 1 == h * w) by (nonlinear_arith);
                assert(0 <= y * w) by (nonlinear_arith)
                    requires
                        0 <= y,
                        0 <= w,
                ;
            }
            let total = fresh.len();
            let place: usize = (y as usize) * (width as usize) + (x as usize);
            assert(fresh@[place as int] == label_at(fresh@, w, y as int, x as int));
            assert(labels@[place as int] == label_at(labels@, w, y as int, x as int));
            if fresh[place] == UNSET {
                let ghost start = fresh@;
                fill(labels, &mut fresh, &mut queue, width as i64, height as i64, y as i64, x as i64, next);
                let ghost marked = fresh@;
                proof {
                    lemma_piece_size(given, marked, queue@, w, h, next, y as int, x as int);
                    assert forall|b: int, a: int| inside(w, h, b, a) implies #[trigger] label_at(
                        marked,
                        w,
                        b,
                        a,
                    ) == if joined(given, w, h, b, a, y as int, x as int) {
                        next
                    } else {
                        label_at(start, w, b, a)
                    } by {}
                    lemma_painted(start, marked, given, w, h, y as int, x as int, next);
                    assert forall|b: int, a: int| inside(w, h, b, a) implies #[trigger] label_at(
                        marked,
                        w,
                        b,
                        a,
                    ) == UNSET || label_at(marked, w, b, a) <= next by {
                        if label_at(marked, w, b, a) != next {
                            assert(label_at(start, w, b, a) == label_at(marked, w, b, a));
                        }
                    }
                }
                let size = queue.len();
                assert(s * s <= 0xffff_ffff * 0xffff_ffff) by (nonlinear_arith)
                    requires
                        0 <= s <= 0xffff_ffff,
                ;
                let small = 4 * (size as u128) < (s as u128) * (s as u128);
                let choice = if small {
                    pick(&fresh, &queue, width as i64, height as i64, next)
                } else {
                    None
                };
                match choice {
                    Some(border) => {
                        let ghost filled = fresh@;
                        relabel(&mut fresh, &queue, width as i64, height as i64, next, border.label);
                        proof {
                            assert forall|b: int, a: int|
                                inside(w, h, b, a) implies #[trigger] label_at(fresh@, w, b, a)
                                == if joined(given, w, h, b, a, y as int, x as int) {
                                border.label
                            } else {
                                label_at(start, w, b, a)
                            } by {
                                assert(label_at(marked, w, b, a) == next <==> joined(
                                    given,
                                    w,
                                    h,
                                    b,
                                    a,
                                    y as int,
                                    x as int,
                                ));
                            }
                            lemma_painted(start, fresh@, given, w, h, y as int, x as int, border.label);
                            lemma_scan_merge(
                                labels@,
                                start,
                                filled,
                                fresh@,
                                firsts,
                                w,
                                h,
                                next,
                                y as int,
                                x as int,
                                border,
                            );
                        }
                    },
                    None => {
                        proof {
                            lemma_scan_keep(
                                labels@,
                                start,
                                fresh@,
                                firsts,
                                queue@,
                                w,
                                h,
                                next,
                                y as int,
                                x as int,
                            );
                            firsts = firsts.push((y as int, x as int));
                        }
                        next = next + 1;
                    },
                }
            } else {
                proof {
                    assert forall|b: int, a: int|
                        inside(w, h, b, a) && earlier(
                            b,
                            a,
                            y as int,
                            x as int + 1,
                        ) implies #[trigger] label_at(fresh@, w, b, a) != UNSET by {}
                }
            }
            x = x + 1;
        }
        proof {
            assert(y * w + w == (y + 1) * w + 0) by (nonlinear_arith);
            assert forall|b: int, a: int|
                inside(w, h, b, a) && earlier(b, a, y as int + 1, 0) implies #[trigger] label_at(
                fresh@,
                w,
                b,
                a,
            ) != UNSET by {
                assert(earlier(b, a, y as int, w));
            }
        }
        y = y + 1;
    }
    proof {
        let before = labels@;
        assert forall|b: int, a: int| inside(w, h, b, a) implies #[trigger] label_at(
            fresh@,
            w,
            b,
            a,
        ) != UNSET by {
            assert(earlier(b, a, h, 0));
        }
        assert(contiguous(fresh@, w, h, next as int)) by {
            assert forall|label: int| 0 <= label < next implies #[trigger] occurs(
                fresh@,
                w,
                h,
                label,
            ) by {
                assert(label_at(fresh@, w, firsts[label].0, firsts[label].1) == label);
            }
        }
        assert(connected(fresh@, w, h)) by {
            assert forall|y1: int, x1: int, y2: int, x2: int|
                #![trigger label_at(fresh@, w, y1, x1), label_at(fresh@, w, y2, x2)]
                inside(w, h, y1, x1) && inside(w, h, y2, x2) && label_at(fresh@, w, y1, x1)
                    == label_at(fresh@, w, y2, x2) implies joined(fresh@, w, h, y1, x1, y2, x2) by {
                let label = label_at(fresh@, w, y1, x1) as int;
                lemma_joined_through(
                    fresh@,
                    w,
                    h,
                    y2,
                    x2,
                    firsts[label].0,
                    firsts[label].1,
                    firsts[label].0,
                    firsts[label].1,
                );
                lemma_joined_through(
                    fresh@,
                    w,
                    h,
                    y1,
                    x1,
                    firsts[label].0,
                    firsts[label].1,
                    y2,
                    x2,
                );
            }
        }
        assert(unsplit(before, fresh@, w, h));
    }
    *labels = fresh;
    next
}

} // verus!
