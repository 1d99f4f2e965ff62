//! What holds of the operations on a layout, whatever the layout.
//!
//! Every operation keeps a layout well formed. Whether it keeps a tiling a
//! tiling depends on the operation and on the layout: a split always does,
//! a close does exactly where the closed frame has a neighbour along a
//! whole edge, and a resize does where the edge that moves is shared with
//! the frames beyond it. The laws below say when the tiling is kept and
//! when it is lost.

use vstd::prelude::*;
use crate::frame::{Axis, Direction, Frame, MIN_SIZE, min_int};
use crate::layout::{
    Layout,
    Operation,
    full_frame,
    left_half,
    lower_half,
    right_half,
    upper_half,
};
use crate::reflow::{
    adjacent,
    count_adjacent,
    first_adjacent_from,
    has_adjacent,
    lemma_count_adjacent_sign,
    lemma_reflowed_fits,
    reflowed,
};
use crate::repair::{
    all_fit,
    first_open_below_from,
    first_open_right_from,
    lemma_repaired,
    max_bottom,
    repairable,
    stretched_one,
    max_right,
    settle,
    stretch_outermost,
    unsettled,
};
use crate::resize::{
    edge_is_shared,
    effective,
    follows,
    lemma_resized,
    resized,
    resized_one,
};
use crate::select::{best_upto, doubled_score, is_candidate, lemma_best_upto, selection};
use crate::theme::ColorTheme;
use crate::tiling::{
    covered,
    halves,
    lemma_halving_keeps_tiling,
    lemma_repair_keeps_tiling,
    proper,
    tiles,
};
use crate::tiling_close::{
    lemma_merged_nearest_covers,
    lemma_merged_nearest_overlaps,
    lemma_reflowed_tiles,
    lemma_remove_leaves_room,
};
use crate::tiling_resize::{
    lemma_corner_move_loses_tiling,
    lemma_narrowed_is_undone,
    lemma_resized_below_tiles,
    lemma_resized_beside_tiles,
    lemma_shortened_is_undone,
    lemma_unshared_below_loses_tiling,
    lemma_follower_below,
    lemma_follower_beside,
    lemma_unshared_beside_loses_tiling,
};

verus! {

/// Every operation keeps a layout well formed: there is a frame, the active
/// index names one, and every frame fits.
pub proof fn law_operations_keep_well_formed(l: Layout)
    requires
        l.wf(),
    ensures
        l.split_horizontal().wf(),
        l.split_vertical().wf(),
        l.close_active().wf(),
        l.delete_others().wf(),
        forall|direction: Direction| #[trigger] l.select(direction).wf(),
        forall|dx: int, dy: int|
            l.resize_in_bounds(dx, dy) ==> #[trigger] l.resize_active(dx, dy).wf(),
        forall|w: int, h: int|
            0 <= w <= i32::MAX && 0 <= h <= i32::MAX ==> #[trigger] l.adjusted(w, h).wf(),
        forall|scaled: Seq<Frame>, w: int, h: int|
            scaled.len() == l.frames.len() && all_fit(scaled) && 0 < w <= i32::MAX
                && 0 < h <= i32::MAX ==> #[trigger] l.resize_window(scaled, w, h).wf(),
{
    let f = l.active_frame();
    assert(f.fits());
    assert forall|i: int| 0 <= i < l.frames.len() implies (#[trigger] l.frames[i]).fits() by {}
    assert(l.split_horizontal().wf()) by {
        let t = l.split_horizontal().frames;
        assert forall|i: int| 0 <= i < t.len() implies (#[trigger] t[i]).fits() by {
            if i < l.frames.len() && i != l.active {
                assert(l.frames[i].fits());
            }
        }
    }
    assert(l.split_vertical().wf()) by {
        let t = l.split_vertical().frames;
        assert forall|i: int| 0 <= i < t.len() implies (#[trigger] t[i]).fits() by {
            if i < l.frames.len() && i != l.active {
                assert(l.frames[i].fits());
            }
        }
    }
    assert(l.close_active().wf()) by {
        if l.frames.len() > 1 {
            let rest = l.frames.remove(l.active);
            assert forall|i: int| 0 <= i < rest.len() implies (#[trigger] rest[i]).fits() by {
                if i < l.active {
                    assert(l.frames[i].fits());
                } else {
                    assert(l.frames[i + 1].fits());
                }
            }
            lemma_reflowed_fits(rest, f);
            lemma_repaired(reflowed(rest, f), l.canvas_width, l.canvas_height);
        }
    }
    assert forall|direction: Direction| #[trigger] l.select(direction).wf() by {
        lemma_best_upto(l.frames, l.active, direction, l.frames.len() as int);
    }
    assert forall|dx: int, dy: int| l.resize_in_bounds(dx, dy) implies #[trigger] l.resize_active(
        dx,
        dy,
    ).wf() by {
        if l.frames.len() > 1 && !(dx == 0 && dy == 0) {
            lemma_resized(l.frames, l.active, dx, dy);
            lemma_repaired(resized(l.frames, l.active, dx, dy), l.canvas_width, l.canvas_height);
        }
    }
    assert forall|w: int, h: int| 0 <= w <= i32::MAX && 0 <= h <= i32::MAX implies #[trigger] l.adjusted(
        w,
        h,
    ).wf() by {
        lemma_repaired(l.frames, w, h);
    }
    assert forall|scaled: Seq<Frame>, w: int, h: int|
        scaled.len() == l.frames.len() && all_fit(scaled) && 0 < w <= i32::MAX && 0
            < h <= i32::MAX implies #[trigger] l.resize_window(scaled, w, h).wf() by {
        lemma_repaired(scaled, w, h);
    }
}

/// After any sequence of operations, each of which the layout before it
/// admits, the layout is well formed: the active index names a frame.
pub proof fn law_well_formed_after_any_operations(l: Layout, ops: Seq<Operation>)
    requires
        l.wf(),
        forall|k: int| 0 <= k < ops.len() ==> #[trigger] l.after(ops.take(k)).admits(ops[k]),
    ensures
        l.after(ops).wf(),
        0 <= l.after(ops).active < l.after(ops).frames.len(),
    decreases ops.len(),
{
    if ops.len() > 0 {
        let before = ops.drop_last();
        assert(ops.take(ops.len() - 1) =~= before);
        assert forall|k: int| 0 <= k < before.len() implies #[trigger] l.after(before.take(k)).admits(
            before[k],
        ) by {
            assert(before.take(k) =~= ops.take(k));
            assert(l.after(ops.take(k)).admits(ops[k]));
        }
        law_well_formed_after_any_operations(l, before);
        let m = l.after(before);
        assert(m.admits(ops.last())) by {
            assert(l.after(ops.take(ops.len() - 1)).admits(ops[ops.len() - 1]));
        }
        law_operations_keep_well_formed(m);
        match ops.last() {
            Operation::ResizeActiveBy { dx, dy } => {
                assert(m.resize_active(dx, dy).wf());
            },
            Operation::SelectDirection { direction } => {
                assert(m.select(direction).wf());
            },
            Operation::CanvasResized { scaled, width, height } => {
                assert(m.resize_window(scaled, width, height).wf());
            },
            _ => {},
        }
    }
}

/// A new layout is a tiling of its canvas.
pub proof fn law_initial_is_tiling(w: int, h: int, theme: ColorTheme)
    requires
        0 < w <= i32::MAX,
        0 < h <= i32::MAX,
    ensures
        Layout::initial(w, h, theme).wf(),
        Layout::initial(w, h, theme).is_tiling(),
{
    let s = Layout::initial(w, h, theme).frames;
    assert forall|px: int, py: int| 0 <= px < w && 0 <= py < h implies #[trigger] covered(
        s,
        px,
        py,
    ) by {
        assert(s[0].covers(px, py));
    }
}

/// Keeping only one frame yields a tiling, whatever the layout was.
pub proof fn law_delete_others_is_tiling(l: Layout)
    requires
        l.wf(),
    ensures
        l.delete_others().wf(),
        l.delete_others().is_tiling(),
{
    law_initial_is_tiling(l.canvas_width, l.canvas_height, l.theme);
}

/// Selecting a frame changes no frame.
pub proof fn law_select_keeps_frames(l: Layout, direction: Direction)
    ensures
        l.select(direction).frames == l.frames,
        l.is_tiling() ==> l.select(direction).is_tiling(),
{
}

/// The gap-repair pass leaves a tiling of its canvas as it is.
pub proof fn law_adjust_keeps_tiling(l: Layout)
    requires
        l.wf(),
        l.is_tiling(),
    ensures
        l.adjusted(l.canvas_width, l.canvas_height) == l,
{
    lemma_repair_keeps_tiling(l.frames, l.canvas_width, l.canvas_height);
}

/// The two halves of a split make up the frame that was cut: the new frame
/// begins where the active frame now ends, and their sizes add up to the
/// size that the active frame had.
pub proof fn law_split_halves_recombine(l: Layout)
    requires
        l.wf(),
    ensures
        ({
            let f = l.active_frame();
            let kept = l.split_horizontal().frames[l.active];
            let made = l.split_horizontal().frames.last();
            &&& l.split_horizontal().frames.len() == l.frames.len() + 1
            &&& kept.x == f.x && kept.y == f.y && kept.width == f.width
            &&& kept.height == f.height / 2
            &&& made.x == f.x && made.width == f.width
            &&& made.y == kept.bottom()
            &&& kept.height + made.height == f.height
        }),
        ({
            let f = l.active_frame();
            let kept = l.split_vertical().frames[l.active];
            let made = l.split_vertical().frames.last();
            &&& l.split_vertical().frames.len() == l.frames.len() + 1
            &&& kept.x == f.x && kept.y == f.y && kept.height == f.height
            &&& kept.width == f.width / 2
            &&& made.y == f.y && made.height == f.height
            &&& made.x == kept.right()
            &&& kept.width + made.width == f.width
        }),
{
    assert(l.active_frame().fits());
}

/// Cutting the active frame of a tiling across its height leaves a tiling,
/// whether the height is even or odd. The height must be at least two, so
/// that neither half is empty.
pub proof fn law_split_horizontal_keeps_tiling(l: Layout)
    requires
        l.wf(),
        l.is_tiling(),
        l.active_frame().height >= 2,
    ensures
        l.split_horizontal().is_tiling(),
{
    let f = l.active_frame();
    assert(proper(f, l.canvas_width, l.canvas_height));
    assert(halves(f, upper_half(f), lower_half(f)));
    lemma_halving_keeps_tiling(
        l.frames,
        l.canvas_width,
        l.canvas_height,
        l.active,
        upper_half(f),
        lower_half(f),
    );
}

/// Cutting the active frame of a tiling across its width leaves a tiling,
/// whether the width is even or odd. The width must be at least two, so
/// that neither half is empty.
pub proof fn law_split_vertical_keeps_tiling(l: Layout)
    requires
        l.wf(),
        l.is_tiling(),
        l.active_frame().width >= 2,
    ensures
        l.split_vertical().is_tiling(),
{
    let f = l.active_frame();
    assert(proper(f, l.canvas_width, l.canvas_height));
    assert(halves(f, left_half(f), right_half(f)));
    lemma_halving_keeps_tiling(
        l.frames,
        l.canvas_width,
        l.canvas_height,
        l.active,
        left_half(f),
        right_half(f),
    );
}

/// Closing the active frame of a tiling leaves a tiling, provided that
/// another frame shares a whole edge with it.
pub proof fn law_close_keeps_tiling(l: Layout)
    requires
        l.wf(),
        l.is_tiling(),
        l.frames.len() > 1 ==> l.active_has_neighbor(),
    ensures
        l.close_active().is_tiling(),
{
    if l.frames.len() > 1 {
        let w = l.canvas_width;
        let h = l.canvas_height;
        let c = l.active_frame();
        let rest = l.frames.remove(l.active);
        lemma_remove_leaves_room(l.frames, w, h, l.active);
        let (j, axis) = choose|j: int, axis: Axis|
            0 <= j < l.frames.len() && j != l.active && #[trigger] adjacent(l.frames[j], c, axis);
        let r = if j < l.active { j } else { j - 1 };
        assert(rest[r] == l.frames[j]);
        assert(adjacent(rest[r], c, axis));
        assert(has_adjacent(rest, c, axis));
        lemma_reflowed_tiles(rest, c, w, h);
        lemma_repair_keeps_tiling(reflowed(rest, c), w, h);
    }
}

/// Closing the active frame of a tiling where no other frame shares a whole
/// edge with it leaves two frames that overlap.
pub proof fn law_close_without_neighbor_loses_tiling(l: Layout)
    requires
        l.wf(),
        l.is_tiling(),
        l.frames.len() > 1,
        !l.active_has_neighbor(),
    ensures
        !l.close_active().is_tiling(),
{
    let w = l.canvas_width;
    let h = l.canvas_height;
    let c = l.active_frame();
    let rest = l.frames.remove(l.active);
    lemma_remove_leaves_room(l.frames, w, h, l.active);
    assert forall|axis: Axis| !has_adjacent(rest, c, axis) by {
        if has_adjacent(rest, c, axis) {
            let r = choose|r: int| 0 <= r < rest.len() && adjacent(#[trigger] rest[r], c, axis);
            let j = if r < l.active { r } else { r + 1 };
            assert(l.frames[j] == rest[r]);
            assert(adjacent(l.frames[j], c, axis));
        }
    }
    assert(!has_adjacent(rest, c, Axis::Horizontal));
    assert(!has_adjacent(rest, c, Axis::Vertical));
    lemma_count_adjacent_sign(rest, c, Axis::Horizontal);
    lemma_count_adjacent_sign(rest, c, Axis::Vertical);
    assert forall|i: int| 0 <= i < rest.len() implies (#[trigger] rest[i]).fits() by {
        assert(proper(rest[i], w, h));
    }
    assert(proper(c, w, h));
    lemma_reflowed_fits(rest, c);
    lemma_repaired(reflowed(rest, c), w, h);
    lemma_merged_nearest_overlaps(rest, c, w, h, l.close_active().frames);
}

/// Closing the active frame of a tiling leaves no gap, whether or not
/// another frame shares a whole edge with it: afterwards every point of
/// the canvas is covered, and every frame lies on the canvas.
pub proof fn law_close_leaves_no_gap(l: Layout)
    requires
        l.wf(),
        l.is_tiling(),
    ensures
        forall|i: int|
            0 <= i < l.close_active().frames.len() ==> proper(
                #[trigger] l.close_active().frames[i],
                l.canvas_width,
                l.canvas_height,
            ),
        forall|px: int, py: int|
            0 <= px < l.canvas_width && 0 <= py < l.canvas_height ==> #[trigger] covered(
                l.close_active().frames,
                px,
                py,
            ),
{
    let w = l.canvas_width;
    let h = l.canvas_height;
    if l.frames.len() > 1 {
        if l.active_has_neighbor() {
            law_close_keeps_tiling(l);
        } else {
            let c = l.active_frame();
            let rest = l.frames.remove(l.active);
            lemma_remove_leaves_room(l.frames, w, h, l.active);
            assert forall|axis: Axis| !has_adjacent(rest, c, axis) by {
                if has_adjacent(rest, c, axis) {
                    let r = choose|r: int|
                        0 <= r < rest.len() && adjacent(#[trigger] rest[r], c, axis);
                    let j = if r < l.active { r } else { r + 1 };
                    assert(l.frames[j] == rest[r]);
                    assert(adjacent(l.frames[j], c, axis));
                }
            }
            assert(!has_adjacent(rest, c, Axis::Horizontal));
            assert(!has_adjacent(rest, c, Axis::Vertical));
            lemma_count_adjacent_sign(rest, c, Axis::Horizontal);
            lemma_count_adjacent_sign(rest, c, Axis::Vertical);
            assert forall|i: int| 0 <= i < rest.len() implies (#[trigger] rest[i]).fits() by {
                assert(proper(rest[i], w, h));
            }
            assert(proper(c, w, h));
            lemma_reflowed_fits(rest, c);
            lemma_repaired(reflowed(rest, c), w, h);
            lemma_merged_nearest_covers(rest, c, w, h, l.close_active().frames);
        }
    }
}

/// Resizing the active frame of a tiling leaves a tiling, provided that at
/// most one of its two edges moves and that the edge that moves is shared:
/// it lies inside the canvas, and the frames that begin there lie within
/// the active frame's span.
pub proof fn law_resize_keeps_tiling(l: Layout, dx: int, dy: int)
    requires
        l.wf(),
        l.is_tiling(),
        l.moves_shared_edge_only(dx, dy),
    ensures
        l.resize_active(dx, dy).is_tiling(),
        l.frames.len() > 1 ==> l.resize_active(dx, dy).frames == resized(
            l.frames,
            l.active,
            dx,
            dy,
        ),
{
    let w = l.canvas_width;
    let h = l.canvas_height;
    let ex = effective(l.frames, l.active, Axis::Horizontal, dx);
    let ey = effective(l.frames, l.active, Axis::Vertical, dy);
    let t = resized(l.frames, l.active, dx, dy);
    if ex != 0 {
        lemma_resized_beside_tiles(l.frames, w, h, l.active, dx, dy);
    } else if ey != 0 {
        lemma_resized_below_tiles(l.frames, w, h, l.active, dx, dy);
    } else {
        assert forall|i: int| 0 <= i < t.len() implies t[i] == l.frames[i] by {
            assert(proper(l.frames[i], w, h));
        }
        assert(t =~= l.frames);
    }
    lemma_repair_keeps_tiling(t, w, h);
}

/// Resizing the active frame of a tiling loses the tiling where one of its
/// two edges moves, that edge lies inside the canvas, and a frame that
/// begins there reaches beyond the active frame's span: that frame moves
/// away from, or over, the frame beside the active one.
pub proof fn law_resize_of_unshared_edge_loses_tiling(l: Layout, dx: int, dy: int)
    requires
        l.wf(),
        l.is_tiling(),
        l.frames.len() > 1,
        ({
            let a = l.active_frame();
            let w = l.canvas_width;
            let h = l.canvas_height;
            let ex = effective(l.frames, l.active, Axis::Horizontal, dx);
            let ey = effective(l.frames, l.active, Axis::Vertical, dy);
            ||| ex != 0 && ey == 0 && a.right() < w && !edge_is_shared(
                l.frames,
                w,
                h,
                l.active,
                Axis::Horizontal,
            )
            ||| ey != 0 && ex == 0 && a.bottom() < h && !edge_is_shared(
                l.frames,
                w,
                h,
                l.active,
                Axis::Vertical,
            )
        }),
    ensures
        !l.resize_active(dx, dy).is_tiling(),
{
    let s = l.frames;
    let a = l.active_frame();
    let w = l.canvas_width;
    let h = l.canvas_height;
    let ex = effective(s, l.active, Axis::Horizontal, dx);
    let ey = effective(s, l.active, Axis::Vertical, dy);
    let t = resized(s, l.active, dx, dy);
    let r = l.resize_active(dx, dy).frames;
    assert(proper(a, w, h));
    if ex != 0 {
        let n = choose|n: int|
            0 <= n < s.len() && n != l.active && #[trigger] follows(a, s[n], Axis::Horizontal) && !(
            a.y <= s[n].y && s[n].bottom() <= a.bottom());
        assert(proper(s[n], w, h));
        lemma_resized(s, l.active, dx, dy);
        lemma_repaired(t, w, h);
        lemma_unshared_beside_loses_tiling(s, w, h, l.active, dx, dy, n, r);
    } else {
        let n = choose|n: int|
            0 <= n < s.len() && n != l.active && #[trigger] follows(a, s[n], Axis::Vertical) && !(
            a.x <= s[n].x && s[n].right() <= a.right());
        assert(proper(s[n], w, h));
        lemma_resized(s, l.active, dx, dy);
        lemma_repaired(t, w, h);
        lemma_unshared_below_loses_tiling(s, w, h, l.active, dx, dy, n, r);
    }
}

/// Resizing the active frame of a tiling loses the tiling where both of its
/// edges move and both are shared: at the corner between them, the frames
/// come to overlap or leave a gap.
pub proof fn law_resize_of_both_shared_edges_loses_tiling(l: Layout, dx: int, dy: int)
    requires
        l.wf(),
        l.is_tiling(),
        l.frames.len() > 1,
        effective(l.frames, l.active, Axis::Horizontal, dx) != 0,
        effective(l.frames, l.active, Axis::Vertical, dy) != 0,
        edge_is_shared(l.frames, l.canvas_width, l.canvas_height, l.active, Axis::Horizontal),
        edge_is_shared(l.frames, l.canvas_width, l.canvas_height, l.active, Axis::Vertical),
    ensures
        !l.resize_active(dx, dy).is_tiling(),
{
    let s = l.frames;
    let a = l.active_frame();
    let w = l.canvas_width;
    let h = l.canvas_height;
    let t = resized(s, l.active, dx, dy);
    let r = l.resize_active(dx, dy).frames;
    assert(proper(a, w, h));
    let f = lemma_follower_beside(s, w, h, l.active, a.y as int);
    let v = lemma_follower_below(s, w, h, l.active, a.x as int);
    assert(proper(s[f], w, h) && proper(s[v], w, h));
    lemma_resized(s, l.active, dx, dy);
    lemma_repaired(t, w, h);
    lemma_corner_move_loses_tiling(s, w, h, l.active, dx, dy, r);
}

/// Moving an edge of the active frame inwards, where that edge lies on the
/// canvas edge, is undone by the gap-repair pass: the tiling stays as it
/// was. For the bottom edge this holds provided that no frame which ends
/// where the active frame begins starts level with the rows that the
/// active frame gives up.
pub proof fn law_inward_resize_at_canvas_edge_is_undone(l: Layout, dx: int, dy: int)
    requires
        l.wf(),
        l.is_tiling(),
        l.frames.len() > 1,
        l.moves_inward_from_canvas_edge(dx, dy),
    ensures
        l.resize_active(dx, dy) == l,
{
    let w = l.canvas_width;
    let h = l.canvas_height;
    let a = l.active_frame();
    let ex = effective(l.frames, l.active, Axis::Horizontal, dx);
    let ey = effective(l.frames, l.active, Axis::Vertical, dy);
    let t = resized(l.frames, l.active, dx, dy);
    assert(proper(a, w, h));
    assert forall|i: int| 0 <= i < t.len() && i != l.active implies t[i] == l.frames[i] by {
        assert(proper(l.frames[i], w, h));
        assert(t[i] == resized_one(l.frames[i], a, false, ex, ey));
    }
    if ex < 0 {
        assert(t =~= l.frames.update(l.active, Frame { width: (a.width + dx) as i32, ..a }));
        lemma_narrowed_is_undone(l.frames, w, h, l.active, dx);
    } else {
        assert(t =~= l.frames.update(l.active, Frame { height: (a.height + dy) as i32, ..a }));
        lemma_shortened_is_undone(l.frames, w, h, l.active, dy);
    }
}

/// Resizing the active frame of a tiling loses the tiling where an edge
/// that lies on the canvas edge moves outwards: the frame then reaches
/// beyond the canvas.
pub proof fn law_outward_resize_at_canvas_edge_loses_tiling(l: Layout, dx: int, dy: int)
    requires
        l.wf(),
        l.is_tiling(),
        l.frames.len() > 1,
        l.resize_in_bounds(dx, dy),
        ({
            let a = l.active_frame();
            ||| a.right() == l.canvas_width && effective(l.frames, l.active, Axis::Horizontal, dx)
                > 0
            ||| a.bottom() == l.canvas_height && effective(
                l.frames,
                l.active,
                Axis::Vertical,
                dy,
            ) > 0
        }),
    ensures
        !l.resize_active(dx, dy).is_tiling(),
{
    let w = l.canvas_width;
    let h = l.canvas_height;
    let t = resized(l.frames, l.active, dx, dy);
    let r = l.resize_active(dx, dy).frames;
    assert(proper(l.active_frame(), w, h));
    lemma_resized(l.frames, l.active, dx, dy);
    lemma_repaired(t, w, h);
    assert(stretched_one(r[l.active], t[l.active], w, h));
    assert(!proper(r[l.active], w, h));
}

/// Where the frames tile the canvas once the edges have moved, the
/// gap-repair pass changes nothing about them.
pub proof fn law_resize_leaves_tiling_alone(l: Layout, dx: int, dy: int)
    requires
        l.wf(),
        l.frames.len() > 1,
        dx != 0 || dy != 0,
        tiles(resized(l.frames, l.active, dx, dy), l.canvas_width, l.canvas_height),
    ensures
        l.resize_active(dx, dy).frames == resized(l.frames, l.active, dx, dy),
        l.resize_active(dx, dy).is_tiling(),
{
    lemma_repair_keeps_tiling(
        resized(l.frames, l.active, dx, dy),
        l.canvas_width,
        l.canvas_height,
    );
}

/// Where the scaled frames tile the new canvas, the layout on the new
/// canvas holds just these frames.
pub proof fn law_resize_window_keeps_tiling(l: Layout, scaled: Seq<Frame>, w: int, h: int)
    requires
        0 < w <= i32::MAX,
        0 < h <= i32::MAX,
        tiles(scaled, w, h),
    ensures
        l.resize_window(scaled, w, h).frames == scaled,
        l.resize_window(scaled, w, h).is_tiling(),
{
    lemma_repair_keeps_tiling(scaled, w, h);
}

/// After any sequence of operations that starts from a tiling, the layout
/// is a tiling, provided that each operation is one that keeps a tiling.
pub proof fn law_tiling_after_any_operations(l: Layout, ops: Seq<Operation>)
    requires
        l.wf(),
        l.is_tiling(),
        forall|k: int| 0 <= k < ops.len() ==> #[trigger] l.after(ops.take(k)).admits(ops[k]),
        forall|k: int|
            0 <= k < ops.len() ==> #[trigger] l.after(ops.take(k)).keeps_tiling_under(ops[k]),
    ensures
        l.after(ops).wf(),
        l.after(ops).is_tiling(),
    decreases ops.len(),
{
    if ops.len() > 0 {
        let before = ops.drop_last();
        assert(ops.take(ops.len() - 1) =~= before);
        assert forall|k: int| 0 <= k < before.len() implies #[trigger] l.after(
            before.take(k),
        ).keeps_tiling_under(before[k]) by {
            assert(before.take(k) =~= ops.take(k));
            assert(l.after(ops.take(k)).keeps_tiling_under(ops[k]));
        }
        assert forall|k: int| 0 <= k < before.len() implies #[trigger] l.after(before.take(k)).admits(
            before[k],
        ) by {
            assert(before.take(k) =~= ops.take(k));
            assert(l.after(ops.take(k)).admits(ops[k]));
        }
        law_tiling_after_any_operations(l, before);
        law_well_formed_after_any_operations(l, ops);
        let m = l.after(before);
        assert(m.keeps_tiling_under(ops.last()) && m.admits(ops.last())) by {
            assert(l.after(ops.take(ops.len() - 1)).keeps_tiling_under(ops[ops.len() - 1]));
            assert(l.after(ops.take(ops.len() - 1)).admits(ops[ops.len() - 1]));
        }
        match ops.last() {
            Operation::SplitHorizontal => {
                law_split_horizontal_keeps_tiling(m);
            },
            Operation::SplitVertical => {
                law_split_vertical_keeps_tiling(m);
            },
            Operation::CloseActive => {
                law_close_keeps_tiling(m);
            },
            Operation::KeepActiveOnly => {
                law_delete_others_is_tiling(m);
            },
            Operation::ResizeActiveBy { dx, dy } => {
                if m.frames.len() > 1 {
                    if m.moves_shared_edge_only(dx, dy) {
                        law_resize_keeps_tiling(m, dx, dy);
                    } else {
                        law_inward_resize_at_canvas_edge_is_undone(m, dx, dy);
                    }
                }
            },
            Operation::SelectDirection { direction } => {
                law_select_keeps_frames(m, direction);
            },
            Operation::CanvasResized { scaled, width, height } => {
                law_resize_window_keeps_tiling(m, scaled, width, height);
            },
        }
    }
}

/// A resize leaves no frame smaller than it was, unless it leaves it with
/// at least the minimum size. So where every frame has the minimum size,
/// every frame has it after any number of resizes.
pub proof fn law_resize_keeps_minimum(l: Layout, dx: int, dy: int)
    requires
        l.wf(),
        l.resize_in_bounds(dx, dy),
    ensures
        l.resize_active(dx, dy).frames.len() == l.frames.len(),
        forall|i: int|
            0 <= i < l.frames.len() ==> {
                &&& (#[trigger] l.resize_active(dx, dy).frames[i]).width >= min_int(
                    l.frames[i].width as int,
                    MIN_SIZE as int,
                )
                &&& l.resize_active(dx, dy).frames[i].height >= min_int(
                    l.frames[i].height as int,
                    MIN_SIZE as int,
                )
            },
        l.keeps_minimum() ==> l.resize_active(dx, dy).keeps_minimum(),
{
    if l.frames.len() > 1 && !(dx == 0 && dy == 0) {
        let t = resized(l.frames, l.active, dx, dy);
        lemma_resized(l.frames, l.active, dx, dy);
        lemma_repaired(t, l.canvas_width, l.canvas_height);
        let r = l.resize_active(dx, dy).frames;
        assert forall|i: int| 0 <= i < l.frames.len() implies (#[trigger] r[i]).width >= min_int(
            l.frames[i].width as int,
            MIN_SIZE as int,
        ) && r[i].height >= min_int(l.frames[i].height as int, MIN_SIZE as int) by {
            assert(t[i].width >= min_int(l.frames[i].width as int, MIN_SIZE as int));
            assert(t[i].fits());
            assert(stretched_one(r[i], t[i], l.canvas_width, l.canvas_height));
        }
    }
    if l.keeps_minimum() {
        let r = l.resize_active(dx, dy).frames;
        assert forall|i: int| 0 <= i < r.len() implies (#[trigger] r[i]).width >= MIN_SIZE
            && r[i].height >= MIN_SIZE by {
            assert(l.frames[i].width >= MIN_SIZE);
        }
    }
}

/// The frames handed to a window resize come out of it no smaller.
pub proof fn law_resize_window_keeps_minimum(l: Layout, scaled: Seq<Frame>, w: int, h: int)
    requires
        repairable(scaled, w, h),
        forall|i: int|
            0 <= i < scaled.len() ==> (#[trigger] scaled[i]).width >= MIN_SIZE && scaled[i].height
                >= MIN_SIZE,
    ensures
        l.resize_window(scaled, w, h).keeps_minimum(),
{
    lemma_repaired(scaled, w, h);
    let r = l.resize_window(scaled, w, h).frames;
    assert forall|i: int| 0 <= i < r.len() implies (#[trigger] r[i]).width >= MIN_SIZE
        && r[i].height >= MIN_SIZE by {
        assert(scaled[i].width >= MIN_SIZE);
        assert(scaled[i].fits());
        assert(stretched_one(r[i], scaled[i], w, h));
    }
}

/// Where no scaled frame is smaller than the frame it stands for, no frame
/// comes out of a window resize smaller than it was.
pub proof fn law_resize_window_keeps_sizes(l: Layout, scaled: Seq<Frame>, w: int, h: int)
    requires
        repairable(scaled, w, h),
        scaled.len() == l.frames.len(),
        forall|i: int|
            0 <= i < scaled.len() ==> (#[trigger] scaled[i]).width >= l.frames[i].width
                && scaled[i].height >= l.frames[i].height,
    ensures
        l.resize_window(scaled, w, h).frames.len() == l.frames.len(),
        forall|i: int|
            0 <= i < l.frames.len() ==> (#[trigger] l.resize_window(scaled, w, h).frames[i]).width
                >= l.frames[i].width && l.resize_window(scaled, w, h).frames[i].height
                >= l.frames[i].height,
        l.keeps_minimum() ==> l.resize_window(scaled, w, h).keeps_minimum(),
{
    lemma_repaired(scaled, w, h);
    let r = l.resize_window(scaled, w, h).frames;
    assert forall|i: int| 0 <= i < l.frames.len() implies (#[trigger] r[i]).width
        >= l.frames[i].width && r[i].height >= l.frames[i].height by {
        assert(scaled[i].width >= l.frames[i].width);
        assert(scaled[i].fits());
        assert(stretched_one(r[i], scaled[i], w, h));
    }
    if l.keeps_minimum() {
        assert forall|i: int| 0 <= i < r.len() implies (#[trigger] r[i]).width >= MIN_SIZE
            && r[i].height >= MIN_SIZE by {
            assert(l.frames[i].width >= MIN_SIZE);
        }
    }
}

/// After any sequence of resizes of the active frame, every frame has the
/// minimum size if every frame had it before.
pub proof fn law_minimum_kept_after_any_resizes(l: Layout, ops: Seq<Operation>)
    requires
        l.wf(),
        l.keeps_minimum(),
        forall|k: int| 0 <= k < ops.len() ==> #[trigger] ops[k] is ResizeActiveBy,
        forall|k: int| 0 <= k < ops.len() ==> #[trigger] l.after(ops.take(k)).admits(ops[k]),
    ensures
        l.after(ops).wf(),
        l.after(ops).keeps_minimum(),
    decreases ops.len(),
{
    if ops.len() > 0 {
        let before = ops.drop_last();
        assert(ops.take(ops.len() - 1) =~= before);
        assert forall|k: int| 0 <= k < before.len() implies #[trigger] l.after(before.take(k)).admits(
            before[k],
        ) by {
            assert(before.take(k) =~= ops.take(k));
            assert(l.after(ops.take(k)).admits(ops[k]));
        }
        assert forall|k: int| 0 <= k < before.len() implies #[trigger] before[k] is ResizeActiveBy by {
            assert(ops[k] is ResizeActiveBy);
        }
        law_minimum_kept_after_any_resizes(l, before);
        law_well_formed_after_any_operations(l, ops);
        let m = l.after(before);
        assert(ops[ops.len() - 1] is ResizeActiveBy);
        assert(m.admits(ops.last())) by {
            assert(l.after(ops.take(ops.len() - 1)).admits(ops[ops.len() - 1]));
        }
        match ops.last() {
            Operation::ResizeActiveBy { dx, dy } => {
                law_resize_keeps_minimum(m, dx, dy);
            },
            _ => {},
        }
    }
}

/// On a canvas with one frame, a split followed by closing the active
/// frame, or by closing the frame that the split has made, gives the one
/// frame back as it was.
pub proof fn law_split_then_close_restores(w: int, h: int, theme: ColorTheme)
    requires
        0 < w <= i32::MAX,
        0 < h <= i32::MAX,
    ensures
        Layout::initial(w, h, theme).split_horizontal().close_active() == Layout::initial(
            w,
            h,
            theme,
        ),
        Layout::initial(w, h, theme).split_vertical().close_active() == Layout::initial(
            w,
            h,
            theme,
        ),
        Layout::initial(w, h, theme).split_horizontal().select(Direction::Down).close_active()
            == Layout::initial(w, h, theme),
        Layout::initial(w, h, theme).split_vertical().select(Direction::Right).close_active()
            == Layout::initial(w, h, theme),
{
    let start = Layout::initial(w, h, theme);
    let f = full_frame(w, h);
    lemma_close_one_of_two(start.split_horizontal(), f);
    lemma_close_one_of_two(start.split_vertical(), f);
    let below = start.split_horizontal().select(Direction::Down);
    let beside = start.split_vertical().select(Direction::Right);
    assert(below.active == 1) by {
        reveal_with_fuel(best_upto, 3);
    }
    assert(beside.active == 1) by {
        reveal_with_fuel(best_upto, 3);
    }
    lemma_close_one_of_two(below, f);
    lemma_close_one_of_two(beside, f);
}

/// A layout of the two halves of the frame that covers the canvas, with
/// either of them closed, is the layout of that one frame.
proof fn lemma_close_one_of_two(l: Layout, f: Frame)
    requires
        0 < l.canvas_width <= i32::MAX,
        0 < l.canvas_height <= i32::MAX,
        f == full_frame(l.canvas_width, l.canvas_height),
        l.frames =~= seq![upper_half(f), lower_half(f)] || l.frames =~= seq![
            left_half(f),
            right_half(f),
        ],
        l.active == 0 || l.active == 1,
    ensures
        l.close_active() == Layout::initial(l.canvas_width, l.canvas_height, l.theme),
{
    let w = l.canvas_width;
    let h = l.canvas_height;
    let c = l.active_frame();
    let rest = l.frames.remove(l.active);
    let kept = l.frames[1 - l.active];
    assert(rest =~= seq![kept]);
    assert(rest.drop_last() =~= Seq::<Frame>::empty());
    reveal_with_fuel(count_adjacent, 2);
    reveal_with_fuel(first_adjacent_from, 2);
    let across = if l.frames[0] == upper_half(f) && l.frames[1] == lower_half(f) {
        Axis::Vertical
    } else {
        Axis::Horizontal
    };
    let flowed = reflowed(rest, c);
    if across == Axis::Vertical {
        assert(!adjacent(kept, c, Axis::Horizontal));
        assert(adjacent(kept, c, Axis::Vertical));
        assert(flowed =~= seq![f]);
    } else {
        assert(adjacent(kept, c, Axis::Horizontal));
        assert(flowed =~= seq![f]);
    }
    assert(flowed.drop_last() =~= Seq::<Frame>::empty());
    reveal_with_fuel(max_right, 2);
    reveal_with_fuel(max_bottom, 2);
    let stretched = stretch_outermost(flowed, w, h);
    assert(stretched =~= seq![f]);
    reveal_with_fuel(first_open_right_from, 2);
    reveal_with_fuel(first_open_below_from, 2);
    assert(!unsettled(stretched, w, h));
    assert(stretched[0].fits());
    assert(settle(stretched, w, h) == stretched);
    assert(l.close_active().frames =~= seq![f]);
}

/// Keeping only one frame twice in a row is the same as doing so once.
pub proof fn law_delete_others_is_idempotent(l: Layout)
    ensures
        l.delete_others().delete_others() == l.delete_others(),
{
}

/// Which frame a selection picks depends on the frames, the active frame
/// and the direction alone.
pub proof fn law_selection_is_determined(l1: Layout, l2: Layout, direction: Direction)
    requires
        l1.frames == l2.frames,
        l1.active == l2.active,
    ensures
        l1.select(direction).active == l2.select(direction).active,
{
}

/// A selection picks a candidate of the lowest score, and of several the
/// first in sequence order; without a candidate the active frame stays.
pub proof fn law_selection_is_best(l: Layout, direction: Direction)
    requires
        l.wf(),
    ensures
        ({
            let chosen = l.select(direction).active;
            let a = l.active_frame();
            if exists|k: int|
                0 <= k < l.frames.len() && #[trigger] is_candidate(l.frames, l.active, direction, k) {
                &&& 0 <= chosen < l.frames.len()
                &&& is_candidate(l.frames, l.active, direction, chosen)
                &&& forall|k: int|
                    0 <= k < l.frames.len() && #[trigger] is_candidate(
                        l.frames,
                        l.active,
                        direction,
                        k,
                    ) ==> {
                        ||| doubled_score(l.frames[chosen], a, direction) < doubled_score(
                            l.frames[k],
                            a,
                            direction,
                        )
                        ||| doubled_score(l.frames[chosen], a, direction) == doubled_score(
                            l.frames[k],
                            a,
                            direction,
                        ) && chosen <= k
                    }
            } else {
                chosen == l.active
            }
        }),
{
    lemma_best_upto(l.frames, l.active, direction, l.frames.len() as int);
}

} // verus!
