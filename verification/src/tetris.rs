//! The board engine: the falling control shape, the landed shapes,
//! gravity ticks, lateral movement, rotation, line clearing and loss.

use vstd::prelude::*;
use vstd::pervasive::VecAdditionalExecFns;

use crate::shape::Kind;
use crate::shape::Pos;
use crate::shape::Shape;
use crate::shape::ShapeView;
use crate::shape::cell_views;
use crate::shape::random_kind;
use crate::shape::rot_cell;
use crate::shape::spec_symbol;
use crate::shape::spec_template;
use crate::shape::lemma_clear_distinct;
use crate::shape::lemma_clear_in_bounds;
use crate::shape::lemma_clear_keeps_disjoint;
use crate::shape::lemma_clear_len;
use crate::shape::lemma_clear_membership;
use crate::shape::lemma_rotated_props;
use crate::shape::lemma_template_props;
use crate::shape::lemma_translated_props;

verus! {

broadcast use vstd::seq_lib::group_seq_properties;

/// Widest board edge the engine accepts; keeps every coordinate the
/// geometry can produce within `i32`.
pub const MAX_DIM: i32 = 0x7fff_ff00;

/// A lateral move request for the control shape.
#[derive(Debug, PartialEq, Eq, Structural, Clone, Copy)]
pub enum Direction {
    Left,
    Right,
}

/// The cell offset of a lateral move.
pub open spec fn dir_offset(d: Direction) -> (int, int) {
    match d {
        Direction::Left => (-1, 0),
        Direction::Right => (1, 0),
    }
}

/// Some fixed shape occupies the cell.
pub open spec fn occupied(fixed: Seq<ShapeView>, c: (int, int)) -> bool {
    exists|j: int| 0 <= j < fixed.len() && (#[trigger] fixed[j]).contains(c)
}

/// Every column of row `y` is occupied by some fixed shape.
pub open spec fn row_covered(fixed: Seq<ShapeView>, y: int, w: int) -> bool {
    forall|x: int| 0 <= x < w ==> occupied(fixed, (x, y))
}

/// The shape shares a cell with some fixed shape.
pub open spec fn hits_fixed(s: ShapeView, fixed: Seq<ShapeView>) -> bool {
    exists|j: int| 0 <= j < fixed.len() && s.overlaps(#[trigger] fixed[j])
}

/// Row `y` cleared out of every fixed shape.
pub open spec fn clear_row_all(fixed: Seq<ShapeView>, y: int) -> Seq<ShapeView> {
    fixed.map_values(|s: ShapeView| s.cleared(y))
}

/// The full-line sweep from row `y` up to (excluding) row `h`, in
/// ascending order: each row found covered is cleared out of every fixed
/// shape before the next row is inspected.
pub open spec fn clear_full_rows_from(fixed: Seq<ShapeView>, y: int, h: int, w: int) -> Seq<
    ShapeView,
>
    decreases h - y,
{
    if y >= h {
        fixed
    } else {
        let stepped = if row_covered(fixed, y, w) {
            clear_row_all(fixed, y)
        } else {
            fixed
        };
        clear_full_rows_from(stepped, y + 1, h, w)
    }
}

/// A fresh piece of kind `k`, horizontally centered at the top of a board
/// of width `w`.
pub open spec fn spec_spawn(k: Kind, w: int) -> ShapeView {
    spec_template(k).translated((w / 2 - 1, 0))
}

/// The mathematical value of the whole match state.
#[verifier::ext_equal]
pub struct TetrisView {
    pub width: int,
    pub height: int,
    pub control: ShapeView,
    pub fixed: Seq<ShapeView>,
    pub lost: bool,
}

impl TetrisView {
    /// Boards at least 4 by 4 can spawn every piece fully inside.
    pub open spec fn sized_ok(self) -> bool {
        4 <= self.width && 4 <= self.height
    }

    /// The control shape's cells never stray more than two columns left
    /// of the board, one column right of it, or two rows below it: a
    /// fresh spawn starts in this box and every accepted move stays on
    /// the board.
    pub open spec fn control_boxed(self) -> bool {
        forall|i: int| 0 <= i < self.control.cells.len() ==> {
            &&& -2 <= (#[trigger] self.control.cells[i]).0 <= self.width + 1
            &&& 0 <= self.control.cells[i].1 <= self.height + 2
        }
    }

    /// Every landed shape has distinct cells, at most four of them, and
    /// no two landed shapes share a cell.
    pub open spec fn fixed_ok(self) -> bool {
        &&& forall|j: int| 0 <= j < self.fixed.len() ==> (#[trigger] self.fixed[j]).wf()
            && self.fixed[j].cells.len() <= 4
        &&& forall|j1: int, j2: int|
            #![trigger self.fixed[j1], self.fixed[j2]]
            0 <= j1 < j2 < self.fixed.len() ==> !self.fixed[j1].overlaps(self.fixed[j2])
    }

    /// The engine invariant: established by construction and preserved by
    /// every operation.
    pub open spec fn wf(self) -> bool {
        &&& 1 <= self.width <= MAX_DIM as int
        &&& 1 <= self.height <= MAX_DIM as int
        &&& self.control.wf()
        &&& self.control.cells.len() == 4
        &&& self.control.near_anchor()
        &&& self.control_boxed()
        &&& self.fixed_ok()
        &&& (!self.lost ==> forall|j: int| 0 <= j < self.fixed.len()
            ==> !self.control.overlaps(#[trigger] self.fixed[j]))
        &&& (self.sized_ok() ==> self.control.in_bounds(self.width, self.height) && forall|
            j: int,
        | 0 <= j < self.fixed.len() ==> (#[trigger] self.fixed[j]).in_bounds(
            self.width,
            self.height,
        ))
    }
}

/// One gravity step: a no-op once lost; otherwise the control shape moves
/// down one row, or — if that is blocked by the floor or a fixed shape —
/// it locks in place, full rows are cleared, and a fresh piece of kind
/// `k` spawns, losing the game if the spawn already collides.
pub open spec fn spec_tick(t: TetrisView, k: Kind) -> TetrisView {
    if t.lost {
        t
    } else {
        let moved = t.control.translated((0, 1));
        if moved.in_bounds(t.width, t.height) && !hits_fixed(moved, t.fixed) {
            TetrisView { control: moved, ..t }
        } else {
            spec_lock(t, k)
        }
    }
}

/// The lock step of a tick: the control shape joins the fixed shapes, the
/// full-line sweep runs over every row, and a fresh piece of kind `k`
/// spawns.
pub open spec fn spec_lock(t: TetrisView, k: Kind) -> TetrisView {
    let fixed1 = t.fixed.push(t.control);
    let fixed2 = clear_full_rows_from(fixed1, 0, t.height, t.width);
    let spawn = spec_spawn(k, t.width);
    TetrisView { control: spawn, fixed: fixed2, lost: hits_fixed(spawn, fixed2), ..t }
}

/// One lateral move: accepted exactly when the moved shape stays on the
/// board and clear of every fixed shape; otherwise the state is
/// unchanged. Not gated on `lost`.
pub open spec fn spec_shift(t: TetrisView, d: Direction) -> TetrisView {
    let moved = t.control.translated(dir_offset(d));
    if moved.in_bounds(t.width, t.height) && !hits_fixed(moved, t.fixed) {
        TetrisView { control: moved, ..t }
    } else {
        t
    }
}

/// One rotation attempt: accepted exactly when the rotated shape stays on
/// the board and clear of every fixed shape; otherwise the state is
/// unchanged. Not gated on `lost`.
pub open spec fn spec_rotate(t: TetrisView) -> TetrisView {
    let moved = t.control.rotated();
    if moved.in_bounds(t.width, t.height) && !hits_fixed(moved, t.fixed) {
        TetrisView { control: moved, ..t }
    } else {
        t
    }
}

/// The kind of whatever occupies a cell: the control shape is consulted
/// first, then the fixed shapes in their list order.
pub open spec fn first_fixed_kind(fixed: Seq<ShapeView>, c: (int, int)) -> Option<Kind>
    decreases fixed.len(),
{
    if fixed.len() == 0 {
        None
    } else if fixed[0].contains(c) {
        Some(fixed[0].kind)
    } else {
        first_fixed_kind(fixed.drop_first(), c)
    }
}

/// The occupant of a cell, control shape first.
pub open spec fn spec_occupant(t: TetrisView, c: (int, int)) -> Option<Kind> {
    if t.control.contains(c) {
        Some(t.control.kind)
    } else {
        first_fixed_kind(t.fixed, c)
    }
}

/// A spawned piece has four distinct cells near its anchor, within two
/// columns of the board's horizontal center and in the top four rows;
/// on a board at least 4 wide it lies fully inside the columns.
proof fn lemma_spawn_props(k: Kind, w: int)
    requires
        1 <= w,
    ensures
        spec_spawn(k, w).wf(),
        spec_spawn(k, w).cells.len() == 4,
        spec_spawn(k, w).near_anchor(),
        spec_spawn(k, w).kind == k,
        forall|i: int| 0 <= i < spec_spawn(k, w).cells.len() ==> {
            &&& -2 <= (#[trigger] spec_spawn(k, w).cells[i]).0 <= w + 1
            &&& 0 <= spec_spawn(k, w).cells[i].1 <= 3
        },
        4 <= w ==> forall|i: int| 0 <= i < spec_spawn(k, w).cells.len()
            ==> 0 <= (#[trigger] spec_spawn(k, w).cells[i]).0 < w,
{
    lemma_template_props(k);
    let t = spec_template(k);
    let d = (w / 2 - 1, 0int);
    lemma_translated_props(t, d);
    vstd::arithmetic::div_mod::lemma_fundamental_div_mod(w, 2);
    vstd::arithmetic::div_mod::lemma_mod_bound(w, 2);
    let s = spec_spawn(k, w);
    assert forall|i: int| 0 <= i < s.cells.len() implies {
        &&& -2 <= (#[trigger] s.cells[i]).0 <= w + 1
        &&& 0 <= s.cells[i].1 <= 3
    } by {
        assert(s.cells[i] == (t.cells[i].0 + d.0, t.cells[i].1 + d.1));
        assert(-1 <= t.cells[i].0 <= 2);
    }
    if 4 <= w {
        assert forall|i: int| 0 <= i < s.cells.len() implies 0 <= (#[trigger] s.cells[i]).0
            < w by {
            assert(s.cells[i] == (t.cells[i].0 + d.0, t.cells[i].1 + d.1));
            assert(-1 <= t.cells[i].0 <= 2);
        }
    }
}

/// Overlapping is symmetric.
proof fn lemma_overlaps_symmetric(a: ShapeView, b: ShapeView)
    ensures
        a.overlaps(b) == b.overlaps(a),
{
    if a.overlaps(b) {
        let c = choose|c: (int, int)| a.cells.contains(c) && b.cells.contains(c);
        assert(b.cells.contains(c) && a.cells.contains(c));
    }
    if b.overlaps(a) {
        let c = choose|c: (int, int)| b.cells.contains(c) && a.cells.contains(c);
        assert(a.cells.contains(c) && b.cells.contains(c));
    }
}

/// Under the engine invariant the control shape's anchor stays within a
/// few cells of the board.
proof fn lemma_control_coords(t: TetrisView)
    requires
        t.wf(),
    ensures
        -5 <= t.control.anchor.0 <= t.width + 4,
        -3 <= t.control.anchor.1 <= t.height + 5,
{
    let c = t.control.cells[0];
    assert(-3 <= c.0 - t.control.anchor.0 <= 3);
    assert(-2 <= c.0 <= t.width + 1);
    assert(-3 <= c.1 - t.control.anchor.1 <= 3);
    assert(0 <= c.1 <= t.height + 2);
}

/// Under the engine invariant, any one-cell move of the control shape
/// stays within `i32`.
proof fn lemma_move_fits(t: TetrisView, d: (int, int))
    requires
        t.wf(),
        -1 <= d.0 <= 1,
        0 <= d.1 <= 1,
    ensures
        forall|i: int| 0 <= i < t.control.cells.len() ==> {
            &&& i32::MIN <= (#[trigger] t.control.cells[i]).0 + d.0 <= i32::MAX
            &&& i32::MIN <= t.control.cells[i].1 + d.1 <= i32::MAX
        },
        i32::MIN <= t.control.anchor.0 + d.0 <= i32::MAX,
        i32::MIN <= t.control.anchor.1 + d.1 <= i32::MAX,
{
    lemma_control_coords(t);
}

/// Under the engine invariant, rotating the control shape stays within
/// `i32`.
proof fn lemma_rotate_fits(t: TetrisView)
    requires
        t.wf(),
    ensures
        forall|i: int| 0 <= i < t.control.cells.len() ==> {
            &&& i32::MIN <= (#[trigger] rot_cell(t.control.cells[i], t.control.anchor)).0
                <= i32::MAX
            &&& i32::MIN <= rot_cell(t.control.cells[i], t.control.anchor).1 <= i32::MAX
        },
{
    lemma_control_coords(t);
    let a = t.control.anchor;
    assert forall|i: int| 0 <= i < t.control.cells.len() implies {
        &&& i32::MIN <= (#[trigger] rot_cell(t.control.cells[i], a)).0 <= i32::MAX
        &&& i32::MIN <= rot_cell(t.control.cells[i], a).1 <= i32::MAX
    } by {
        let c = t.control.cells[i];
        assert(-3 <= c.0 - a.0 <= 3);
        assert(-3 <= c.1 - a.1 <= 3);
        assert(rot_cell(c, a).0 == a.0 - (c.1 - a.1));
        assert(rot_cell(c, a).1 == (c.0 - a.0) + a.1);
    }
}

/// The full-line sweep keeps the number of landed shapes, their
/// distinctness, their cell-count bound and their pairwise disjointness;
/// if all were inside the board it keeps that too.
proof fn lemma_sweep_preserves(fixed: Seq<ShapeView>, y: int, h: int, w: int)
    requires
        0 <= y,
        forall|j: int| 0 <= j < fixed.len() ==> (#[trigger] fixed[j]).wf()
            && fixed[j].cells.len() <= 4,
        forall|j1: int, j2: int|
            #![trigger fixed[j1], fixed[j2]]
            0 <= j1 < j2 < fixed.len() ==> !fixed[j1].overlaps(fixed[j2]),
    ensures
        clear_full_rows_from(fixed, y, h, w).len() == fixed.len(),
        forall|j: int| 0 <= j < fixed.len() ==> (#[trigger] clear_full_rows_from(
            fixed,
            y,
            h,
            w,
        )[j]).wf() && clear_full_rows_from(fixed, y, h, w)[j].cells.len() <= 4,
        forall|j1: int, j2: int|
            #![trigger clear_full_rows_from(fixed, y, h, w)[j1], clear_full_rows_from(fixed, y, h, w)[j2]]
            0 <= j1 < j2 < fixed.len() ==> !clear_full_rows_from(fixed, y, h, w)[j1].overlaps(
                clear_full_rows_from(fixed, y, h, w)[j2],
            ),
        (forall|j: int| 0 <= j < fixed.len() ==> (#[trigger] fixed[j]).in_bounds(w, h)) ==> (
        forall|j: int| 0 <= j < fixed.len() ==> (#[trigger] clear_full_rows_from(
            fixed,
            y,
            h,
            w,
        )[j]).in_bounds(w, h)),
    decreases h - y,
{
    if y >= h {
    } else {
        let stepped = if row_covered(fixed, y, w) {
            clear_row_all(fixed, y)
        } else {
            fixed
        };
        if row_covered(fixed, y, w) {
            assert(stepped.len() == fixed.len());
            assert forall|j: int| 0 <= j < stepped.len() implies (#[trigger] stepped[j]).wf()
                && stepped[j].cells.len() <= 4 by {
                assert(stepped[j] == fixed[j].cleared(y));
                lemma_clear_distinct(fixed[j].cells, y);
                lemma_clear_len(fixed[j].cells, y);
            }
            assert forall|j1: int, j2: int|
                #![trigger stepped[j1], stepped[j2]]
                0 <= j1 < j2 < stepped.len() implies !stepped[j1].overlaps(stepped[j2]) by {
                assert(stepped[j1] == fixed[j1].cleared(y));
                assert(stepped[j2] == fixed[j2].cleared(y));
                lemma_clear_keeps_disjoint(fixed[j1].cells, fixed[j2].cells, y);
            }
            if forall|j: int| 0 <= j < fixed.len() ==> (#[trigger] fixed[j]).in_bounds(w, h) {
                assert forall|j: int| 0 <= j < stepped.len() implies (
                #[trigger] stepped[j]).in_bounds(w, h) by {
                    assert(stepped[j] == fixed[j].cleared(y));
                    assert(fixed[j].in_bounds(w, h));
                    lemma_clear_in_bounds(fixed[j].cells, y, w, h);
                }
            }
        }
        lemma_sweep_preserves(stepped, y + 1, h, w);
        assert(clear_full_rows_from(fixed, y, h, w) == clear_full_rows_from(stepped, y + 1, h, w));
    }
}

/// The falling control shape always has exactly four cells; row removal
/// is the only operation that shrinks a shape, so a landed shape keeps
/// four cells until a line through it is cleared, and never gains any.
pub proof fn lemma_cell_count(t: TetrisView)
    requires
        t.wf(),
    ensures
        t.control.cells.len() == 4,
        forall|j: int| 0 <= j < t.fixed.len() ==> (#[trigger] t.fixed[j]).cells.len() <= 4,
{
}

/// While the game is not lost, the control shape shares no cell with any
/// landed shape.
pub proof fn lemma_no_overlap(t: TetrisView)
    requires
        t.wf(),
        !t.lost,
    ensures
        forall|j: int| 0 <= j < t.fixed.len() ==> !t.control.overlaps(#[trigger] t.fixed[j]),
{
}

/// On a board at least 4 by 4, every cell of the control shape lies
/// strictly inside the board, lost or not. (On a narrower or shorter
/// board a fresh spawn can lie partly outside, so this is stated only
/// for boards that can hold every spawn.)
pub proof fn lemma_control_in_bounds(t: TetrisView)
    requires
        t.wf(),
        t.sized_ok(),
    ensures
        t.control.in_bounds(t.width, t.height),
{
}

/// Loss is permanent: a tick on a lost board changes nothing, and
/// neither a shift nor a rotation ever changes the loss flag.
pub proof fn lemma_loss_permanent(t: TetrisView, k: Kind, d: Direction)
    ensures
        t.lost ==> spec_tick(t, k) == t,
        spec_shift(t, d).lost == t.lost,
        spec_rotate(t).lost == t.lost,
        t.lost ==> spec_tick(t, k).lost,
{
}

/// A sweep over rows none of which is covered clears nothing.
proof fn lemma_sweep_skips_uncovered(fixed: Seq<ShapeView>, y0: int, y1: int, h: int, w: int)
    requires
        y0 <= y1 <= h,
        forall|r: int| y0 <= r < y1 ==> !row_covered(fixed, r, w),
    ensures
        clear_full_rows_from(fixed, y0, h, w) == clear_full_rows_from(fixed, y1, h, w),
    decreases y1 - y0,
{
    if y0 < y1 {
        assert(!row_covered(fixed, y0, w));
        lemma_sweep_skips_uncovered(fixed, y0 + 1, y1, h, w);
    }
}

/// If row `y` is the only covered row, the whole sweep amounts to
/// clearing exactly that row out of every shape: afterwards a cell below
/// the row is occupied exactly as before, and a cell at or above it is
/// occupied exactly when the cell one row higher up was — so the cells
/// that filled row `y` are gone, everything above it has dropped one
/// row, and everything below it is untouched.
pub proof fn lemma_line_clear(fixed: Seq<ShapeView>, y: int, h: int, w: int)
    requires
        0 <= y < h,
        row_covered(fixed, y, w),
        forall|r: int| 0 <= r < h && r != y ==> !row_covered(fixed, r, w),
    ensures
        clear_full_rows_from(fixed, 0, h, w) == clear_row_all(fixed, y),
        forall|c: (int, int)| #[trigger] occupied(clear_full_rows_from(fixed, 0, h, w), c) <==> (
            if c.1 > y {
                occupied(fixed, c)
            } else {
                occupied(fixed, (c.0, c.1 - 1))
            }
        ),
{
    let f2 = clear_row_all(fixed, y);
    lemma_sweep_skips_uncovered(fixed, 0, y, h, w);
    assert(clear_full_rows_from(fixed, y, h, w) == clear_full_rows_from(f2, y + 1, h, w));
    assert forall|c: (int, int)| #[trigger] occupied(f2, c) <==> (
        if c.1 > y {
            occupied(fixed, c)
        } else {
            occupied(fixed, (c.0, c.1 - 1))
        }
    ) by {
        if occupied(f2, c) {
            let j = choose|j: int| 0 <= j < f2.len() && (#[trigger] f2[j]).contains(c);
            assert(f2[j] == fixed[j].cleared(y));
            lemma_clear_membership(fixed[j].cells, y);
            if c.1 > y {
                assert(fixed[j].contains(c));
            } else {
                assert(fixed[j].contains((c.0, c.1 - 1)));
            }
        }
        if c.1 > y && occupied(fixed, c) {
            let j = choose|j: int| 0 <= j < fixed.len() && (#[trigger] fixed[j]).contains(c);
            lemma_clear_membership(fixed[j].cells, y);
            assert(f2[j] == fixed[j].cleared(y));
            assert(f2[j].contains(c));
        }
        if c.1 <= y && occupied(fixed, (c.0, c.1 - 1)) {
            let j = choose|j: int| 0 <= j < fixed.len() && (#[trigger] fixed[j]).contains(
                (c.0, c.1 - 1),
            );
            lemma_clear_membership(fixed[j].cells, y);
            assert(f2[j] == fixed[j].cleared(y));
            assert(f2[j].contains(c));
        }
    }
    assert forall|r: int| y < r < h implies !row_covered(f2, r, w) by {
        assert(!row_covered(fixed, r, w));
        let x = choose|x: int| 0 <= x < w && !occupied(fixed, (x, r));
        assert(!occupied(f2, (x, r)));
    }
    lemma_sweep_skips_uncovered(f2, y + 1, h, h, w);
}

/// A tick that locks the control shape while row `y` is the only covered
/// row (counting the just-locked piece) removes exactly that row.
pub proof fn lemma_tick_clears_full_row(t: TetrisView, k: Kind, y: int)
    requires
        t.wf(),
        !t.lost,
        !t.control.translated((0, 1)).in_bounds(t.width, t.height) || hits_fixed(
            t.control.translated((0, 1)),
            t.fixed,
        ),
        0 <= y < t.height,
        row_covered(t.fixed.push(t.control), y, t.width),
        forall|r: int| 0 <= r < t.height && r != y ==> !row_covered(
            t.fixed.push(t.control),
            r,
            t.width,
        ),
    ensures
        spec_tick(t, k).fixed == clear_row_all(t.fixed.push(t.control), y),
        forall|c: (int, int)| #[trigger] occupied(spec_tick(t, k).fixed, c) <==> (
            if c.1 > y {
                occupied(t.fixed.push(t.control), c)
            } else {
                occupied(t.fixed.push(t.control), (c.0, c.1 - 1))
            }
        ),
{
    lemma_line_clear(t.fixed.push(t.control), y, t.height, t.width);
}

/// The whole match: board dimensions, the falling control shape, the
/// landed shapes in landing order, and the terminal loss flag.
#[derive(Debug)]
pub struct Tetris {
    width: i32,
    height: i32,
    control_shape: Shape,
    fixed_shape: Vec<Shape>,
    lost: bool,
}

impl View for Tetris {
    type V = TetrisView;

    closed spec fn view(&self) -> TetrisView {
        TetrisView {
            width: self.width as int,
            height: self.height as int,
            control: self.control_shape@,
            fixed: self.fixed_shape@.map_values(|s: Shape| s@),
            lost: self.lost,
        }
    }
}

impl Tetris {
    /// The engine invariant, at the exec level.
    pub open spec fn wf(self) -> bool {
        self@.wf()
    }

    /// A fresh piece of kind `k`, horizontally centered on a board of the
    /// given width.
    fn spawn_shape(width: i32, k: Kind) -> (r: Shape)
        requires
            1 <= width <= MAX_DIM,
        ensures
            r@ == spec_spawn(k, width as int),
    {
        let t = Shape::new_kind(k);
        let half = (width as u32) / 2;
        let dx = (half as i32) - 1;
        proof {
            lemma_template_props(k);
            vstd::arithmetic::div_mod::lemma_fundamental_div_mod(width as int, 2);
            vstd::arithmetic::div_mod::lemma_mod_bound(width as int, 2);
            assert(half as int == width as int / 2);
            assert(dx as int == width as int / 2 - 1);
        }
        t.add(Pos(dx, 0))
    }

    /// A board of the given dimensions with a fresh piece of kind `k`
    /// centered at the top, no landed shapes, and the game not lost.
    pub fn new_with_kind(width: i32, height: i32, k: Kind) -> (r: Tetris)
        requires
            1 <= width <= MAX_DIM,
            1 <= height <= MAX_DIM,
        ensures
            r.wf(),
            r@ == (TetrisView {
                width: width as int,
                height: height as int,
                control: spec_spawn(k, width as int),
                fixed: Seq::<ShapeView>::empty(),
                lost: false,
            }),
    {
        let control = Self::spawn_shape(width, k);
        let r = Tetris {
            width,
            height,
            control_shape: control,
            fixed_shape: Vec::new(),
            lost: false,
        };
        proof {
            lemma_spawn_props(k, width as int);
            assert(r@.fixed =~= Seq::<ShapeView>::empty());
            assert(r@ =~= (TetrisView {
                width: width as int,
                height: height as int,
                control: spec_spawn(k, width as int),
                fixed: Seq::<ShapeView>::empty(),
                lost: false,
            }));
        }
        r
    }

    /// A board of the given dimensions with a fresh piece of a random
    /// kind centered at the top.
    pub fn new(width: i32, height: i32) -> (r: Tetris)
        requires
            1 <= width <= MAX_DIM,
            1 <= height <= MAX_DIM,
        ensures
            r.wf(),
            r@.width == width as int,
            r@.height == height as int,
            r@.fixed == Seq::<ShapeView>::empty(),
            !r@.lost,
            exists|k: Kind| r@.control == spec_spawn(k, width as int),
    {
        let k = random_kind();
        let r = Self::new_with_kind(width, height, k);
        proof {
            assert(r@.control == spec_spawn(k, width as int));
        }
        r
    }

    /// Whether the game has been lost.
    pub fn is_lost(&self) -> (r: bool)
        ensures
            r == self@.lost,
    {
        self.lost
    }

    /// The cells of the falling control shape.
    pub fn control_position(&self) -> (r: Vec<Pos>)
        ensures
            cell_views(r@) == self@.control.cells,
    {
        self.control_shape.position()
    }

    /// True iff some cell of `shape` lies outside the board.
    fn is_out_bound(&self, shape: &Shape) -> (r: bool)
        ensures
            r == !shape@.in_bounds(self@.width, self@.height),
    {
        let cells = shape.position();
        let mut i: usize = 0;
        while i < cells.len()
            invariant
                i <= cells@.len(),
                cell_views(cells@) == shape@.cells,
                self.width as int == self@.width,
                self.height as int == self@.height,
                forall|j: int| 0 <= j < i ==> {
                    &&& 0 <= (#[trigger] shape@.cells[j]).0 < self@.width
                    &&& 0 <= shape@.cells[j].1 < self@.height
                },
            decreases cells@.len() - i,
        {
            let p = cells[i];
            proof {
                assert(cell_views(cells@)[i as int] == p@);
            }
            if p.0 < 0 || p.0 >= self.width || p.1 < 0 || p.1 >= self.height {
                return true;
            }
            i += 1;
        }
        false
    }

    /// True iff `shape` shares a cell with some landed shape.
    fn is_colliding(&self, shape: &Shape) -> (r: bool)
        ensures
            r == hits_fixed(shape@, self@.fixed),
    {
        let mut j: usize = 0;
        while j < self.fixed_shape.len()
            invariant
                j <= self.fixed_shape@.len(),
                self@.fixed == self.fixed_shape@.map_values(|s: Shape| s@),
                forall|i: int| 0 <= i < j ==> !shape@.overlaps(#[trigger] self@.fixed[i]),
            decreases self.fixed_shape@.len() - j,
        {
            if shape.collides_with(&self.fixed_shape[j]) {
                proof {
                    assert(self@.fixed[j as int] == self.fixed_shape@[j as int]@);
                }
                return true;
            }
            j += 1;
        }
        false
    }

    /// True iff some landed shape occupies `pos`.
    fn fixed_has(&self, pos: Pos) -> (r: bool)
        ensures
            r == occupied(self@.fixed, pos@),
    {
        let mut j: usize = 0;
        while j < self.fixed_shape.len()
            invariant
                j <= self.fixed_shape@.len(),
                self@.fixed == self.fixed_shape@.map_values(|s: Shape| s@),
                forall|i: int| 0 <= i < j ==> !(#[trigger] self@.fixed[i]).contains(pos@),
            decreases self.fixed_shape@.len() - j,
        {
            if self.fixed_shape[j].has_position(pos) {
                proof {
                    assert(self@.fixed[j as int] == self.fixed_shape@[j as int]@);
                }
                return true;
            }
            j += 1;
        }
        false
    }

    /// Clears row `target_y` out of every landed shape.
    fn remove_line(&mut self, target_y: i32)
        ensures
            final(self)@ == (TetrisView {
                fixed: clear_row_all(old(self)@.fixed, target_y as int),
                ..old(self)@
            }),
    {
        let ghost orig = self@;
        let mut i: usize = 0;
        while i < self.fixed_shape.len()
            invariant
                i <= self.fixed_shape@.len(),
                self.fixed_shape@.len() == orig.fixed.len(),
                self.width as int == orig.width,
                self.height as int == orig.height,
                self.control_shape@ == orig.control,
                self.lost == orig.lost,
                forall|j: int| 0 <= j < i ==> (#[trigger] self.fixed_shape@[j])@ == orig.fixed[
                    j
                ].cleared(target_y as int),
                forall|j: int| i <= j < orig.fixed.len() ==> (#[trigger] self.fixed_shape@[j])@
                    == orig.fixed[j],
            decreases orig.fixed.len() - i,
        {
            let ghost before = self.fixed_shape@;
            let mut s = Shape::new_kind(Kind::I);
            self.fixed_shape.set_and_swap(i, &mut s);
            s.remove_line(target_y);
            self.fixed_shape.set_and_swap(i, &mut s);
            proof {
                assert(before[i as int]@ == orig.fixed[i as int]);
                assert(self.fixed_shape@[i as int]@ == orig.fixed[i as int].cleared(
                    target_y as int,
                ));
                assert forall|j: int| 0 <= j < orig.fixed.len() && j != i implies (
                #[trigger] self.fixed_shape@[j]) == before[j] by {}
            }
            i += 1;
        }
        proof {
            assert(self@.fixed =~= clear_row_all(orig.fixed, target_y as int));
            assert(self@ =~= (TetrisView {
                fixed: clear_row_all(orig.fixed, target_y as int),
                ..orig
            }));
        }
    }

    /// Runs the full-line sweep over every row, top to bottom.
    fn remove_full_line(&mut self)
        ensures
            final(self)@ == (TetrisView {
                fixed: clear_full_rows_from(
                    old(self)@.fixed,
                    0,
                    old(self)@.height,
                    old(self)@.width,
                ),
                ..old(self)@
            }),
    {
        let ghost orig = self@;
        let mut y: i32 = 0;
        while y < self.height
            invariant
                0 <= y,
                self.width as int == orig.width,
                self.height as int == orig.height,
                self.control_shape@ == orig.control,
                self.lost == orig.lost,
                clear_full_rows_from(orig.fixed, 0, orig.height, orig.width)
                    == clear_full_rows_from(self@.fixed, y as int, orig.height, orig.width),
            decreases orig.height - y,
        {
            if self.is_line_full(y) {
                self.remove_line(y);
            }
            y += 1;
        }
        proof {
            assert(self@ =~= (TetrisView {
                fixed: clear_full_rows_from(orig.fixed, 0, orig.height, orig.width),
                ..orig
            }));
        }
    }

    /// True iff every column of row `target_y` is occupied by a landed
    /// shape. For the disjoint in-bounds shapes the engine maintains,
    /// this says the landed cells in that row number exactly the width.
    fn is_line_full(&self, target_y: i32) -> (r: bool)
        ensures
            r == row_covered(self@.fixed, target_y as int, self@.width),
    {
        let mut x: i32 = 0;
        while x < self.width
            invariant
                0 <= x,
                self.width as int == self@.width,
                forall|xx: int| 0 <= xx < x ==> occupied(self@.fixed, (xx, target_y as int)),
            decreases self@.width - x,
        {
            if !self.fixed_has(Pos(x, target_y)) {
                return false;
            }
            x += 1;
        }
        true
    }

    /// One gravity step with the next piece's kind supplied by the
    /// caller: a no-op once lost; otherwise the control shape drops one
    /// row, or locks if blocked, clearing full rows and spawning a piece
    /// of kind `k`, with loss exactly when the spawn collides.
    pub fn tick_with_kind(&mut self, k: Kind)
        requires
            old(self).wf(),
        ensures
            final(self).wf(),
            final(self)@ == spec_tick(old(self)@, k),
    {
        let ghost t0 = self@;
        if self.lost {
            return;
        }
        proof {
            lemma_move_fits(t0, (0, 1));
        }
        let moved = self.control_shape.add(Pos(0, 1));
        let blocked = self.is_out_bound(&moved) || self.is_colliding(&moved);
        if blocked {
            let mut fresh = Self::spawn_shape(self.width, k);
            proof {
                lemma_spawn_props(k, t0.width);
            }
            core::mem::swap(&mut self.control_shape, &mut fresh);
            self.fixed_shape.push(fresh);
            proof {
                assert(self@.fixed =~= t0.fixed.push(t0.control));
            }
            let ghost fixed1 = t0.fixed.push(t0.control);
            proof {
                assert forall|j: int| 0 <= j < fixed1.len() implies (#[trigger] fixed1[j]).wf()
                    && fixed1[j].cells.len() <= 4 by {
                    if j < t0.fixed.len() {
                        assert(fixed1[j] == t0.fixed[j]);
                    } else {
                        assert(fixed1[j] == t0.control);
                    }
                }
                assert forall|j1: int, j2: int|
                    #![trigger fixed1[j1], fixed1[j2]]
                    0 <= j1 < j2 < fixed1.len() implies !fixed1[j1].overlaps(fixed1[j2]) by {
                    if j2 < t0.fixed.len() {
                        assert(fixed1[j1] == t0.fixed[j1]);
                        assert(fixed1[j2] == t0.fixed[j2]);
                    } else {
                        assert(fixed1[j1] == t0.fixed[j1]);
                        assert(fixed1[j2] == t0.control);
                        assert(!t0.control.overlaps(t0.fixed[j1]));
                        lemma_overlaps_symmetric(t0.fixed[j1], t0.control);
                    }
                }
                lemma_sweep_preserves(fixed1, 0, t0.height, t0.width);
                if t0.sized_ok() {
                    assert forall|j: int| 0 <= j < fixed1.len() implies (
                    #[trigger] fixed1[j]).in_bounds(t0.width, t0.height) by {
                        if j < t0.fixed.len() {
                            assert(fixed1[j] == t0.fixed[j]);
                        } else {
                            assert(fixed1[j] == t0.control);
                        }
                    }
                }
            }
            self.remove_full_line();
            let ghost fixed2 = clear_full_rows_from(fixed1, 0, t0.height, t0.width);
            proof {
                assert(self@.fixed == fixed2);
            }
            if self.is_colliding(&self.control_shape) {
                self.lost = true;
            }
            proof {
                assert(self@ =~= spec_lock(t0, k));
                assert(self@.control == spec_spawn(k, t0.width));
                if !self@.lost {
                    assert forall|j: int| 0 <= j < self@.fixed.len() implies !self@.control
                        .overlaps(#[trigger] self@.fixed[j]) by {
                        assert(!hits_fixed(self@.control, fixed2));
                    }
                }
                if self@.sized_ok() {
                    assert(self@.control.in_bounds(self@.width, self@.height));
                }
                assert(self@.wf());
            }
        } else {
            self.control_shape = moved;
            proof {
                lemma_translated_props(t0.control, (0, 1));
                assert(self@ =~= spec_tick(t0, k));
                assert(self@.control.in_bounds(t0.width, t0.height));
                assert forall|i: int| 0 <= i < self@.control.cells.len() implies {
                    &&& -2 <= (#[trigger] self@.control.cells[i]).0 <= self@.width + 1
                    &&& 0 <= self@.control.cells[i].1 <= self@.height + 2
                } by {
                    assert(0 <= self@.control.cells[i].0 < self@.width);
                    assert(0 <= self@.control.cells[i].1 < self@.height);
                }
                assert forall|j: int| 0 <= j < self@.fixed.len() implies !self@.control.overlaps(
                    #[trigger] self@.fixed[j],
                ) by {
                    assert(!hits_fixed(self@.control, self@.fixed));
                }
                assert(self@.wf());
            }
        }
    }

    /// One gravity step, with the next piece's kind drawn from the
    /// random source.
    pub fn tick(&mut self)
        requires
            old(self).wf(),
        ensures
            final(self).wf(),
            exists|k: Kind| final(self)@ == spec_tick(old(self)@, k),
            old(self)@.lost ==> final(self)@ == old(self)@,
    {
        let k = random_kind();
        self.tick_with_kind(k);
        proof {
            assert(self@ == spec_tick(old(self)@, k));
        }
    }

    /// One lateral move: silently rejected if it would leave the board
    /// or land on a fixed shape. Not gated on `lost`.
    pub fn shift(&mut self, direction: Direction)
        requires
            old(self).wf(),
        ensures
            final(self).wf(),
            final(self)@ == spec_shift(old(self)@, direction),
    {
        let ghost t0 = self@;
        proof {
            lemma_move_fits(t0, dir_offset(direction));
        }
        let offset = match direction {
            Direction::Left => Pos(-1, 0),
            Direction::Right => Pos(1, 0),
        };
        proof {
            assert(offset@ == dir_offset(direction));
        }
        let moved = self.control_shape.add(offset);
        if self.is_out_bound(&moved) || self.is_colliding(&moved) {
            proof {
                assert(self@ == spec_shift(t0, direction));
            }
            return;
        }
        self.control_shape = moved;
        proof {
            lemma_translated_props(t0.control, dir_offset(direction));
            assert(self@ =~= spec_shift(t0, direction));
            assert forall|i: int| 0 <= i < self@.control.cells.len() implies {
                &&& -2 <= (#[trigger] self@.control.cells[i]).0 <= self@.width + 1
                &&& 0 <= self@.control.cells[i].1 <= self@.height + 2
            } by {
                assert(0 <= self@.control.cells[i].0 < self@.width);
                assert(0 <= self@.control.cells[i].1 < self@.height);
            }
            if !self@.lost {
                assert forall|j: int| 0 <= j < self@.fixed.len() implies !self@.control.overlaps(
                    #[trigger] self@.fixed[j],
                ) by {
                    assert(!hits_fixed(self@.control, self@.fixed));
                }
            }
            assert(self@.wf());
        }
    }

    /// One rotation attempt: silently rejected if the rotated piece would
    /// leave the board or land on a fixed shape. No wall kick is tried.
    /// Not gated on `lost`.
    pub fn rotate(&mut self)
        requires
            old(self).wf(),
        ensures
            final(self).wf(),
            final(self)@ == spec_rotate(old(self)@),
    {
        let ghost t0 = self@;
        proof {
            lemma_rotate_fits(t0);
        }
        let rotated = self.control_shape.rotate();
        if self.is_out_bound(&rotated) || self.is_colliding(&rotated) {
            proof {
                assert(self@ == spec_rotate(t0));
            }
            return;
        }
        self.control_shape = rotated;
        proof {
            lemma_rotated_props(t0.control);
            assert(self@ =~= spec_rotate(t0));
            assert forall|i: int| 0 <= i < self@.control.cells.len() implies {
                &&& -2 <= (#[trigger] self@.control.cells[i]).0 <= self@.width + 1
                &&& 0 <= self@.control.cells[i].1 <= self@.height + 2
            } by {
                assert(0 <= self@.control.cells[i].0 < self@.width);
                assert(0 <= self@.control.cells[i].1 < self@.height);
            }
            if !self@.lost {
                assert forall|j: int| 0 <= j < self@.fixed.len() implies !self@.control.overlaps(
                    #[trigger] self@.fixed[j],
                ) by {
                    assert(!hits_fixed(self@.control, self@.fixed));
                }
            }
            assert(self@.wf());
        }
    }

    /// The symbol of whatever occupies `pos`: the control shape if it
    /// covers the cell, else the first landed shape in list order that
    /// does, else nothing.
    pub fn get_target_position(&self, pos: Pos) -> (r: Option<&'static str>)
        ensures
            match (r, spec_occupant(self@, pos@)) {
                (Some(s), Some(k)) => s@ == spec_symbol(k),
                (None, None) => true,
                _ => false,
            },
    {
        if self.control_shape.has_position(pos) {
            return Some(self.control_shape.typ());
        }
        let mut j: usize = 0;
        while j < self.fixed_shape.len()
            invariant
                j <= self.fixed_shape@.len(),
                self@.fixed == self.fixed_shape@.map_values(|s: Shape| s@),
                !self@.control.contains(pos@),
                first_fixed_kind(self@.fixed, pos@) == first_fixed_kind(
                    self@.fixed.skip(j as int),
                    pos@,
                ),
            decreases self.fixed_shape@.len() - j,
        {
            let found = self.fixed_shape[j].has_position(pos);
            proof {
                assert(self@.fixed[j as int] == self.fixed_shape@[j as int]@);
                assert(self@.fixed.skip(j as int).len() == self@.fixed.len() - j);
                assert(self@.fixed.skip(j as int)[0] == self@.fixed[j as int]);
            }
            if found {
                return Some(self.fixed_shape[j].typ());
            }
            proof {
                assert(self@.fixed.skip(j as int).drop_first() =~= self@.fixed.skip(j as int + 1));
            }
            j += 1;
        }
        proof {
            assert(self@.fixed.skip(self@.fixed.len() as int) =~= Seq::<ShapeView>::empty());
        }
        None
    }

    /// Every cell of the grid, row-major: the cell at index
    /// `y * width + x` is `(x, y)`.
    pub fn iter_positions(&self) -> (r: Vec<Pos>)
        requires
            self.wf(),
        ensures
            r@.len() == self@.height * self@.width,
            forall|idx: int| 0 <= idx < r@.len() ==> (#[trigger] r@[idx])@ == (
                idx % self@.width,
                idx / self@.width,
            ),
    {
        let ghost w = self@.width;
        let ghost h = self@.height;
        let mut out: Vec<Pos> = Vec::new();
        let mut y: i32 = 0;
        while y < self.height
            invariant
                0 <= y <= h,
                self.width as int == w,
                self.height as int == h,
                1 <= w,
                out@.len() == y * w,
                forall|idx: int| 0 <= idx < out@.len() ==> (#[trigger] out@[idx])@ == (
                    idx % w,
                    idx / w,
                ),
            decreases h - y,
        {
            let mut x: i32 = 0;
            while x < self.width
                invariant
                    0 <= x <= w,
                    0 <= y < h,
                    self.width as int == w,
                    self.height as int == h,
                    1 <= w,
                    out@.len() == y * w + x,
                    forall|idx: int| 0 <= idx < out@.len() ==> (#[trigger] out@[idx])@ == (
                        idx % w,
                        idx / w,
                    ),
                decreases w - x,
            {
                proof {
                    vstd::arithmetic::div_mod::lemma_fundamental_div_mod_converse(
                        y * w + x,
                        w,
                        y as int,
                        x as int,
                    );
                }
                out.push(Pos(x, y));
                x += 1;
            }
            proof {
                assert((y + 1) * w == y * w + w) by (nonlinear_arith);
            }
            y += 1;
        }
        proof {
            assert(out@.len() == h * w) by (nonlinear_arith)
                requires
                    out@.len() == y * w,
                    y == h,
            ;
            assert(h * w == self@.height * self@.width);
        }
        out
    }
}

} // verus!
