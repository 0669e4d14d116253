//! Tetromino geometry: grid positions, piece kinds, and the `Shape` type
//! with translation, rotation, collision testing and row removal.

use vstd::prelude::*;

verus! {

broadcast use vstd::seq_lib::group_seq_properties;

/// One grid cell: `x` grows rightward, `y` grows downward (row 0 is the top).
#[derive(Debug, PartialEq, Eq, Structural, Hash, Clone, Copy)]
pub struct Pos(pub i32, pub i32);

impl View for Pos {
    type V = (int, int);

    open spec fn view(&self) -> (int, int) {
        (self.0 as int, self.1 as int)
    }
}

impl Pos {
    /// Component-wise addition of two positions.
    pub fn add(self, rhs: Pos) -> (r: Pos)
        requires
            i32::MIN <= self@.0 + rhs@.0 <= i32::MAX,
            i32::MIN <= self@.1 + rhs@.1 <= i32::MAX,
        ensures
            r@ == (self@.0 + rhs@.0, self@.1 + rhs@.1),
    {
        Pos(self.0 + rhs.0, self.1 + rhs.1)
    }
}

/// The seven tetromino kinds.
#[derive(Debug, PartialEq, Eq, Structural, Hash, Clone, Copy)]
pub enum Kind {
    I,
    O,
    T,
    J,
    L,
    S,
    Z,
}

/// The views of a sequence of positions, as mathematical integer pairs.
pub open spec fn cell_views(s: Seq<Pos>) -> Seq<(int, int)> {
    s.map_values(|p: Pos| p@)
}

/// No cell appears twice in the sequence.
pub open spec fn distinct_cells(s: Seq<(int, int)>) -> bool {
    forall|i: int, j: int| 0 <= i < j < s.len() ==> s[i] != s[j]
}

/// Every cell lies in the rectangle `[0, w) x [0, h)`.
pub open spec fn cells_in_bounds(s: Seq<(int, int)>, w: int, h: int) -> bool {
    forall|i: int| 0 <= i < s.len() ==> {
        &&& 0 <= (#[trigger] s[i]).0 < w
        &&& 0 <= s[i].1 < h
    }
}

/// Two cell sequences share at least one cell.
pub open spec fn cells_overlap(a: Seq<(int, int)>, b: Seq<(int, int)>) -> bool {
    exists|c: (int, int)| a.contains(c) && b.contains(c)
}

/// The image of one cell under the fixed quarter-turn about anchor `a`:
/// `(x, y)` maps to `(-y + ax + ay, x - ax + ay)`.
pub open spec fn rot_cell(c: (int, int), a: (int, int)) -> (int, int) {
    (-c.1 + a.0 + a.1, c.0 - a.0 + a.1)
}

/// The cells of a shape after the row `target` is cleared: cells in row
/// `target` are dropped, cells above it (`y < target`) move down one row,
/// cells below it are untouched.
pub open spec fn cells_after_clear(s: Seq<(int, int)>, target: int) -> Seq<(int, int)>
    decreases s.len(),
{
    if s.len() == 0 {
        Seq::empty()
    } else {
        let rest = cells_after_clear(s.drop_last(), target);
        let c = s.last();
        if c.1 == target {
            rest
        } else if c.1 < target {
            rest.push((c.0, c.1 + 1))
        } else {
            rest.push(c)
        }
    }
}

/// The mathematical value of a shape: its kind, its cells (in storage
/// order) and its rotation anchor, all over unbounded integers.
#[verifier::ext_equal]
pub struct ShapeView {
    pub kind: Kind,
    pub cells: Seq<(int, int)>,
    pub anchor: (int, int),
}

impl ShapeView {
    /// The shape occupies this cell.
    pub open spec fn contains(self, c: (int, int)) -> bool {
        self.cells.contains(c)
    }

    /// The shape with every cell and the anchor offset by `d`.
    pub open spec fn translated(self, d: (int, int)) -> ShapeView {
        ShapeView {
            kind: self.kind,
            cells: self.cells.map_values(|c: (int, int)| (c.0 + d.0, c.1 + d.1)),
            anchor: (self.anchor.0 + d.0, self.anchor.1 + d.1),
        }
    }

    /// The shape rotated a quarter turn about its anchor.
    pub open spec fn rotated(self) -> ShapeView {
        ShapeView {
            kind: self.kind,
            cells: self.cells.map_values(|c: (int, int)| rot_cell(c, self.anchor)),
            anchor: self.anchor,
        }
    }

    /// The shape after row `target` is cleared.
    pub open spec fn cleared(self, target: int) -> ShapeView {
        ShapeView { kind: self.kind, cells: cells_after_clear(self.cells, target), anchor: self.anchor }
    }

    /// Internal consistency: no duplicate cell.
    pub open spec fn wf(self) -> bool {
        distinct_cells(self.cells)
    }

    /// Every cell lies within 3 of the anchor, component-wise. This holds
    /// of every freshly built shape and is kept by translation and
    /// rotation; it bounds the coordinates that the rotation arithmetic
    /// can produce.
    pub open spec fn near_anchor(self) -> bool {
        forall|i: int| 0 <= i < self.cells.len() ==> {
            &&& -3 <= (#[trigger] self.cells[i]).0 - self.anchor.0 <= 3
            &&& -3 <= self.cells[i].1 - self.anchor.1 <= 3
        }
    }

    /// Every cell lies strictly inside the `w` by `h` board.
    pub open spec fn in_bounds(self, w: int, h: int) -> bool {
        cells_in_bounds(self.cells, w, h)
    }

    /// The two shapes share at least one cell.
    pub open spec fn overlaps(self, other: ShapeView) -> bool {
        cells_overlap(self.cells, other.cells)
    }
}

/// The fixed per-kind template: cell offsets and rotation anchor, before
/// any translation onto a board.
pub open spec fn spec_template(k: Kind) -> ShapeView {
    match k {
        Kind::I => ShapeView {
            kind: k,
            cells: seq![(0int, 0int), (0int, 1int), (0int, 2int), (0int, 3int)],
            anchor: (1int, 0int),
        },
        Kind::O => ShapeView {
            kind: k,
            cells: seq![(0int, 0int), (0int, 1int), (1int, 0int), (1int, 1int)],
            anchor: (0int, 0int),
        },
        Kind::T => ShapeView {
            kind: k,
            cells: seq![(0int, 0int), (1int, 0int), (2int, 0int), (1int, 1int)],
            anchor: (0int, 0int),
        },
        Kind::J => ShapeView {
            kind: k,
            cells: seq![(0int, 0int), (0int, 1int), (0int, 2int), (-1int, 2int)],
            anchor: (0int, 1int),
        },
        Kind::L => ShapeView {
            kind: k,
            cells: seq![(0int, 0int), (0int, 1int), (0int, 2int), (1int, 2int)],
            anchor: (0int, 1int),
        },
        Kind::S => ShapeView {
            kind: k,
            cells: seq![(0int, 0int), (1int, 0int), (0int, 1int), (-1int, 1int)],
            anchor: (0int, 0int),
        },
        Kind::Z => ShapeView {
            kind: k,
            cells: seq![(0int, 0int), (-1int, 0int), (0int, 1int), (1int, 1int)],
            anchor: (0int, 0int),
        },
    }
}

/// The fixed rendering symbol of each kind.
pub open spec fn spec_symbol(k: Kind) -> Seq<char> {
    match k {
        Kind::I => "🟦"@,
        Kind::O => "🟨"@,
        Kind::T => "🟫"@,
        Kind::J => "🟪"@,
        Kind::L => "🟧"@,
        Kind::S => "🟩"@,
        Kind::Z => "🟥"@,
    }
}

/// The rendering symbol of a kind.
pub fn kind_symbol(k: Kind) -> (r: &'static str)
    ensures
        r@ == spec_symbol(k),
{
    match k {
        Kind::I => "🟦",
        Kind::O => "🟨",
        Kind::T => "🟫",
        Kind::J => "🟪",
        Kind::L => "🟧",
        Kind::S => "🟩",
        Kind::Z => "🟥",
    }
}

/// Every template has exactly four distinct cells, all within 3 of the
/// anchor and within the rectangle `[-1, 2] x [0, 3]`.
pub proof fn lemma_template_props(k: Kind)
    ensures
        spec_template(k).kind == k,
        spec_template(k).cells.len() == 4,
        spec_template(k).wf(),
        spec_template(k).near_anchor(),
        forall|i: int| 0 <= i < spec_template(k).cells.len() ==> {
            &&& -1 <= (#[trigger] spec_template(k).cells[i]).0 <= 2
            &&& 0 <= spec_template(k).cells[i].1 <= 3
        },
{
    let t = spec_template(k);
    assert(t.cells.len() == 4);
    assert forall|i: int, j: int| 0 <= i < j < t.cells.len() implies t.cells[i] != t.cells[j] by {
        assert(t.cells[0] != t.cells[1]);
        assert(t.cells[0] != t.cells[2]);
        assert(t.cells[0] != t.cells[3]);
        assert(t.cells[1] != t.cells[2]);
        assert(t.cells[1] != t.cells[3]);
        assert(t.cells[2] != t.cells[3]);
    }
    assert forall|i: int| 0 <= i < t.cells.len() implies {
        &&& -3 <= (#[trigger] t.cells[i]).0 - t.anchor.0 <= 3
        &&& -3 <= t.cells[i].1 - t.anchor.1 <= 3
    } by {
        assert(0 <= i < 4);
    }
    assert forall|i: int| 0 <= i < t.cells.len() implies {
        &&& -1 <= (#[trigger] t.cells[i]).0 <= 2
        &&& 0 <= t.cells[i].1 <= 3
    } by {
        assert(0 <= i < 4);
    }
}

/// Relies on rand::random: draws a value from the thread-local generator;
/// nothing is promised of the value.
#[verifier::external_body]
fn random_u32() -> u32 {
    rand::random::<u32>()
}

/// A kind drawn from the random source.
pub fn random_kind() -> Kind {
    let n = random_u32() % 7;
    if n == 0 {
        Kind::I
    } else if n == 1 {
        Kind::O
    } else if n == 2 {
        Kind::T
    } else if n == 3 {
        Kind::J
    } else if n == 4 {
        Kind::L
    } else if n == 5 {
        Kind::S
    } else {
        Kind::Z
    }
}

/// One tetromino: a kind tag, the absolute grid cells it occupies, and the
/// anchor its rotation turns about. Cells and anchor always live in the
/// same coordinate space.
#[derive(Debug, Clone)]
pub struct Shape {
    kind: Kind,
    cells: Vec<Pos>,
    anchor: Pos,
}

impl View for Shape {
    type V = ShapeView;

    closed spec fn view(&self) -> ShapeView {
        ShapeView { kind: self.kind, cells: cell_views(self.cells@), anchor: self.anchor@ }
    }
}

impl Shape {
    /// Builds a shape from four cells and an anchor.
    fn from_cells(k: Kind, c0: Pos, c1: Pos, c2: Pos, c3: Pos, anchor: Pos) -> (r: Shape)
        ensures
            r@ == (ShapeView { kind: k, cells: seq![c0@, c1@, c2@, c3@], anchor: anchor@ }),
    {
        let mut cells: Vec<Pos> = Vec::new();
        cells.push(c0);
        cells.push(c1);
        cells.push(c2);
        cells.push(c3);
        let r = Shape { kind: k, cells, anchor };
        proof {
            assert(r@.cells =~= seq![c0@, c1@, c2@, c3@]);
            assert(r@ =~= (ShapeView { kind: k, cells: seq![c0@, c1@, c2@, c3@], anchor: anchor@ }));
        }
        r
    }

    /// The template shape of the given kind, at its template position.
    pub fn new_kind(k: Kind) -> (r: Shape)
        ensures
            r@ == spec_template(k),
    {
        let r = match k {
            Kind::I => Self::from_cells(k, Pos(0, 0), Pos(0, 1), Pos(0, 2), Pos(0, 3), Pos(1, 0)),
            Kind::O => Self::from_cells(k, Pos(0, 0), Pos(0, 1), Pos(1, 0), Pos(1, 1), Pos(0, 0)),
            Kind::T => Self::from_cells(k, Pos(0, 0), Pos(1, 0), Pos(2, 0), Pos(1, 1), Pos(0, 0)),
            Kind::J => Self::from_cells(k, Pos(0, 0), Pos(0, 1), Pos(0, 2), Pos(-1, 2), Pos(0, 1)),
            Kind::L => Self::from_cells(k, Pos(0, 0), Pos(0, 1), Pos(0, 2), Pos(1, 2), Pos(0, 1)),
            Kind::S => Self::from_cells(k, Pos(0, 0), Pos(1, 0), Pos(0, 1), Pos(-1, 1), Pos(0, 0)),
            Kind::Z => Self::from_cells(k, Pos(0, 0), Pos(-1, 0), Pos(0, 1), Pos(1, 1), Pos(0, 0)),
        };
        proof {
            assert(r@.cells =~= spec_template(k).cells);
            assert(r@ =~= spec_template(k));
        }
        r
    }

    /// A template shape of a kind drawn from the random source.
    pub fn new_random() -> (r: Shape)
        ensures
            exists|k: Kind| r@ == spec_template(k),
    {
        let k = random_kind();
        let r = Self::new_kind(k);
        proof {
            assert(r@ == spec_template(k));
        }
        r
    }

    /// The occupied cells, in storage order. Each cell appears exactly
    /// once for a well-formed shape; callers may not rely on the order.
    pub fn position(&self) -> (r: Vec<Pos>)
        ensures
            cell_views(r@) == self@.cells,
    {
        let mut out: Vec<Pos> = Vec::new();
        let mut i: usize = 0;
        while i < self.cells.len()
            invariant
                i <= self.cells@.len(),
                out@.len() == i as int,
                forall|j: int| 0 <= j < i ==> out@[j] == self.cells@[j],
            decreases self.cells@.len() - i,
        {
            out.push(self.cells[i]);
            i += 1;
        }
        proof {
            assert(cell_views(out@) =~= cell_views(self.cells@));
        }
        out
    }

    /// The kind's rendering symbol.
    pub fn typ(&self) -> (r: &'static str)
        ensures
            r@ == spec_symbol(self@.kind),
    {
        kind_symbol(self.kind)
    }

    /// The kind tag of this shape.
    pub fn kind(&self) -> (r: Kind)
        ensures
            r == self@.kind,
    {
        self.kind
    }

    /// True iff `pos` is one of this shape's cells.
    pub fn has_position(&self, pos: Pos) -> (r: bool)
        ensures
            r == self@.contains(pos@),
    {
        let mut i: usize = 0;
        while i < self.cells.len()
            invariant
                0 <= i <= self.cells@.len(),
                forall|j: int| 0 <= j < i ==> #[trigger] cell_views(self.cells@)[j] != pos@,
            decreases self.cells@.len() - i,
        {
            if self.cells[i].0 == pos.0 && self.cells[i].1 == pos.1 {
                proof {
                    assert(cell_views(self.cells@)[i as int] == pos@);
                    assert(self@.cells.contains(pos@));
                }
                return true;
            }
            i += 1;
        }
        proof {
            assert(!self@.cells.contains(pos@));
        }
        false
    }

    /// True iff the two shapes share at least one cell. Symmetric.
    pub fn collides_with(&self, other: &Shape) -> (r: bool)
        ensures
            r == self@.overlaps(other@),
    {
        let mut i: usize = 0;
        while i < self.cells.len()
            invariant
                0 <= i <= self.cells@.len(),
                forall|j: int| 0 <= j < i ==> !other@.contains(#[trigger] cell_views(self.cells@)[j]),
            decreases self.cells@.len() - i,
        {
            if other.has_position(self.cells[i]) {
                proof {
                    assert(self@.contains(cell_views(self.cells@)[i as int]));
                }
                return true;
            }
            i += 1;
        }
        proof {
            assert forall|c: (int, int)| self@.contains(c) implies !other@.contains(c) by {
                let j = choose|j: int| 0 <= j < self@.cells.len() && self@.cells[j] == c;
                assert(cell_views(self.cells@)[j] == c);
            }
        }
        false
    }

    /// A new shape with every cell and the anchor offset by `rhs`; the
    /// kind is preserved. Total but for machine limits on the coordinates.
    pub fn add(&self, rhs: Pos) -> (r: Shape)
        requires
            forall|i: int| 0 <= i < self@.cells.len() ==> {
                &&& i32::MIN <= (#[trigger] self@.cells[i]).0 + rhs@.0 <= i32::MAX
                &&& i32::MIN <= self@.cells[i].1 + rhs@.1 <= i32::MAX
            },
            i32::MIN <= self@.anchor.0 + rhs@.0 <= i32::MAX,
            i32::MIN <= self@.anchor.1 + rhs@.1 <= i32::MAX,
        ensures
            r@ == self@.translated(rhs@),
    {
        let mut cells: Vec<Pos> = Vec::new();
        let mut i: usize = 0;
        while i < self.cells.len()
            invariant
                i <= self.cells@.len(),
                forall|j: int| 0 <= j < self@.cells.len() ==> {
                    &&& i32::MIN <= (#[trigger] self@.cells[j]).0 + rhs@.0 <= i32::MAX
                    &&& i32::MIN <= self@.cells[j].1 + rhs@.1 <= i32::MAX
                },
                self@.cells == cell_views(self.cells@),
                cells@.len() == i as int,
                forall|j: int| 0 <= j < i ==> (#[trigger] cells@[j])@ == (
                    self@.cells[j].0 + rhs@.0,
                    self@.cells[j].1 + rhs@.1,
                ),
            decreases self.cells@.len() - i,
        {
            let p = self.cells[i];
            proof {
                assert(cell_views(self.cells@)[i as int] == p@);
            }
            cells.push(Pos(p.0 + rhs.0, p.1 + rhs.1));
            i += 1;
        }
        let anchor = self.anchor.add(rhs);
        let r = Shape { kind: self.kind, cells, anchor };
        proof {
            assert(r@.cells =~= self@.translated(rhs@).cells);
            assert(r@ =~= self@.translated(rhs@));
        }
        r
    }

    /// A new shape with the same kind and anchor whose cells are each
    /// remapped by the fixed quarter-turn about the anchor. Board bounds
    /// and collisions are the caller's responsibility.
    pub fn rotate(&self) -> (r: Shape)
        requires
            forall|i: int| 0 <= i < self@.cells.len() ==> {
                &&& i32::MIN <= (#[trigger] rot_cell(self@.cells[i], self@.anchor)).0 <= i32::MAX
                &&& i32::MIN <= rot_cell(self@.cells[i], self@.anchor).1 <= i32::MAX
            },
        ensures
            r@ == self@.rotated(),
    {
        let ax = self.anchor.0;
        let ay = self.anchor.1;
        let mut cells: Vec<Pos> = Vec::new();
        let mut i: usize = 0;
        while i < self.cells.len()
            invariant
                i <= self.cells@.len(),
                ax as int == self@.anchor.0,
                ay as int == self@.anchor.1,
                forall|j: int| 0 <= j < self@.cells.len() ==> {
                    &&& i32::MIN <= (#[trigger] rot_cell(self@.cells[j], self@.anchor)).0 <= i32::MAX
                    &&& i32::MIN <= rot_cell(self@.cells[j], self@.anchor).1 <= i32::MAX
                },
                self@.cells == cell_views(self.cells@),
                cells@.len() == i as int,
                forall|j: int| 0 <= j < i ==> (#[trigger] cells@[j])@ == rot_cell(
                    self@.cells[j],
                    self@.anchor,
                ),
            decreases self.cells@.len() - i,
        {
            let p = self.cells[i];
            proof {
                assert(cell_views(self.cells@)[i as int] == p@);
            }
            let nx: i64 = -(p.1 as i64) + (ax as i64) + (ay as i64);
            let ny: i64 = (p.0 as i64) - (ax as i64) + (ay as i64);
            proof {
                assert(nx == rot_cell(self@.cells[i as int], self@.anchor).0);
                assert(ny == rot_cell(self@.cells[i as int], self@.anchor).1);
            }
            cells.push(Pos(nx as i32, ny as i32));
            i += 1;
        }
        let r = Shape { kind: self.kind, cells, anchor: self.anchor };
        proof {
            assert(r@.cells =~= self@.rotated().cells);
            assert(r@ =~= self@.rotated());
        }
        r
    }

    /// Deletes every cell in row `target_y` and moves every remaining cell
    /// with `y < target_y` down one row; cells below the row are
    /// untouched. Kind and anchor are preserved.
    pub fn remove_line(&mut self, target_y: i32)
        ensures
            final(self)@ == old(self)@.cleared(target_y as int),
    {
        let ghost orig = self@;
        let mut kept: Vec<Pos> = Vec::new();
        let mut i: usize = 0;
        while i < self.cells.len()
            invariant
                0 <= i <= self.cells@.len(),
                self@ == orig,
                cell_views(kept@) =~= cells_after_clear(orig.cells.take(i as int), target_y as int),
            decreases self.cells@.len() - i,
        {
            let p = self.cells[i];
            proof {
                assert(cell_views(self.cells@)[i as int] == p@);
                assert(orig.cells.take(i + 1 as int).drop_last() =~= orig.cells.take(i as int));
                assert(orig.cells.take(i + 1 as int).last() == p@);
            }
            if p.1 == target_y {
                // dropped
            } else if p.1 < target_y {
                kept.push(Pos(p.0, p.1 + 1));
            } else {
                kept.push(p);
            }
            proof {
                assert(cell_views(kept@) =~= cells_after_clear(orig.cells.take(i + 1 as int), target_y as int));
            }
            i += 1;
        }
        proof {
            assert(orig.cells.take(self.cells@.len() as int) =~= orig.cells);
        }
        self.cells = kept;
        proof {
            assert(self@ =~= orig.cleared(target_y as int));
        }
    }
}

/// Exact membership of a cleared cell sequence: a cell strictly below the
/// cleared row is kept as it was; a cell at or above it comes from one row
/// higher up.
pub proof fn lemma_clear_membership(s: Seq<(int, int)>, target: int)
    ensures
        forall|c: (int, int)| #[trigger] cells_after_clear(s, target).contains(c) <==> (
            if c.1 > target {
                s.contains(c)
            } else {
                s.contains((c.0, c.1 - 1))
            }
        ),
    decreases s.len(),
{
    if s.len() == 0 {
    } else {
        lemma_clear_membership(s.drop_last(), target);
        let rest = cells_after_clear(s.drop_last(), target);
        let last = s.last();
        assert(s =~= s.drop_last().push(last));
        assert forall|c: (int, int)| #[trigger] cells_after_clear(s, target).contains(c) implies (
            if c.1 > target {
                s.contains(c)
            } else {
                s.contains((c.0, c.1 - 1))
            }
        ) by {
            if !rest.contains(c) {
                if last.1 < target {
                    assert(c == (last.0, last.1 + 1));
                } else {
                    assert(c == last);
                }
            }
        }
        assert forall|c: (int, int)| (
            if c.1 > target {
                s.contains(c)
            } else {
                s.contains((c.0, c.1 - 1))
            }
        ) implies #[trigger] cells_after_clear(s, target).contains(c) by {
            if c.1 > target {
                if c == last {
                    assert(cells_after_clear(s, target) == rest.push(last));
                } else {
                    assert(s.drop_last().contains(c));
                }
            } else {
                let p = (c.0, c.1 - 1);
                if p == last {
                    assert(last.1 < target);
                    assert(cells_after_clear(s, target) == rest.push((last.0, last.1 + 1)));
                    assert((last.0, last.1 + 1) == c);
                } else {
                    assert(s.drop_last().contains(p));
                }
            }
        }
    }
}

/// Clearing a row never duplicates a cell.
pub proof fn lemma_clear_distinct(s: Seq<(int, int)>, target: int)
    requires
        distinct_cells(s),
    ensures
        distinct_cells(cells_after_clear(s, target)),
    decreases s.len(),
{
    if s.len() == 0 {
    } else {
        let head = s.drop_last();
        let last = s.last();
        assert(distinct_cells(head));
        lemma_clear_distinct(head, target);
        lemma_clear_membership(head, target);
        let rest = cells_after_clear(head, target);
        if last.1 != target {
            let v = if last.1 < target {
                (last.0, last.1 + 1)
            } else {
                last
            };
            assert(!rest.contains(v)) by {
                if rest.contains(v) {
                    if last.1 < target {
                        assert(head.contains((v.0, v.1 - 1)));
                        assert((v.0, v.1 - 1) == last);
                    } else {
                        assert(head.contains(v));
                    }
                    let j = choose|j: int| 0 <= j < head.len() && head[j] == last;
                    assert(s[j] == s[s.len() - 1]);
                }
            }
            let out = rest.push(v);
            assert forall|i: int, j: int| 0 <= i < j < out.len() implies out[i] != out[j] by {
                if j == out.len() - 1 {
                    assert(rest.contains(out[i]));
                }
            }
        }
    }
}

/// Clearing a row on two disjoint cell sequences keeps them disjoint.
pub proof fn lemma_clear_keeps_disjoint(a: Seq<(int, int)>, b: Seq<(int, int)>, target: int)
    requires
        !cells_overlap(a, b),
    ensures
        !cells_overlap(cells_after_clear(a, target), cells_after_clear(b, target)),
{
    lemma_clear_membership(a, target);
    lemma_clear_membership(b, target);
    if cells_overlap(cells_after_clear(a, target), cells_after_clear(b, target)) {
        let c = choose|c: (int, int)|
            cells_after_clear(a, target).contains(c) && cells_after_clear(b, target).contains(c);
        if c.1 > target {
            assert(a.contains(c) && b.contains(c));
        } else {
            assert(a.contains((c.0, c.1 - 1)) && b.contains((c.0, c.1 - 1)));
        }
    }
}

/// Clearing a row inside the board keeps every cell inside the board.
pub proof fn lemma_clear_in_bounds(s: Seq<(int, int)>, target: int, w: int, h: int)
    requires
        0 <= target < h,
        cells_in_bounds(s, w, h),
    ensures
        cells_in_bounds(cells_after_clear(s, target), w, h),
{
    lemma_clear_membership(s, target);
    let out = cells_after_clear(s, target);
    assert forall|i: int| 0 <= i < out.len() implies {
        &&& 0 <= (#[trigger] out[i]).0 < w
        &&& 0 <= out[i].1 < h
    } by {
        let c = out[i];
        assert(out.contains(c));
        if c.1 > target {
            let j = choose|j: int| 0 <= j < s.len() && s[j] == c;
        } else {
            let p = (c.0, c.1 - 1);
            assert(s.contains(p));
            let j = choose|j: int| 0 <= j < s.len() && s[j] == p;
        }
    }
}

/// Clearing a row never grows the cell sequence.
pub proof fn lemma_clear_len(s: Seq<(int, int)>, target: int)
    ensures
        cells_after_clear(s, target).len() <= s.len(),
    decreases s.len(),
{
    if s.len() == 0 {
    } else {
        lemma_clear_len(s.drop_last(), target);
    }
}

/// Translation keeps the cell count, distinctness and anchor closeness.
pub proof fn lemma_translated_props(s: ShapeView, d: (int, int))
    ensures
        s.translated(d).cells.len() == s.cells.len(),
        s.translated(d).kind == s.kind,
        s.wf() ==> s.translated(d).wf(),
        s.near_anchor() ==> s.translated(d).near_anchor(),
        forall|i: int| 0 <= i < s.cells.len() ==> #[trigger] s.translated(d).cells[i] == (
            s.cells[i].0 + d.0,
            s.cells[i].1 + d.1,
        ),
{
    let t = s.translated(d);
    if s.wf() {
        assert forall|i: int, j: int| 0 <= i < j < t.cells.len() implies t.cells[i] != t.cells[j] by {
            assert(s.cells[i] != s.cells[j]);
        }
    }
}

/// Rotation keeps the cell count, distinctness and anchor closeness.
pub proof fn lemma_rotated_props(s: ShapeView)
    ensures
        s.rotated().cells.len() == s.cells.len(),
        s.rotated().kind == s.kind,
        s.rotated().anchor == s.anchor,
        s.wf() ==> s.rotated().wf(),
        s.near_anchor() ==> s.rotated().near_anchor(),
        forall|i: int| 0 <= i < s.cells.len() ==> #[trigger] s.rotated().cells[i] == rot_cell(
            s.cells[i],
            s.anchor,
        ),
{
    let t = s.rotated();
    if s.wf() {
        assert forall|i: int, j: int| 0 <= i < j < t.cells.len() implies t.cells[i] != t.cells[j] by {
            assert(s.cells[i] != s.cells[j]);
            assert(rot_cell(s.cells[i], s.anchor).0 == -s.cells[i].1 + s.anchor.0 + s.anchor.1);
            assert(rot_cell(s.cells[j], s.anchor).0 == -s.cells[j].1 + s.anchor.0 + s.anchor.1);
        }
    }
    if s.near_anchor() {
        assert forall|i: int| 0 <= i < t.cells.len() implies {
            &&& -3 <= (#[trigger] t.cells[i]).0 - t.anchor.0 <= 3
            &&& -3 <= t.cells[i].1 - t.anchor.1 <= 3
        } by {
            assert(-3 <= s.cells[i].0 - s.anchor.0 <= 3);
            assert(-3 <= s.cells[i].1 - s.anchor.1 <= 3);
        }
    }
}

/// Four quarter-turns restore a shape exactly: its cells, anchor and kind
/// all return to their original values, whatever the shape.
pub proof fn lemma_rotate_four_restores(s: ShapeView)
    ensures
        s.rotated().rotated().rotated().rotated() == s,
{
    let r4 = s.rotated().rotated().rotated().rotated();
    assert(r4.cells =~= s.cells);
    assert(r4 =~= s);
}

} // verus!
