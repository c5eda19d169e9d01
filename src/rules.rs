//! The mathematical model of a Life field and of the Life rule.
use crate::cell::in_i32;
use vstd::prelude::*;

verus! {

/// Abstract state of a field: the set of alive cells of the unbounded lattice
/// and the number of generations computed since creation or the last clear.
pub struct LifeState {
    pub alive: Set<(int, int)>,
    pub generation: nat,
}

/// 1 when `(x, y)` is alive in `s`, 0 otherwise.
pub open spec fn live(s: Set<(int, int)>, x: int, y: int) -> int {
    if s.contains((x, y)) {
        1
    } else {
        0
    }
}

/// Number of alive cells among the eight cells around `(x, y)`; the cell itself is not counted.
pub open spec fn neighbour_count(s: Set<(int, int)>, x: int, y: int) -> int {
    live(s, x - 1, y - 1) + live(s, x - 1, y) + live(s, x - 1, y + 1) + live(s, x, y - 1) + live(
        s,
        x,
        y + 1,
    ) + live(s, x + 1, y - 1) + live(s, x + 1, y) + live(s, x + 1, y + 1)
}

/// `a` and `b` are distinct cells that touch, by a side or by a corner.
pub open spec fn adjacent(a: (int, int), b: (int, int)) -> bool {
    &&& a != b
    &&& -1 <= a.0 - b.0 <= 1
    &&& -1 <= a.1 - b.1 <= 1
}

/// Whether the cell `c` is alive in the generation that follows `s`:
/// an alive cell survives with two or three alive neighbours,
/// a dead cell comes alive with exactly three.
pub open spec fn alive_next(s: Set<(int, int)>, c: (int, int)) -> bool {
    let n = neighbour_count(s, c.0, c.1);
    if s.contains(c) {
        n == 2 || n == 3
    } else {
        n == 3
    }
}

/// The alive cells of the generation that follows `s`.
pub open spec fn next_alive(s: Set<(int, int)>) -> Set<(int, int)> {
    Set::new(|c: (int, int)| alive_next(s, c))
}

/// The eight neighbours of `(x, y)`, counterclockwise from the east.
pub open spec fn neighbour_list(x: int, y: int) -> Seq<(int, int)> {
    seq![
        (x + 1, y),
        (x + 1, y + 1),
        (x, y + 1),
        (x - 1, y + 1),
        (x - 1, y),
        (x - 1, y - 1),
        (x, y - 1),
        (x + 1, y - 1),
    ]
}

/// The cells adjacent to `(x, y)` are exactly those of `neighbour_list(x, y)`.
pub proof fn lemma_neighbour_list(x: int, y: int, c: (int, int))
    ensures
        adjacent(c, (x, y)) <==> exists|k: int| 0 <= k < 8 && neighbour_list(x, y)[k] == c,
{
    let l = neighbour_list(x, y);
    if adjacent(c, (x, y)) {
        if c.0 == x + 1 && c.1 == y {
            assert(l[0] == c);
        } else if c.0 == x + 1 && c.1 == y + 1 {
            assert(l[1] == c);
        } else if c.0 == x && c.1 == y + 1 {
            assert(l[2] == c);
        } else if c.0 == x - 1 && c.1 == y + 1 {
            assert(l[3] == c);
        } else if c.0 == x - 1 && c.1 == y {
            assert(l[4] == c);
        } else if c.0 == x - 1 && c.1 == y - 1 {
            assert(l[5] == c);
        } else if c.0 == x && c.1 == y - 1 {
            assert(l[6] == c);
        } else {
            assert(l[7] == c);
        }
    }
}

/// A cell with at least one alive neighbour touches an alive cell.
pub proof fn lemma_counted_neighbour(s: Set<(int, int)>, c: (int, int))
    requires
        neighbour_count(s, c.0, c.1) > 0,
    ensures
        exists|d: (int, int)| s.contains(d) && adjacent(c, d),
{
    let (x, y) = c;
    if s.contains((x - 1, y - 1)) {
        assert(adjacent(c, (x - 1, y - 1)));
    } else if s.contains((x - 1, y)) {
        assert(adjacent(c, (x - 1, y)));
    } else if s.contains((x - 1, y + 1)) {
        assert(adjacent(c, (x - 1, y + 1)));
    } else if s.contains((x, y - 1)) {
        assert(adjacent(c, (x, y - 1)));
    } else if s.contains((x, y + 1)) {
        assert(adjacent(c, (x, y + 1)));
    } else if s.contains((x + 1, y - 1)) {
        assert(adjacent(c, (x + 1, y - 1)));
    } else if s.contains((x + 1, y)) {
        assert(adjacent(c, (x + 1, y)));
    } else {
        assert(adjacent(c, (x + 1, y + 1)));
    }
}

/// The cell `c` and its eight neighbours have `i32` coordinates.
pub open spec fn inner_cell(c: (int, int)) -> bool {
    &&& in_i32(c.0 - 1) && in_i32(c.0 + 1)
    &&& in_i32(c.1 - 1) && in_i32(c.1 + 1)
}

/// The smaller and the larger of two bounds.
pub open spec fn low(a: int, b: int) -> int {
    if a <= b {
        a
    } else {
        b
    }
}

pub open spec fn high(a: int, b: int) -> int {
    if a <= b {
        b
    } else {
        a
    }
}

/// The cell `c` lies in the rectangle with corners `(x1, y1)` and `(x2, y2)`,
/// bounds included; each pair of bounds may come in either order.
pub open spec fn in_rect(c: (int, int), x1: int, y1: int, x2: int, y2: int) -> bool {
    &&& low(x1, x2) <= c.0 <= high(x1, x2)
    &&& low(y1, y2) <= c.1 <= high(y1, y2)
}

/// The cells of `s` that lie in the rectangle with corners `(x1, y1)` and `(x2, y2)`.
pub open spec fn window(s: Set<(int, int)>, x1: int, y1: int, x2: int, y2: int) -> Set<(int, int)> {
    s.filter(|c: (int, int)| in_rect(c, x1, y1, x2, y2))
}

/// The glyph that shows a cell: white when alive, black when dead.
pub open spec fn glyph(alive: bool) -> char {
    if alive {
        '\u{2b1c}'
    } else {
        '\u{2b1b}'
    }
}

/// The glyphs of the `n` cells `(x, y0)`, `(x, y0 + 1)`, ... of `s`.
pub open spec fn picture_row(s: Set<(int, int)>, x: int, y0: int, n: nat) -> Seq<char> {
    Seq::new(n, |k: int| glyph(s.contains((x, y0 + k))))
}

/// The first `rows` lines of a picture whose top line shows `x = x_top` and
/// whose lines go down in `x`; each line shows `cols` cells from `y = y0`
/// upwards and ends with a newline.
pub open spec fn picture_lines(s: Set<(int, int)>, x_top: int, rows: nat, y0: int, cols: nat) -> Seq<
    char,
>
    decreases rows,
{
    if rows == 0 {
        Seq::empty()
    } else {
        picture_lines(s, x_top, (rows - 1) as nat, y0, cols) + picture_row(
            s,
            x_top - (rows - 1),
            y0,
            cols,
        ) + seq!['\n']
    }
}

/// The picture of the rectangle of cells with `x` between `x1` and `x2` and `y`
/// between `y1` and `y2` (bounds included, in either order): one line per `x`,
/// the largest first, and in each line one glyph per `y`, the smallest first.
pub open spec fn picture(s: Set<(int, int)>, x1: int, x2: int, y1: int, y2: int) -> Seq<char> {
    picture_lines(
        s,
        high(x1, x2),
        (high(x1, x2) - low(x1, x2) + 1) as nat,
        low(y1, y2),
        (high(y1, y2) - low(y1, y2) + 1) as nat,
    )
}

/// The cell `p` with its coordinates as integers.
pub open spec fn pair_of(p: (i32, i32)) -> (int, int) {
    (p.0 as int, p.1 as int)
}

/// The cells listed in `v`.
pub open spec fn cells_of_seq(v: Seq<(i32, i32)>) -> Set<(int, int)> {
    Set::new(|c: (int, int)| exists|i: int| 0 <= i < v.len() && pair_of(v[i]) == c)
}

/// The cells `(x, y0 + k)` for which `pattern[k]` holds.
pub open spec fn column(x: int, y0: int, pattern: Seq<bool>) -> Set<(int, int)> {
    Set::new(|c: (int, int)| c.0 == x && y0 <= c.1 < y0 + pattern.len() && pattern[c.1 - y0])
}

impl LifeState {
    /// A field with no alive cell, at generation zero.
    pub open spec fn empty() -> LifeState {
        LifeState { alive: Set::empty(), generation: 0 }
    }

    /// The state after one step of the rule.
    pub open spec fn advanced(self) -> LifeState {
        LifeState { alive: next_alive(self.alive), generation: self.generation + 1 }
    }

    /// The state after flipping the cell `(x, y)` between alive and dead.
    pub open spec fn toggled(self, x: int, y: int) -> LifeState {
        LifeState {
            alive: if self.alive.contains((x, y)) {
                self.alive.remove((x, y))
            } else {
                self.alive.insert((x, y))
            },
            generation: self.generation,
        }
    }

    /// The state after a clear: no alive cell, generation zero.
    pub open spec fn cleared(self) -> LifeState {
        LifeState::empty()
    }

    /// Every alive cell has all its neighbours in the `i32` range, so that the
    /// next generation can be computed and stored.
    pub open spec fn has_margin(self) -> bool {
        forall|c: (int, int)| #[trigger] self.alive.contains(c) ==> inner_cell(c)
    }

    /// The state after `n` steps of the rule.
    pub open spec fn after_steps(self, n: nat) -> LifeState
        decreases n,
    {
        if n == 0 {
            self
        } else {
            self.after_steps((n - 1) as nat).advanced()
        }
    }
}

} // verus!
