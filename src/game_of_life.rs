//! The Life field: a sparse set of alive cells and a generation counter.
use crate::cell::{
    cell_of_key, decode, encode, key_of, lemma_cell_of_key, lemma_key_injective, lemma_key_of_cell,
    representable,
};
use crate::rules::{
    adjacent, alive_next, cells_of_seq, column, glyph, high, in_rect, inner_cell,
    lemma_counted_neighbour, lemma_neighbour_list, low, neighbour_count, neighbour_list,
    next_alive, pair_of, picture, picture_lines, picture_row, window, LifeState,
};
use crate::random::random_ratio;
use crate::text::{decimal, push_char, push_decimal, push_text};
use std::collections::HashSet;
use vstd::set_lib::{lemma_int_range, lemma_map_size, lemma_set_subset_finite, set_int_range};
use vstd::prelude::*;

verus! {

/// The alive cells of `keys`, one per key.
pub open spec fn cells_of_keys(keys: Set<u64>) -> Set<(int, int)> {
    Set::new(|c: (int, int)| representable(c) && keys.contains(key_of(c.0, c.1) as u64))
}

/// Every set of keys is finite: keys are `u64` values.
proof fn lemma_keys_finite(keys: Set<u64>)
    ensures
        keys.finite(),
{
    let as_int = |k: u64| k as int;
    let as_key = |i: int| i as u64;
    let range = set_int_range(0, 0x1_0000_0000_0000_0000);
    lemma_int_range(0, 0x1_0000_0000_0000_0000);
    assert(keys.map(as_int).subset_of(range));
    lemma_set_subset_finite(range, keys.map(as_int));
    keys.map(as_int).lemma_map_finite(as_key);
    assert forall|k: u64| keys.contains(k) implies keys.map(as_int).map(as_key).contains(k) by {
        assert(keys.map(as_int).contains(as_int(k)));
    }
    assert(keys.map(as_int).map(as_key) =~= keys);
}

/// There are as many cells as keys.
proof fn lemma_cells_of_keys_len(keys: Set<u64>)
    ensures
        cells_of_keys(keys).finite(),
        cells_of_keys(keys).len() == keys.len(),
{
    let cell = |k: u64| cell_of_key(k as int);
    lemma_keys_finite(keys);
    assert forall|a: u64, b: u64| keys.contains(a) && keys.contains(b) && #[trigger] cell(a)
        == #[trigger] cell(b) implies a == b by {
        lemma_cell_of_key(a as int);
        lemma_cell_of_key(b as int);
    }
    assert forall|c: (int, int)| cells_of_keys(keys).contains(c) implies keys.map(cell).contains(
        c,
    ) by {
        lemma_key_of_cell(c.0, c.1);
        assert(cell(key_of(c.0, c.1) as u64) == c);
    }
    assert forall|c: (int, int)| keys.map(cell).contains(c) implies cells_of_keys(keys).contains(
        c,
    ) by {
        let k = choose|k: u64| keys.contains(k) && c == cell(k);
        lemma_cell_of_key(k as int);
    }
    assert(keys.map(cell) =~= cells_of_keys(keys));
    lemma_map_size(keys, cells_of_keys(keys), cell);
}

/// Probability that `randomize_area` makes a cell alive:
/// `DENSITY_NUMERATOR / DENSITY_DENOMINATOR`.
pub const DENSITY_NUMERATOR: u32 = 1;

pub const DENSITY_DENOMINATOR: u32 = 5;

/// A Life field on the unbounded lattice.
///
/// Only the alive cells are stored; a cell that is not in the set is dead.
pub struct GameOfLife {
    alive_cells: HashSet<u64>,
    step: u32,
}

impl View for GameOfLife {
    type V = LifeState;

    closed spec fn view(&self) -> LifeState {
        LifeState { alive: cells_of_keys(self.alive_cells@), generation: self.step as nat }
    }
}

impl GameOfLife {
    /// An empty field at generation zero.
    pub fn new() -> (r: Self)
        ensures
            r@ == LifeState::empty(),
    {
        let r = GameOfLife { alive_cells: HashSet::new(), step: 0 };
        assert(r@.alive =~= Set::empty());
        r
    }

    /// Whether the cell `(x, y)` is alive; coordinates outside the `i32`
    /// range are never alive.
    fn alive_at(&self, x: i64, y: i64) -> (r: bool)
        ensures
            r == self@.alive.contains((x as int, y as int)),
    {
        if i32::MIN as i64 <= x && x <= i32::MAX as i64 && i32::MIN as i64 <= y && y
            <= i32::MAX as i64 {
            let k = encode(x as i32, y as i32);
            self.alive_cells.contains(&k)
        } else {
            false
        }
    }

    /// Number of alive cells among the eight neighbours of `(pos_x, pos_y)`.
    pub fn count_alive_neighbours(&self, pos_x: i32, pos_y: i32) -> (r: u32)
        ensures
            r == neighbour_count(self@.alive, pos_x as int, pos_y as int),
            r <= 8,
    {
        let x = pos_x as i64;
        let y = pos_y as i64;
        let mut count: u32 = 0;
        if self.alive_at(x - 1, y - 1) {
            count += 1;
        }
        if self.alive_at(x - 1, y) {
            count += 1;
        }
        if self.alive_at(x - 1, y + 1) {
            count += 1;
        }
        if self.alive_at(x, y - 1) {
            count += 1;
        }
        if self.alive_at(x, y + 1) {
            count += 1;
        }
        if self.alive_at(x + 1, y - 1) {
            count += 1;
        }
        if self.alive_at(x + 1, y) {
            count += 1;
        }
        if self.alive_at(x + 1, y + 1) {
            count += 1;
        }
        count
    }

    /// Advances the field by one generation.
    ///
    /// Only the alive cells and the cells around them can be alive in the next
    /// generation, so only those are examined: each alive cell is kept when it
    /// has two or three alive neighbours, and each of its neighbours with
    /// exactly three alive neighbours is added. The new set then replaces the old.
    pub fn step(&mut self)
        requires
            old(self)@.has_margin(),
            old(self)@.generation < u32::MAX,
        ensures
            final(self)@ == old(self)@.advanced(),
    {
        let ghost s = self@.alive;
        let mut next: HashSet<u64> = HashSet::new();
        // the keys visited so far, in order
        let ghost mut seen: Seq<u64> = Seq::empty();
        for k in it: self.alive_cells.iter()
            invariant
                s == self@.alive,
                self@.has_margin(),
                seen == it.seq().unref().subrange(0, it.index() as int),
                it.index() == it.seq().len() ==> seen.to_set() == self.alive_cells@,
                forall|c: (int, int)| #[trigger]
                    cells_of_keys(next@).contains(c) ==> alive_next(s, c),
                forall|j: int|
                    0 <= j < seen.len() && alive_next(s, #[trigger] cell_of_key(seen[j] as int))
                        ==> cells_of_keys(next@).contains(cell_of_key(seen[j] as int)),
                forall|j: int, c: (int, int)|
                    0 <= j < seen.len() && #[trigger] adjacent(c, cell_of_key(seen[j] as int))
                        && neighbour_count(s, c.0, c.1) == 3 ==> cells_of_keys(next@).contains(c),
        {
            let ghost j = it.index() as int;
            proof {
                assert(it.seq().unref()[j] == *k);
                assert(self.alive_cells@.contains(*k)) by {
                    assert(it.seq().unref().to_set().contains(*k));
                }
            }
            let (x, y) = decode(*k);
            self.add_successors(x, y, &mut next);
            proof {
                seen = seen.push(*k);
            }
            assert(seen =~= it.seq().unref().subrange(0, j + 1));
            assert(j + 1 == it.seq().len() ==> seen =~= it.seq().unref()) by {
                if j + 1 == it.seq().len() {
                    assert(seen =~= it.seq().unref());
                }
            }
        }
        proof {
            assert forall|c: (int, int)| alive_next(s, c) implies #[trigger] cells_of_keys(
                next@,
            ).contains(c) by {
                let d = if s.contains(c) {
                    c
                } else {
                    lemma_counted_neighbour(s, c);
                    choose|d: (int, int)| s.contains(d) && adjacent(c, d)
                };
                assert(seen.to_set().contains(key_of(d.0, d.1) as u64));
                let i = choose|i: int| 0 <= i < seen.len() && seen[i] == key_of(d.0, d.1) as u64;
                lemma_key_of_cell(d.0, d.1);
                assert(cell_of_key(seen[i] as int) == d);
            }
            assert(cells_of_keys(next@) =~= next_alive(s));
        }
        self.alive_cells = next;
        self.step = self.step + 1;
    }

    /// Adds to `next` the cells around the alive cell `(x, y)`, itself
    /// included, that are alive in the next generation: `(x, y)` when it
    /// survives, and each neighbour with exactly three alive neighbours.
    fn add_successors(&self, x: i32, y: i32, next: &mut HashSet<u64>)
        requires
            self@.has_margin(),
            self@.alive.contains((x as int, y as int)),
            forall|c: (int, int)| #[trigger]
                cells_of_keys(old(next)@).contains(c) ==> alive_next(self@.alive, c),
        ensures
            old(next)@.subset_of(final(next)@),
            forall|c: (int, int)| #[trigger]
                cells_of_keys(final(next)@).contains(c) ==> alive_next(self@.alive, c),
            alive_next(self@.alive, (x as int, y as int)) ==> cells_of_keys(final(next)@).contains(
                (x as int, y as int),
            ),
            forall|c: (int, int)|
                #[trigger] adjacent(c, (x as int, y as int)) && neighbour_count(
                    self@.alive,
                    c.0,
                    c.1,
                ) == 3 ==> cells_of_keys(final(next)@).contains(c),
    {
        let ghost s = self@.alive;
        let ghost a = (x as int, y as int);
        // An alive cell survives with two or three alive neighbours.
        let n = self.count_alive_neighbours(x, y);
        if n == 2 || n == 3 {
            next.insert(encode(x, y));
            proof {
                assert forall|c: (int, int)| #[trigger]
                    cells_of_keys(next@).contains(c) implies alive_next(s, c) by {
                    if !cells_of_keys(old(next)@).contains(c) {
                        lemma_key_injective(c, a);
                    }
                }
            }
        }
        // A neighbour with exactly three alive neighbours is alive next.
        let neighbours = self.get_neighbors(x, y);
        for t in 0..8usize
            invariant
                s == self@.alive,
                a == (x as int, y as int),
                neighbours@.len() == 8,
                forall|i: int|
                    0 <= i < 8 ==> (neighbours@[i].0 as int, neighbours@[i].1 as int)
                        == #[trigger] neighbour_list(a.0, a.1)[i],
                old(next)@.subset_of(next@),
                forall|c: (int, int)| #[trigger]
                    cells_of_keys(next@).contains(c) ==> alive_next(s, c),
                alive_next(s, a) ==> cells_of_keys(next@).contains(a),
                forall|i: int|
                    0 <= i < t && neighbour_count(
                        s,
                        #[trigger] neighbour_list(a.0, a.1)[i].0,
                        neighbour_list(a.0, a.1)[i].1,
                    ) == 3 ==> cells_of_keys(next@).contains(neighbour_list(a.0, a.1)[i]),
        {
            let (nx, ny) = neighbours[t];
            let ghost before = next@;
            if self.count_alive_neighbours(nx, ny) == 3 {
                next.insert(encode(nx, ny));
                proof {
                    assert forall|c: (int, int)| #[trigger]
                        cells_of_keys(next@).contains(c) implies alive_next(s, c) by {
                        if !cells_of_keys(before).contains(c) {
                            lemma_key_injective(c, (nx as int, ny as int));
                        }
                    }
                }
            }
        }
        proof {
            assert forall|c: (int, int)|
                #[trigger] adjacent(c, a) && neighbour_count(s, c.0, c.1) == 3 implies cells_of_keys(
                next@,
            ).contains(c) by {
                lemma_neighbour_list(a.0, a.1, c);
                let i = choose|i: int| 0 <= i < 8 && neighbour_list(a.0, a.1)[i] == c;
                assert(neighbour_list(a.0, a.1)[i] == c);
            }
        }
    }

    /// The eight neighbours of `(x, y)`, counterclockwise from the east.
    fn get_neighbors(&self, x: i32, y: i32) -> (r: Vec<(i32, i32)>)
        requires
            inner_cell((x as int, y as int)),
        ensures
            r@.len() == 8,
            forall|i: int|
                0 <= i < 8 ==> (r@[i].0 as int, r@[i].1 as int) == #[trigger] neighbour_list(
                    x as int,
                    y as int,
                )[i],
    {
        vec![
            (x + 1, y),
            (x + 1, y + 1),
            (x, y + 1),
            (x - 1, y + 1),
            (x - 1, y),
            (x - 1, y - 1),
            (x, y - 1),
            (x + 1, y - 1),
        ]
    }

    /// A picture of the rectangle with `x` between `min_x` and `max_x` and `y`
    /// between `min_y` and `max_y`, bounds included; each pair of bounds may
    /// come in either order. Each line shows one `x`, from the largest down,
    /// with one glyph per `y`, from the smallest up, and ends with a newline.
    pub fn data_as_str(&self, min_x: i32, max_x: i32, min_y: i32, max_y: i32) -> (r: String)
        ensures
            r@ == picture(self@.alive, min_x as int, max_x as int, min_y as int, max_y as int),
    {
        let (x_lo, x_hi) = if min_x <= max_x {
            (min_x as i64, max_x as i64)
        } else {
            (max_x as i64, min_x as i64)
        };
        let (y_lo, y_hi) = if min_y <= max_y {
            (min_y as i64, max_y as i64)
        } else {
            (max_y as i64, min_y as i64)
        };
        let ghost s = self@.alive;
        let ghost cols = (y_hi - y_lo + 1) as nat;
        let mut out = String::new();
        let mut x: i64 = x_hi;
        while x >= x_lo
            invariant
                s == self@.alive,
                x_lo <= x_hi,
                x_lo - 1 <= x <= x_hi,
                y_lo <= y_hi,
                i32::MIN <= x_lo && x_hi <= i32::MAX,
                i32::MIN <= y_lo && y_hi <= i32::MAX,
                cols == y_hi - y_lo + 1,
                out@ == picture_lines(s, x_hi as int, (x_hi - x) as nat, y_lo as int, cols),
            decreases x + 1 - x_lo,
        {
            let ghost done = out@;
            let mut y: i64 = y_lo;
            while y <= y_hi
                invariant
                    s == self@.alive,
                    y_lo <= y <= y_hi + 1,
                    i32::MIN <= y_lo && y_hi <= i32::MAX,
                    x_lo <= x <= x_hi,
                    i32::MIN <= x_lo && x_hi <= i32::MAX,
                    out@ == done + picture_row(s, x as int, y_lo as int, (y - y_lo) as nat),
                decreases y_hi + 1 - y,
            {
                let alive = self.alive_at(x, y);
                push_char(&mut out, if alive { '\u{2b1c}' } else { '\u{2b1b}' });
                assert(picture_row(s, x as int, y_lo as int, (y + 1 - y_lo) as nat) =~= picture_row(
                    s,
                    x as int,
                    y_lo as int,
                    (y - y_lo) as nat,
                ).push(glyph(alive)));
                y = y + 1;
            }
            push_char(&mut out, '\n');
            assert(out@ =~= picture_lines(s, x_hi as int, (x_hi - x + 1) as nat, y_lo as int, cols));
            x = x - 1;
        }
        out
    }

    /// The alive cells that lie in the rectangle `area = (min_x, min_y, max_x, max_y)`,
    /// bounds included; each pair of bounds may come in either order.
    /// Each such cell appears once, in no particular order.
    pub fn data_as_vec(&self, area: (i32, i32, i32, i32)) -> (r: Vec<(i32, i32)>)
        ensures
            r@.no_duplicates(),
            cells_of_seq(r@) == window(
                self@.alive,
                area.0 as int,
                area.1 as int,
                area.2 as int,
                area.3 as int,
            ),
    {
        let (x1, y1, x2, y2) = area;
        let (min_x, max_x) = if x1 <= x2 {
            (x1, x2)
        } else {
            (x2, x1)
        };
        let (min_y, max_y) = if y1 <= y2 {
            (y1, y2)
        } else {
            (y2, y1)
        };
        let ghost w = window(self@.alive, x1 as int, y1 as int, x2 as int, y2 as int);
        let mut r: Vec<(i32, i32)> = Vec::new();
        let ghost mut seen: Seq<u64> = Seq::empty();
        for k in it: self.alive_cells.iter()
            invariant
                w == window(self@.alive, x1 as int, y1 as int, x2 as int, y2 as int),
                min_x == low(x1 as int, x2 as int) && max_x == high(x1 as int, x2 as int),
                min_y == low(y1 as int, y2 as int) && max_y == high(y1 as int, y2 as int),
                seen == it.seq().unref().subrange(0, it.index() as int),
                it.seq().unref().no_duplicates(),
                it.seq().unref().to_set() == self.alive_cells@,
                it.index() == it.seq().len() ==> seen.to_set() == self.alive_cells@,
                r@.no_duplicates(),
                forall|i: int| 0 <= i < r@.len() ==> w.contains(#[trigger] pair_of(r@[i])),
                forall|i: int|
                    0 <= i < r@.len() ==> seen.contains(
                        key_of(#[trigger] pair_of(r@[i]).0, pair_of(r@[i]).1) as u64,
                    ),
                forall|j: int|
                    0 <= j < seen.len() && w.contains(#[trigger] cell_of_key(seen[j] as int))
                        ==> cells_of_seq(r@).contains(cell_of_key(seen[j] as int)),
        {
            let ghost j = it.index() as int;
            proof {
                assert(it.seq().unref()[j] == *k);
                assert(it.seq().unref().to_set().contains(*k));
            }
            let (x, y) = decode(*k);
            let ghost c = (x as int, y as int);
            let ghost r0 = r@;
            let ghost seen0 = seen;
            if min_x <= x && x <= max_x && min_y <= y && y <= max_y {
                proof {
                    assert forall|i: int| 0 <= i < r@.len() implies pair_of(r@[i]) != c by {
                        let j2 = choose|j2: int|
                            0 <= j2 < seen.len() && seen[j2] == key_of(
                                pair_of(r@[i]).0,
                                pair_of(r@[i]).1,
                            ) as u64;
                        assert(it.seq().unref()[j2] == seen[j2]);
                    }
                }
                r.push((x, y));
            }
            proof {
                seen = seen.push(*k);
                assert forall|i: int| 0 <= i < r@.len() implies seen.contains(
                    key_of(#[trigger] pair_of(r@[i]).0, pair_of(r@[i]).1) as u64,
                ) by {
                    if i < r0.len() {
                        assert(r@[i] == r0[i]);
                        let j2 = choose|j2: int|
                            0 <= j2 < seen0.len() && seen0[j2] == key_of(
                                pair_of(r0[i]).0,
                                pair_of(r0[i]).1,
                            ) as u64;
                        assert(seen[j2] == seen0[j2]);
                    } else {
                        assert(seen[j] == key_of(c.0, c.1));
                    }
                }
                assert forall|j2: int|
                    0 <= j2 < seen.len() && w.contains(
                        #[trigger] cell_of_key(seen[j2] as int),
                    ) implies cells_of_seq(r@).contains(cell_of_key(seen[j2] as int)) by {
                    if j2 < j {
                        assert(seen[j2] == seen0[j2]);
                        assert(cells_of_seq(r0).contains(cell_of_key(seen0[j2] as int)));
                        let i = choose|i: int|
                            0 <= i < r0.len() && pair_of(r0[i]) == cell_of_key(seen0[j2] as int);
                        assert(r@[i] == r0[i]);
                    } else {
                        assert(pair_of(r@[r@.len() - 1]) == c);
                    }
                }
            }
            assert(seen =~= it.seq().unref().subrange(0, j + 1));
            assert(j + 1 == it.seq().len() ==> seen =~= it.seq().unref()) by {
                if j + 1 == it.seq().len() {
                    assert(seen =~= it.seq().unref());
                }
            }
        }
        proof {
            assert forall|c: (int, int)| w.contains(c) implies #[trigger] cells_of_seq(
                r@,
            ).contains(c) by {
                assert(seen.to_set().contains(key_of(c.0, c.1) as u64));
                let i = choose|i: int| 0 <= i < seen.len() && seen[i] == key_of(c.0, c.1) as u64;
                lemma_key_of_cell(c.0, c.1);
                assert(cell_of_key(seen[i] as int) == c);
            }
            assert(cells_of_seq(r@) =~= w);
        }
        r
    }

    /// Number of alive cells.
    pub fn count_alive_cells(&self) -> (r: usize)
        ensures
            r == self@.alive.len(),
    {
        proof {
            lemma_cells_of_keys_len(self.alive_cells@);
        }
        self.alive_cells.len()
    }

    /// Number of generations computed since creation or the last clear.
    pub fn get_steps_count(&self) -> (r: u32)
        ensures
            r == self@.generation,
    {
        self.step
    }

    /// Kills every cell and sets the generation back to zero.
    pub fn clear_cells(&mut self)
        ensures
            final(self)@ == old(self)@.cleared(),
    {
        self.alive_cells.clear();
        self.step = 0;
        assert(self@.alive =~= Set::empty());
    }

    /// Makes the cell `(x, y)` alive; an alive cell stays alive.
    pub fn add_alive_cell(&mut self, x: i32, y: i32)
        ensures
            final(self)@ == (LifeState {
                alive: old(self)@.alive.insert((x as int, y as int)),
                generation: old(self)@.generation,
            }),
    {
        let k = encode(x, y);
        proof {
            lemma_key_of_cell(x as int, y as int);
            assert forall|d: (int, int)|
                representable(d) && key_of(d.0, d.1) == k implies d == (x as int, y as int) by {
                lemma_key_injective(d, (x as int, y as int));
            }
        }
        self.alive_cells.insert(k);
        assert(self@.alive =~= old(self)@.alive.insert((x as int, y as int)));
    }

    /// Whether `step` may be called: every alive cell has all its neighbours
    /// in the `i32` range, and the generation counter can still grow.
    pub fn can_step(&self) -> (r: bool)
        ensures
            r == (self@.has_margin() && self@.generation < u32::MAX),
    {
        if self.step == u32::MAX {
            return false;
        }
        let ghost mut seen: Seq<u64> = Seq::empty();
        for k in it: self.alive_cells.iter()
            invariant
                seen == it.seq().unref().subrange(0, it.index() as int),
                it.seq().unref().to_set() == self.alive_cells@,
                it.index() == it.seq().len() ==> seen.to_set() == self.alive_cells@,
                forall|j: int| 0 <= j < seen.len() ==> inner_cell(#[trigger] cell_of_key(seen[j] as int)),
        {
            let ghost j = it.index() as int;
            proof {
                assert(it.seq().unref()[j] == *k);
                assert(it.seq().unref().to_set().contains(*k));
            }
            let (x, y) = decode(*k);
            if x == i32::MIN || x == i32::MAX || y == i32::MIN || y == i32::MAX {
                proof {
                    assert(self@.alive.contains((x as int, y as int)));
                }
                return false;
            }
            proof {
                seen = seen.push(*k);
            }
            assert(seen =~= it.seq().unref().subrange(0, j + 1));
            assert(j + 1 == it.seq().len() ==> seen =~= it.seq().unref()) by {
                if j + 1 == it.seq().len() {
                    assert(seen =~= it.seq().unref());
                }
            }
        }
        proof {
            assert forall|c: (int, int)| #[trigger] self@.alive.contains(c) implies inner_cell(c) by {
                assert(seen.to_set().contains(key_of(c.0, c.1) as u64));
                let i = choose|i: int| 0 <= i < seen.len() && seen[i] == key_of(c.0, c.1) as u64;
                lemma_key_of_cell(c.0, c.1);
                assert(cell_of_key(seen[i] as int) == c);
            }
        }
        true
    }

    /// Makes alive, for each `k`, the cell `(x, y0 + k)` when `pattern[k]` holds;
    /// no cell dies.
    pub fn seed_column(&mut self, x: i32, y0: i32, pattern: &Vec<bool>)
        requires
            y0 + pattern@.len() <= i32::MAX + 1,
        ensures
            final(self)@ == (LifeState {
                alive: old(self)@.alive + column(x as int, y0 as int, pattern@),
                generation: old(self)@.generation,
            }),
    {
        let mut k: usize = 0;
        while k < pattern.len()
            invariant
                k <= pattern@.len(),
                y0 + pattern@.len() <= i32::MAX + 1,
                self@.generation == old(self)@.generation,
                self@.alive == old(self)@.alive + column(x as int, y0 as int, pattern@.take(k as int)),
            decreases pattern@.len() - k,
        {
            if pattern[k] {
                self.add_alive_cell(x, (y0 as i64 + k as i64) as i32);
            }
            assert(self@.alive =~= old(self)@.alive + column(
                x as int,
                y0 as int,
                pattern@.take(k + 1),
            ));
            k = k + 1;
        }
        assert(pattern@.take(pattern@.len() as int) =~= pattern@);
    }

    /// Makes each cell of the rectangle with corners `(min_x, min_y)` and
    /// `(max_x, max_y)` (bounds included, in either order) alive with
    /// probability 1/5, each cell drawn on its own; no cell dies.
    pub fn randomize_area(&mut self, min_x: i32, min_y: i32, max_x: i32, max_y: i32)
        ensures
            final(self)@.generation == old(self)@.generation,
            old(self)@.alive.subset_of(final(self)@.alive),
            forall|c: (int, int)| #[trigger]
                final(self)@.alive.contains(c) ==> old(self)@.alive.contains(c) || in_rect(
                    c,
                    min_x as int,
                    min_y as int,
                    max_x as int,
                    max_y as int,
                ),
    {
        let (x_lo, x_hi) = if min_x <= max_x {
            (min_x as i64, max_x as i64)
        } else {
            (max_x as i64, min_x as i64)
        };
        let (y_lo, y_hi) = if min_y <= max_y {
            (min_y as i64, max_y as i64)
        } else {
            (max_y as i64, min_y as i64)
        };
        let mut rng = rand::rng();
        let mut x: i64 = x_lo;
        while x <= x_hi
            invariant
                x_lo <= x <= x_hi + 1,
                i32::MIN <= x_lo && x_hi <= i32::MAX,
                i32::MIN <= y_lo <= y_hi <= i32::MAX,
                x_lo == low(min_x as int, max_x as int) && x_hi == high(min_x as int, max_x as int),
                y_lo == low(min_y as int, max_y as int) && y_hi == high(min_y as int, max_y as int),
                self@.generation == old(self)@.generation,
                old(self)@.alive.subset_of(self@.alive),
                forall|c: (int, int)| #[trigger]
                    self@.alive.contains(c) ==> old(self)@.alive.contains(c) || in_rect(
                        c,
                        min_x as int,
                        min_y as int,
                        max_x as int,
                        max_y as int,
                    ),
            decreases x_hi + 1 - x,
        {
            let mut draws: Vec<bool> = Vec::new();
            let mut y: i64 = y_lo;
            while y <= y_hi
                invariant
                    y_lo <= y <= y_hi + 1,
                    i32::MIN <= y_lo <= y_hi <= i32::MAX,
                    draws@.len() == y - y_lo,
                decreases y_hi + 1 - y,
            {
                draws.push(random_ratio(&mut rng, DENSITY_NUMERATOR, DENSITY_DENOMINATOR));
                y = y + 1;
            }
            self.seed_column(x as i32, y_lo as i32, &draws);
            x = x + 1;
        }
    }

    /// The cells of `area` as `data_as_vec` gives them, the generation and the
    /// number of alive cells, all read from the same state.
    pub fn snapshot(&self, area: (i32, i32, i32, i32)) -> (r: (Vec<(i32, i32)>, u32, usize))
        ensures
            r.0@.no_duplicates(),
            cells_of_seq(r.0@) == window(
                self@.alive,
                area.0 as int,
                area.1 as int,
                area.2 as int,
                area.3 as int,
            ),
            r.1 == self@.generation,
            r.2 == self@.alive.len(),
    {
        (self.data_as_vec(area), self.get_steps_count(), self.count_alive_cells())
    }

    /// A text report: the picture of the cells with `x` and `y` between 1 and 3,
    /// a blank line, then the generation and the number of alive cells.
    pub fn to_string(&self) -> (r: String)
        ensures
            r@ == picture(self@.alive, 1, 3, 1, 3) + "\n\nSTEP: "@ + decimal(self@.generation)
                + "\tALIVE CELLS: "@ + decimal(self@.alive.len()),
    {
        let mut out = self.data_as_str(1, 3, 1, 3);
        push_text(&mut out, "\n\nSTEP: ");
        push_decimal(&mut out, self.get_steps_count() as u64);
        push_text(&mut out, "\tALIVE CELLS: ");
        push_decimal(&mut out, self.count_alive_cells() as u64);
        out
    }

    /// Flips the cell `(pos_x, pos_y)`: an alive cell dies, a dead cell comes alive.
    pub fn change_cell_status(&mut self, pos_x: i32, pos_y: i32)
        ensures
            final(self)@ == old(self)@.toggled(pos_x as int, pos_y as int),
    {
        let k = encode(pos_x, pos_y);
        let ghost c = (pos_x as int, pos_y as int);
        proof {
            lemma_key_of_cell(c.0, c.1);
            assert forall|d: (int, int)| representable(d) && key_of(d.0, d.1) == k implies d == c by {
                lemma_key_injective(d, c);
            }
        }
        if self.alive_cells.contains(&k) {
            self.alive_cells.remove(&k);
            assert(self@.alive =~= old(self)@.alive.remove(c));
        } else {
            self.alive_cells.insert(k);
            assert(self@.alive =~= old(self)@.alive.insert(c));
        }
    }
}

} // verus!
