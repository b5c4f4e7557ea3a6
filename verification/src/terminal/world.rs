//! A world of individual live cells, grouped by 32x32 chunks, with the
//! fixed rule: a live cell survives with 2 or 4 live neighbours and a dead
//! cell is born with 2. Cells are only added at nonnegative coordinates.

use std::collections::{HashMap, HashSet};
use vstd::prelude::*;

pub use crate::geometry::Cord;
use crate::geometry::{in_i64, lemma_pack, lemma_pack_injective, lemma_unpack, pack, pack_spec, unpack, unpack_hi, unpack_lo, ChunkCord};
use crate::terminal::camera::{world_to_screen_spec, Camera};
use crate::world::{b2n, live_neighbors, next_alive};

verus! {

broadcast use vstd::std_specs::hash::group_hash_axioms;

/// Side length of a chunk, in cells.
pub const CHUNK_SIZE: i64 = 32;

/// The number of live neighbours, besides the birth count, with which a
/// live cell survives.
pub const SURVIVAL: usize = 4;

/// The number of live neighbours with which a dead cell is born.
pub const BIRTH: usize = 2;

/// The state of a stored cell.
#[derive(Clone, Copy, Debug, PartialEq, Eq, Structural)]
pub enum Cell {
    Alive,
    Dead,
}

/// The chunk coordinate of `v`: `v` divided by 32, rounded toward zero.
pub open spec fn trunc_chunk(v: int) -> int {
    if v >= 0 {
        v / 32
    } else {
        -((-v) / 32)
    }
}

/// The key of the chunk that holds the cell `(x, y)`.
pub open spec fn cell_chunk_key(x: int, y: int) -> int {
    pack_spec(trunc_chunk(x), trunc_chunk(y))
}

/// Whether `(x, y)` has a nonnegative position.
pub open spec fn nonneg(x: int, y: int) -> bool {
    x >= 0 && y >= 0
}

/// The live cells after one step of the fixed rule, kept to nonnegative
/// positions.
pub open spec fn step_result(cells: Set<(int, int)>) -> Set<(int, int)> {
    Set::new(|p: (int, int)| nonneg(p.0, p.1) && next_alive(cells, SURVIVAL as nat, BIRTH as nat, p.0, p.1))
}

/// Whether the live cells are far enough from the edges of the grid for a
/// step: every live cell has its eight neighbours on the grid, and each of
/// its nonnegative neighbours has its own.
pub open spec fn fits_step_bounds(cells: Set<(int, int)>) -> bool {
    forall|p: (int, int)| #[trigger]
        cells.contains(p) ==> {
            &&& i64::MIN < p.0 < i64::MAX
            &&& i64::MIN < p.1 < i64::MAX
            &&& p.0 == i64::MAX - 1 ==> p.1 < -1
            &&& p.1 == i64::MAX - 1 ==> p.0 < -1
        }
}

proof fn lemma_trunc_chunk(v: int)
    requires
        in_i64(v),
    ensures
        in_i64(trunc_chunk(v)),
        -0x400_0000_0000_0000 <= trunc_chunk(v) <= 0x400_0000_0000_0000,
{
}

proof fn lemma_chunk_key(x: int, y: int)
    requires
        in_i64(x),
        in_i64(y),
    ensures
        0 <= cell_chunk_key(x, y) <= u128::MAX,
{
    lemma_trunc_chunk(x);
    lemma_trunc_chunk(y);
    lemma_pack(trunc_chunk(x), trunc_chunk(y));
}

/// Whether the cell `(x, y)` is stored alive in the chunk map `m`.
spec fn map_alive(m: Map<u128, HashMap<u128, Cell>>, x: int, y: int) -> bool {
    let k = cell_chunk_key(x, y) as u128;
    let c = pack_spec(x, y) as u128;
    &&& in_i64(x)
    &&& in_i64(y)
    &&& m.contains_key(k)
    &&& m[k]@.contains_key(c)
    &&& m[k]@[c] == Cell::Alive
}

/// Every cell stored in `m` is alive and stored in its own chunk.
spec fn map_wf(m: Map<u128, HashMap<u128, Cell>>) -> bool {
    forall|k: u128, c: u128|
        #![trigger m[k]@.contains_key(c)]
        m.contains_key(k) && m[k]@.contains_key(c) ==> m[k]@[c] == Cell::Alive && cell_chunk_key(
            unpack_hi(c as int),
            unpack_lo(c as int),
        ) == k
}

/// The world.
pub struct World {
    chunks: HashMap<u128, HashMap<u128, Cell>>,
}

impl View for World {
    type V = Set<(int, int)>;

    /// The set of live cells.
    closed spec fn view(&self) -> Set<(int, int)> {
        Set::new(|p: (int, int)| self.alive(p.0, p.1))
    }
}

impl World {
    /// Whether the cell `(x, y)` is stored alive.
    closed spec fn alive(self, x: int, y: int) -> bool {
        map_alive(self.chunks@, x, y)
    }

    /// Every stored cell is alive and stored in its own chunk.
    pub closed spec fn wf(self) -> bool {
        map_wf(self.chunks@)
    }

    /// An empty world.
    pub fn new() -> (w: Self)
        ensures
            w.wf(),
            w@ == Set::<(int, int)>::empty(),
    {
        let w = World { chunks: HashMap::new() };
        assert(w@ =~= Set::<(int, int)>::empty());
        w
    }

    /// The chunk that holds the cell `cords` (division rounded toward zero).
    fn get_chunk_cords(&self, cords: Cord) -> (c: ChunkCord)
        ensures
            c.chunk_x == trunc_chunk(cords.x as int),
            c.chunk_y == trunc_chunk(cords.y as int),
    {
        ChunkCord { chunk_x: cords.x / CHUNK_SIZE, chunk_y: cords.y / CHUNK_SIZE }
    }

    /// The key of the chunk that holds `(x, y)`.
    fn chunk_key_of(&self, x: i64, y: i64) -> (k: u128)
        ensures
            k == cell_chunk_key(x as int, y as int),
    {
        let c = self.get_chunk_cords(Cord { x, y });
        proof {
            lemma_trunc_chunk(x as int);
            lemma_trunc_chunk(y as int);
        }
        pack(c.chunk_x, c.chunk_y)
    }

    /// Whether the cell `(x, y)` is alive.
    pub fn is_cell_alive(&self, x: i64, y: i64) -> (alive: bool)
        ensures
            alive == self@.contains((x as int, y as int)),
    {
        let k = self.chunk_key_of(x, y);
        let chunk = match self.chunks.get(&k) {
            Some(chunk) => chunk,
            None => return false,
        };
        match chunk.get(&pack(x, y)) {
            Some(Cell::Alive) => true,
            _ => false,
        }
    }

    /// The number of live neighbours of `cords`.
    fn get_alive_neighbors_count(&self, cords: Cord) -> (n: usize)
        requires
            i64::MIN < cords.x < i64::MAX,
            i64::MIN < cords.y < i64::MAX,
        ensures
            n == live_neighbors(self@, cords.x as int, cords.y as int),
    {
        let mut count: usize = 0;
        let mut dx: i64 = -1;
        while dx <= 1
            invariant
                -1 <= dx <= 2,
                i64::MIN < cords.x < i64::MAX,
                i64::MIN < cords.y < i64::MAX,
                count == Self::partial_count(self@, cords.x as int, cords.y as int, dx as int, -1),
            decreases 2 - dx,
        {
            let mut dy: i64 = -1;
            while dy <= 1
                invariant
                    -1 <= dx <= 1,
                    -1 <= dy <= 2,
                    i64::MIN < cords.x < i64::MAX,
                    i64::MIN < cords.y < i64::MAX,
                    count == Self::partial_count(
                        self@,
                        cords.x as int,
                        cords.y as int,
                        dx as int,
                        dy as int,
                    ),
                decreases 2 - dy,
            {
                if !(dx == 0 && dy == 0) {
                    let nx = cords.x + dx;
                    let ny = cords.y + dy;
                    if self.is_cell_alive(nx, ny) {
                        count += 1;
                    }
                }
                dy += 1;
            }
            dx += 1;
        }
        count
    }

    /// The live neighbours of `(x, y)` at the offsets before `(dx, dy)`,
    /// row by row.
    spec fn partial_count(cells: Set<(int, int)>, x: int, y: int, dx: int, dy: int) -> int {
        let row = |ex: int|
            b2n(cells.contains((x + ex, y - 1))) + b2n(ex != 0 && cells.contains((x + ex, y))) + b2n(
                cells.contains((x + ex, y + 1)),
            );
        let part = |ex: int, ey: int|
            if ey <= -1 {
                0
            } else if ey == 0 {
                b2n(cells.contains((x + ex, y - 1)))
            } else if ey == 1 {
                b2n(cells.contains((x + ex, y - 1))) + b2n(ex != 0 && cells.contains((x + ex, y)))
            } else {
                row(ex)
            };
        (if dx > -1 {
            row(-1)
        } else {
            0
        }) + (if dx > 0 {
            row(0)
        } else {
            0
        }) + (if dx > 1 {
            row(1)
        } else {
            0
        }) + (if -1 <= dx <= 1 {
            part(dx, dy)
        } else {
            0
        })
    }

    /// Whether the cell `(x, y)` is alive after a step.
    fn should_be_alive(&self, x: i64, y: i64) -> (r: bool)
        requires
            i64::MIN < x < i64::MAX,
            i64::MIN < y < i64::MAX,
        ensures
            r == next_alive(self@, SURVIVAL as nat, BIRTH as nat, x as int, y as int),
    {
        let neighbors = self.get_alive_neighbors_count(Cord { x, y });
        let is_alive = self.is_cell_alive(x, y);
        (!is_alive && neighbors == BIRTH) || (is_alive && (neighbors == SURVIVAL || neighbors
            == BIRTH))
    }

    /// Makes the cell `(x, y)` alive; cells at negative positions are
    /// ignored.
    pub fn animate_cell(&mut self, x: i64, y: i64)
        requires
            old(self).wf(),
        ensures
            final(self).wf(),
            nonneg(x as int, y as int) ==> final(self)@ == old(self)@.insert((x as int, y as int)),
            !nonneg(x as int, y as int) ==> final(self)@ == old(self)@,
    {
        if x < 0 || y < 0 {
            return;
        }
        self.set_cell(x, y, true);
    }

    /// Makes the cell `(x, y)` dead; cells at negative positions are
    /// ignored.
    pub fn kill_cell(&mut self, x: i64, y: i64)
        requires
            old(self).wf(),
        ensures
            final(self).wf(),
            nonneg(x as int, y as int) ==> final(self)@ == old(self)@.remove((x as int, y as int)),
            !nonneg(x as int, y as int) ==> final(self)@ == old(self)@,
    {
        if x < 0 || y < 0 {
            return;
        }
        self.set_cell(x, y, false);
    }

    /// Stores the cell `(x, y)` alive, or removes it; its chunk is kept.
    fn set_cell(&mut self, x: i64, y: i64, alive: bool)
        requires
            old(self).wf(),
        ensures
            final(self).wf(),
            alive ==> final(self)@ == old(self)@.insert((x as int, y as int)),
            !alive ==> final(self)@ == old(self)@.remove((x as int, y as int)),
    {
        let k = self.chunk_key_of(x, y);
        let c = pack(x, y);
        let mut chunk = match self.chunks.remove(&k) {
            Some(m) => m,
            None => HashMap::new(),
        };
        if alive {
            chunk.insert(c, Cell::Alive);
        } else {
            chunk.remove(&c);
        }
        self.chunks.insert(k, chunk);
        proof {
            lemma_chunk_key(x as int, y as int);
            lemma_pack(x as int, y as int);
            assert forall|kk: u128, cc: u128|
                #![trigger self.chunks@[kk]@.contains_key(cc)]
                self.chunks@.contains_key(kk) && self.chunks@[kk]@.contains_key(cc) implies self.chunks@[kk]@[cc]
                    == Cell::Alive && cell_chunk_key(unpack_hi(cc as int), unpack_lo(cc as int)) == kk by {
                if kk == k && cc != c {
                    assert(old(self).chunks@[kk]@.contains_key(cc));
                }
            }
            assert forall|p: (int, int)| #[trigger] self@.contains(p) == (if alive {
                old(self)@.insert((x as int, y as int))
            } else {
                old(self)@.remove((x as int, y as int))
            }).contains(p) by {
                if in_i64(p.0) && in_i64(p.1) {
                    lemma_chunk_key(p.0, p.1);
                    lemma_pack(p.0, p.1);
                    if pack_spec(p.0, p.1) == pack_spec(x as int, y as int) {
                        lemma_pack_injective(p.0, p.1, x as int, y as int);
                    }
                }
            }
            if alive {
                assert(self@ =~= old(self)@.insert((x as int, y as int)));
            } else {
                assert(self@ =~= old(self)@.remove((x as int, y as int)));
            }
        }
    }
}

/// Whether `q` is one of the eight neighbours of `p`.
pub open spec fn is_neighbor(p: (int, int), q: (int, int)) -> bool {
    -1 <= q.0 - p.0 <= 1 && -1 <= q.1 - p.1 <= 1 && q != p
}

/// A live neighbour adds to the count of live neighbours.
proof fn lemma_live_neighbor_counts(cells: Set<(int, int)>, p: (int, int), q: (int, int))
    requires
        cells.contains(p),
        is_neighbor(p, q),
    ensures
        live_neighbors(cells, q.0, q.1) > 0,
{
}

/// A cell with live neighbours has a live neighbour.
proof fn lemma_some_live_neighbor(cells: Set<(int, int)>, q: (int, int)) -> (p: (int, int))
    requires
        live_neighbors(cells, q.0, q.1) > 0,
    ensures
        cells.contains(p),
        is_neighbor(p, q),
{
    let (x, y) = q;
    if cells.contains((x - 1, y - 1)) {
        (x - 1, y - 1)
    } else if cells.contains((x - 1, y)) {
        (x - 1, y)
    } else if cells.contains((x - 1, y + 1)) {
        (x - 1, y + 1)
    } else if cells.contains((x, y - 1)) {
        (x, y - 1)
    } else if cells.contains((x, y + 1)) {
        (x, y + 1)
    } else if cells.contains((x + 1, y - 1)) {
        (x + 1, y - 1)
    } else if cells.contains((x + 1, y)) {
        (x + 1, y)
    } else {
        (x + 1, y + 1)
    }
}

/// Whether `a` comes before `b`, by column and then by row.
spec fn cord_before(a: Cord, b: Cord) -> bool {
    a.x < b.x || (a.x == b.x && a.y < b.y)
}

impl World {
    /// The neighbours of `cords` at nonnegative positions, each once, in
    /// order of their column and then of their row.
    fn neighbors(&self, cords: Cord) -> (r: Vec<Cord>)
        requires
            i64::MIN < cords.x < i64::MAX,
            i64::MIN < cords.y < i64::MAX,
        ensures
            forall|i: int|
                #![trigger r@[i]]
                0 <= i < r.len() ==> nonneg(r@[i].x as int, r@[i].y as int) && is_neighbor(
                    (cords.x as int, cords.y as int),
                    (r@[i].x as int, r@[i].y as int),
                ),
            forall|x: int, y: int|
                #![trigger is_neighbor((cords.x as int, cords.y as int), (x, y))]
                nonneg(x, y) && is_neighbor((cords.x as int, cords.y as int), (x, y)) ==> r@.contains(
                    Cord { x: x as i64, y: y as i64 },
                ),
            forall|i: int, j: int| 0 <= i < j < r.len() ==> cord_before(#[trigger] r@[i], #[trigger] r@[j]),
    {
        let mut neighbors: Vec<Cord> = Vec::new();
        let mut dx: i64 = -1;
        while dx <= 1
            invariant
                -1 <= dx <= 2,
                i64::MIN < cords.x < i64::MAX,
                i64::MIN < cords.y < i64::MAX,
                forall|i: int|
                    #![trigger neighbors@[i]]
                    0 <= i < neighbors.len() ==> nonneg(neighbors@[i].x as int, neighbors@[i].y as int)
                        && is_neighbor(
                        (cords.x as int, cords.y as int),
                        (neighbors@[i].x as int, neighbors@[i].y as int),
                    ),
                forall|x: int, y: int|
                    #![trigger is_neighbor((cords.x as int, cords.y as int), (x, y))]
                    nonneg(x, y) && is_neighbor((cords.x as int, cords.y as int), (x, y)) && x - cords.x
                        < dx ==> neighbors@.contains(Cord { x: x as i64, y: y as i64 }),
                forall|i: int, j: int|
                    0 <= i < j < neighbors.len() ==> cord_before(
                        #[trigger] neighbors@[i],
                        #[trigger] neighbors@[j],
                    ),
                forall|i: int| 0 <= i < neighbors.len() ==> #[trigger] neighbors@[i].x - cords.x < dx,
            decreases 2 - dx,
        {
            let mut dy: i64 = -1;
            while dy <= 1
                invariant
                    -1 <= dx <= 1,
                    -1 <= dy <= 2,
                    i64::MIN < cords.x < i64::MAX,
                    i64::MIN < cords.y < i64::MAX,
                    forall|i: int|
                        #![trigger neighbors@[i]]
                        0 <= i < neighbors.len() ==> nonneg(
                            neighbors@[i].x as int,
                            neighbors@[i].y as int,
                        ) && is_neighbor(
                            (cords.x as int, cords.y as int),
                            (neighbors@[i].x as int, neighbors@[i].y as int),
                        ),
                    forall|x: int, y: int|
                        #![trigger is_neighbor((cords.x as int, cords.y as int), (x, y))]
                        nonneg(x, y) && is_neighbor((cords.x as int, cords.y as int), (x, y)) && (x
                            - cords.x < dx || (x - cords.x == dx && y - cords.y < dy))
                            ==> neighbors@.contains(Cord { x: x as i64, y: y as i64 }),
                    forall|i: int, j: int|
                        0 <= i < j < neighbors.len() ==> cord_before(
                            #[trigger] neighbors@[i],
                            #[trigger] neighbors@[j],
                        ),
                    forall|i: int|
                        0 <= i < neighbors.len() ==> #[trigger] neighbors@[i].x - cords.x < dx || (
                        neighbors@[i].x - cords.x == dx && neighbors@[i].y - cords.y < dy),
                decreases 2 - dy,
            {
                let ghost before = neighbors@;
                if !(dx == 0 && dy == 0) {
                    let nx = cords.x + dx;
                    let ny = cords.y + dy;
                    if !(nx < 0 || ny < 0) {
                        neighbors.push(Cord { x: nx, y: ny });
                        proof {
                            assert(neighbors@[neighbors.len() - 1] == Cord { x: nx, y: ny });
                            assert forall|i: int|
                                #![trigger neighbors@[i]]
                                0 <= i < neighbors.len() implies nonneg(
                                    neighbors@[i].x as int,
                                    neighbors@[i].y as int,
                                ) && is_neighbor(
                                    (cords.x as int, cords.y as int),
                                    (neighbors@[i].x as int, neighbors@[i].y as int),
                                ) by {
                                if i < before.len() {
                                    assert(neighbors@[i] == before[i]);
                                }
                            }
                        }
                    }
                }
                proof {
                    assert forall|x: int, y: int|
                        #![trigger is_neighbor((cords.x as int, cords.y as int), (x, y))]
                        nonneg(x, y) && is_neighbor((cords.x as int, cords.y as int), (x, y)) && (x
                            - cords.x < dx || (x - cords.x == dx && y - cords.y < dy + 1))
                            implies neighbors@.contains(Cord { x: x as i64, y: y as i64 }) by {
                        if x - cords.x == dx && y - cords.y == dy {
                            assert(neighbors@[neighbors.len() - 1] == Cord { x: x as i64, y: y as i64 });
                        } else {
                            let c = Cord { x: x as i64, y: y as i64 };
                            assert(before.contains(c));
                            let i = choose|i: int| 0 <= i < before.len() && before[i] == c;
                            assert(neighbors@[i] == c);
                        }
                    }
                }
                dy += 1;
            }
            dx += 1;
        }
        neighbors
    }
}

impl World {
    /// Every key of `to_check` is that of a nonnegative cell with a live
    /// neighbour.
    spec fn check_sound(self, to_check: Set<u128>) -> bool {
        forall|k: u128| #[trigger]
            to_check.contains(k) ==> nonneg(unpack_hi(k as int), unpack_lo(k as int))
                && live_neighbors(self@, unpack_hi(k as int), unpack_lo(k as int)) > 0
    }

    /// `to_check` holds the key of every nonnegative neighbour of the cell
    /// `p`.
    spec fn neighbors_checked(to_check: Set<u128>, p: (int, int)) -> bool {
        forall|x: int, y: int|
            #![trigger is_neighbor(p, (x, y))]
            nonneg(x, y) && is_neighbor(p, (x, y)) ==> to_check.contains(pack_spec(x, y) as u128)
    }

    /// Adds the keys of the nonnegative neighbours of the live cell `p`.
    fn check_neighbors_of(&self, to_check: &mut HashSet<u128>, x: i64, y: i64)
        requires
            self.wf(),
            fits_step_bounds(self@),
            self@.contains((x as int, y as int)),
            self.check_sound(old(to_check)@),
        ensures
            self.check_sound(final(to_check)@),
            old(to_check)@.subset_of(final(to_check)@),
            Self::neighbors_checked(final(to_check)@, (x as int, y as int)),
    {
        let cords = Cord { x, y };
        let ns = self.neighbors(cords);
        assert forall|a: int, b: int|
            #![trigger is_neighbor((x as int, y as int), (a, b))]
            nonneg(a, b) && is_neighbor((x as int, y as int), (a, b)) implies ns@.contains(
                Cord { x: a as i64, y: b as i64 },
            ) by {
            assert(is_neighbor((cords.x as int, cords.y as int), (a, b)));
        }
        let mut j: usize = 0;
        let ghost start = to_check@;
        while j < ns.len()
            invariant
                j <= ns.len(),
                self.check_sound(to_check@),
                start.subset_of(to_check@),
                self@.contains((x as int, y as int)),
                forall|i: int|
                    #![trigger ns@[i]]
                    0 <= i < ns.len() ==> nonneg(ns@[i].x as int, ns@[i].y as int) && is_neighbor(
                        (x as int, y as int),
                        (ns@[i].x as int, ns@[i].y as int),
                    ),
                forall|i: int|
                    #![trigger ns@[i]]
                    0 <= i < j ==> to_check@.contains(pack_spec(ns@[i].x as int, ns@[i].y as int) as u128),
                forall|a: int, b: int|
                    #![trigger is_neighbor((x as int, y as int), (a, b))]
                    nonneg(a, b) && is_neighbor((x as int, y as int), (a, b)) ==> ns@.contains(
                        Cord { x: a as i64, y: b as i64 },
                    ),
            decreases ns.len() - j,
        {
            let q = ns[j];
            proof {
                lemma_pack(q.x as int, q.y as int);
                lemma_live_neighbor_counts(self@, (x as int, y as int), (q.x as int, q.y as int));
            }
            to_check.insert(pack(q.x, q.y));
            j += 1;
        }
        proof {
            assert forall|a: int, b: int|
                #![trigger is_neighbor((x as int, y as int), (a, b))]
                nonneg(a, b) && is_neighbor((x as int, y as int), (a, b)) implies to_check@.contains(
                    pack_spec(a, b) as u128,
                ) by {
                let c = Cord { x: a as i64, y: b as i64 };
                assert(ns@.contains(c));
                let i = choose|i: int| 0 <= i < ns.len() && ns@[i] == c;
                assert(ns@[i] == c);
                assert(to_check@.contains(pack_spec(ns@[i].x as int, ns@[i].y as int) as u128));
            }
        }
    }

    /// The keys of the nonnegative cells next to a live cell.
    fn collect_to_check(&self) -> (to_check: HashSet<u128>)
        requires
            self.wf(),
            fits_step_bounds(self@),
        ensures
            self.check_sound(to_check@),
            forall|p: (int, int)| #[trigger]
                self@.contains(p) ==> Self::neighbors_checked(to_check@, p),
    {
        let mut to_check: HashSet<u128> = HashSet::new();
        let ghost mut done: Set<u128> = Set::empty();
        for key in it: self.chunks.keys()
            invariant
                self.wf(),
                fits_step_bounds(self@),
                self.check_sound(to_check@),
                done.subset_of(self.chunks@.dom()),
                forall|kk: u128|
                    #![trigger self.chunks@.contains_key(kk)]
                    self.chunks@.contains_key(kk) ==> done.contains(kk) || (exists|j: int|
                        it.index() <= j < it.seq().len() && *it.seq()[j] == kk),
                forall|kk: u128, c: u128|
                    #![trigger self.chunks@[kk]@.contains_key(c)]
                    done.contains(kk) && self.chunks@[kk]@.contains_key(c) ==> Self::neighbors_checked(
                        to_check@,
                        (unpack_hi(c as int), unpack_lo(c as int)),
                    ),
        {
            let k = *key;
            proof {
                assert(it.seq().unref()[it.index() as int] == k);
                assert(it.seq().unref().to_set().contains(k));
            }
            let chunk = self.chunks.get(&k).unwrap();
            let ghost mut inner_done: Set<u128> = Set::empty();
            let ghost before = to_check@;
            for c in it2: chunk.keys()
                invariant
                    self.wf(),
                    fits_step_bounds(self@),
                    self.check_sound(to_check@),
                    self.chunks@.contains_key(k),
                    self.chunks@[k] == *chunk,
                    before.subset_of(to_check@),
                    inner_done.subset_of(chunk@.dom()),
                    forall|cc: u128|
                        #![trigger chunk@.contains_key(cc)]
                        chunk@.contains_key(cc) ==> inner_done.contains(cc) || (exists|j: int|
                            it2.index() <= j < it2.seq().len() && *it2.seq()[j] == cc),
                    forall|cc: u128|
                        #![trigger inner_done.contains(cc)]
                        inner_done.contains(cc) ==> Self::neighbors_checked(
                            to_check@,
                            (unpack_hi(cc as int), unpack_lo(cc as int)),
                        ),
            {
                let cc = *c;
                proof {
                    assert(it2.seq().unref()[it2.index() as int] == cc);
                    assert(it2.seq().unref().to_set().contains(cc));
                    assert(chunk@.contains_key(cc));
                    lemma_unpack(cc as int);
                    assert(self.chunks@[k]@.contains_key(cc));
                    assert(self.alive(unpack_hi(cc as int), unpack_lo(cc as int)));
                    assert(self@.contains((unpack_hi(cc as int), unpack_lo(cc as int))));
                }
                let (x, y) = unpack(cc);
                let ghost mid = to_check@;
                self.check_neighbors_of(&mut to_check, x, y);
                proof {
                    let old_inner = inner_done;
                    inner_done = inner_done.insert(cc);
                    assert forall|d: u128|
                        #![trigger inner_done.contains(d)]
                        inner_done.contains(d) implies Self::neighbors_checked(
                            to_check@,
                            (unpack_hi(d as int), unpack_lo(d as int)),
                        ) by {
                        if d != cc {
                            assert(old_inner.contains(d));
                            let pd = (unpack_hi(d as int), unpack_lo(d as int));
                            assert forall|a: int, b: int|
                                #![trigger is_neighbor(pd, (a, b))]
                                nonneg(a, b) && is_neighbor(pd, (a, b)) implies to_check@.contains(
                                    pack_spec(a, b) as u128,
                                ) by {
                                assert(mid.contains(pack_spec(a, b) as u128));
                            }
                        }
                    }
                    assert forall|d: u128|
                        #![trigger chunk@.contains_key(d)]
                        chunk@.contains_key(d) implies inner_done.contains(d) || (exists|j: int|
                            it2.index() + 1 <= j < it2.seq().len() && *it2.seq()[j] == d) by {
                        if !old_inner.contains(d) {
                            let j = choose|j: int|
                                it2.index() <= j < it2.seq().len() && *it2.seq()[j] == d;
                            if j == it2.index() {
                                assert(d == cc);
                            }
                        }
                    }
                }
            }
            proof {
                assert(inner_done =~= chunk@.dom());
                let old_done = done;
                done = done.insert(k);
                assert forall|kk: u128, c: u128|
                    #![trigger self.chunks@[kk]@.contains_key(c)]
                    done.contains(kk) && self.chunks@[kk]@.contains_key(c) implies Self::neighbors_checked(
                        to_check@,
                        (unpack_hi(c as int), unpack_lo(c as int)),
                    ) by {
                    if kk == k {
                        assert(inner_done.contains(c));
                    } else {
                        assert(old_done.contains(kk));
                        let pc = (unpack_hi(c as int), unpack_lo(c as int));
                        assert forall|a: int, b: int|
                            #![trigger is_neighbor(pc, (a, b))]
                            nonneg(a, b) && is_neighbor(pc, (a, b)) implies to_check@.contains(
                                pack_spec(a, b) as u128,
                            ) by {
                            assert(before.contains(pack_spec(a, b) as u128));
                        }
                    }
                }
                assert forall|kk: u128|
                    #![trigger self.chunks@.contains_key(kk)]
                    self.chunks@.contains_key(kk) implies done.contains(kk) || (exists|j: int|
                        it.index() + 1 <= j < it.seq().len() && *it.seq()[j] == kk) by {
                    if !old_done.contains(kk) {
                        let j = choose|j: int|
                            it.index() <= j < it.seq().len() && *it.seq()[j] == kk;
                        if j == it.index() {
                            assert(kk == k);
                        }
                    }
                }
            }
        }
        proof {
            assert forall|p: (int, int)| #[trigger]
                self@.contains(p) implies Self::neighbors_checked(to_check@, p) by {
                assert(self.alive(p.0, p.1));
                lemma_chunk_key(p.0, p.1);
                lemma_pack(p.0, p.1);
                let kk = cell_chunk_key(p.0, p.1) as u128;
                let c = pack_spec(p.0, p.1) as u128;
                assert(self.chunks@.contains_key(kk));
                assert(done.contains(kk));
                assert(self.chunks@[kk]@.contains_key(c));
            }
        }
        to_check
    }
}

impl World {
    /// The cells of `to_check` that are alive after a step, stored alive.
    fn select_alive(&self, to_check: &HashSet<u128>) -> (to_alive: HashMap<u128, Cell>)
        requires
            self.wf(),
            fits_step_bounds(self@),
            self.check_sound(to_check@),
        ensures
            forall|k: u128| #[trigger]
                to_alive@.contains_key(k) == (to_check@.contains(k) && next_alive(
                    self@,
                    SURVIVAL as nat,
                    BIRTH as nat,
                    unpack_hi(k as int),
                    unpack_lo(k as int),
                )),
            forall|k: u128| #[trigger] to_alive@.contains_key(k) ==> to_alive@[k] == Cell::Alive,
    {
        let mut to_alive: HashMap<u128, Cell> = HashMap::new();
        let ghost mut done: Set<u128> = Set::empty();
        for key in it: to_check.iter()
            invariant
                self.wf(),
                fits_step_bounds(self@),
                self.check_sound(to_check@),
                done.subset_of(to_check@),
                forall|kk: u128|
                    #![trigger to_check@.contains(kk)]
                    to_check@.contains(kk) ==> done.contains(kk) || (exists|j: int|
                        it.index() <= j < it.seq().len() && *it.seq()[j] == kk),
                forall|kk: u128| #[trigger]
                    to_alive@.contains_key(kk) ==> to_check@.contains(kk) && next_alive(
                        self@,
                        SURVIVAL as nat,
                        BIRTH as nat,
                        unpack_hi(kk as int),
                        unpack_lo(kk as int),
                    ) && to_alive@[kk] == Cell::Alive,
                forall|kk: u128| #[trigger]
                    done.contains(kk) && next_alive(
                        self@,
                        SURVIVAL as nat,
                        BIRTH as nat,
                        unpack_hi(kk as int),
                        unpack_lo(kk as int),
                    ) ==> to_alive@.contains_key(kk),
        {
            let k = *key;
            proof {
                assert(it.seq().unref()[it.index() as int] == k);
                assert(it.seq().unref().to_set().contains(k));
                let q = (unpack_hi(k as int), unpack_lo(k as int));
                let p = lemma_some_live_neighbor(self@, q);
                assert(self@.contains(p));
            }
            let (x, y) = unpack(k);
            if self.should_be_alive(x, y) {
                to_alive.insert(k, Cell::Alive);
            }
            proof {
                let old_done = done;
                done = done.insert(k);
                assert forall|kk: u128|
                    #![trigger to_check@.contains(kk)]
                    to_check@.contains(kk) implies done.contains(kk) || (exists|j: int|
                        it.index() + 1 <= j < it.seq().len() && *it.seq()[j] == kk) by {
                    if !old_done.contains(kk) {
                        let j = choose|j: int|
                            it.index() <= j < it.seq().len() && *it.seq()[j] == kk;
                        if j == it.index() {
                            assert(kk == k);
                        }
                    }
                }
            }
        }
        proof {
            assert forall|kk: u128| #[trigger]
                to_alive@.contains_key(kk) == (to_check@.contains(kk) && next_alive(
                    self@,
                    SURVIVAL as nat,
                    BIRTH as nat,
                    unpack_hi(kk as int),
                    unpack_lo(kk as int),
                )) by {
                if to_check@.contains(kk) {
                    assert(done.contains(kk));
                }
            }
        }
        to_alive
    }

    /// The cells of `to_alive`, each stored alive in its chunk.
    fn group_chunks(to_alive: &HashMap<u128, Cell>) -> (m: HashMap<u128, HashMap<u128, Cell>>)
        ensures
            map_wf(m@),
            forall|x: int, y: int|
                in_i64(x) && in_i64(y) ==> (#[trigger] map_alive(m@, x, y) == to_alive@.contains_key(
                    pack_spec(x, y) as u128,
                )),
    {
        let mut new_chunks: HashMap<u128, HashMap<u128, Cell>> = HashMap::new();
        let ghost mut done: Set<u128> = Set::empty();
        for key in it: to_alive.keys()
            invariant
                map_wf(new_chunks@),
                done.subset_of(to_alive@.dom()),
                forall|kk: u128|
                    #![trigger to_alive@.contains_key(kk)]
                    to_alive@.contains_key(kk) ==> done.contains(kk) || (exists|j: int|
                        it.index() <= j < it.seq().len() && *it.seq()[j] == kk),
                forall|x: int, y: int|
                    in_i64(x) && in_i64(y) ==> (#[trigger] map_alive(new_chunks@, x, y) == done.contains(
                        pack_spec(x, y) as u128,
                    )),
        {
            let k = *key;
            proof {
                assert(it.seq().unref()[it.index() as int] == k);
                assert(it.seq().unref().to_set().contains(k));
                lemma_unpack(k as int);
            }
            let (x, y) = unpack(k);
            let ck = {
                let c = ChunkCord { chunk_x: x / CHUNK_SIZE, chunk_y: y / CHUNK_SIZE };
                proof {
                    lemma_trunc_chunk(x as int);
                    lemma_trunc_chunk(y as int);
                }
                pack(c.chunk_x, c.chunk_y)
            };
            let ghost old_map = new_chunks@;
            let mut chunk = match new_chunks.remove(&ck) {
                Some(m) => m,
                None => HashMap::new(),
            };
            chunk.insert(k, Cell::Alive);
            new_chunks.insert(ck, chunk);
            proof {
                lemma_chunk_key(x as int, y as int);
                let old_done = done;
                done = done.insert(k);
                assert forall|kk: u128, c: u128|
                    #![trigger new_chunks@[kk]@.contains_key(c)]
                    new_chunks@.contains_key(kk) && new_chunks@[kk]@.contains_key(c) implies new_chunks@[kk]@[c]
                        == Cell::Alive && cell_chunk_key(unpack_hi(c as int), unpack_lo(c as int))
                        == kk by {
                    if kk == ck && c != k {
                        assert(old_map[kk]@.contains_key(c));
                    }
                }
                assert forall|a: int, b: int|
                    in_i64(a) && in_i64(b) implies (#[trigger] map_alive(new_chunks@, a, b)
                        == done.contains(pack_spec(a, b) as u128)) by {
                    lemma_chunk_key(a, b);
                    lemma_pack(a, b);
                    if pack_spec(a, b) == k as int {
                        lemma_pack_injective(a, b, x as int, y as int);
                    }
                    assert(map_alive(old_map, a, b) == old_done.contains(pack_spec(a, b) as u128));
                }
                assert forall|kk: u128|
                    #![trigger to_alive@.contains_key(kk)]
                    to_alive@.contains_key(kk) implies done.contains(kk) || (exists|j: int|
                        it.index() + 1 <= j < it.seq().len() && *it.seq()[j] == kk) by {
                    if !old_done.contains(kk) {
                        let j = choose|j: int|
                            it.index() <= j < it.seq().len() && *it.seq()[j] == kk;
                        if j == it.index() {
                            assert(kk == k);
                        }
                    }
                }
            }
        }
        proof {
            assert(done =~= to_alive@.dom());
        }
        new_chunks
    }

    /// Advances the world by one step of the fixed rule; only cells at
    /// nonnegative positions can be alive afterwards.
    pub fn tick(&mut self)
        requires
            old(self).wf(),
            fits_step_bounds(old(self)@),
        ensures
            final(self).wf(),
            final(self)@ == step_result(old(self)@),
    {
        let to_check = self.collect_to_check();
        let to_alive = self.select_alive(&to_check);
        let new_chunks = Self::group_chunks(&to_alive);
        let ghost old_cells = self@;
        proof {
            assert forall|p: (int, int)| #[trigger]
                step_result(old_cells).contains(p) implies map_alive(new_chunks@, p.0, p.1) by {
                let n = live_neighbors(old_cells, p.0, p.1);
                assert(n > 0);
                let q = lemma_some_live_neighbor(old_cells, p);
                assert(old_cells.contains(q));
                assert(Self::neighbors_checked(to_check@, q));
                assert(is_neighbor(q, p));
                lemma_pack(p.0, p.1);
                assert(to_check@.contains(pack_spec(p.0, p.1) as u128));
            }
            assert forall|p: (int, int)| #[trigger]
                map_alive(new_chunks@, p.0, p.1) implies step_result(old_cells).contains(p) by {
                lemma_pack(p.0, p.1);
                let k = pack_spec(p.0, p.1) as u128;
                assert(to_alive@.contains_key(k));
            }
        }
        self.chunks.clear();
        self.chunks = new_chunks;
        proof {
            assert(self@ =~= step_result(old_cells));
        }
    }
}

/// A step of the fixed rule is a step of the rule on the whole grid, kept
/// to nonnegative positions.
pub proof fn lemma_step_is_life_step(cells: Set<(int, int)>)
    ensures
        step_result(cells) == crate::world::life_step(cells, SURVIVAL as nat, BIRTH as nat).filter(
            |p: (int, int)| nonneg(p.0, p.1),
        ),
{
    assert(step_result(cells) =~= crate::world::life_step(cells, SURVIVAL as nat, BIRTH as nat).filter(
        |p: (int, int)| nonneg(p.0, p.1),
    ));
}

/// Truncated division by 32 keeps the order.
proof fn lemma_trunc_monotone(a: int, b: int)
    requires
        a <= b,
    ensures
        trunc_chunk(a) <= trunc_chunk(b),
{
    if a >= 0 {
        vstd::arithmetic::div_mod::lemma_div_is_ordered(a, b, 32);
    } else if b >= 0 {
        vstd::arithmetic::div_mod::lemma_div_pos_is_pos(b, 32);
        vstd::arithmetic::div_mod::lemma_div_pos_is_pos(-a, 32);
    } else {
        vstd::arithmetic::div_mod::lemma_div_is_ordered(-b, -a, 32);
    }
}

/// Whether the live cell `p` shows in the terminal seen by `cam`.
pub open spec fn in_view(cells: Set<(int, int)>, cam: Camera, p: (int, int)) -> bool {
    &&& cells.contains(p)
    &&& cam.pos_x <= p.0 < cam.pos_x + cam.term_width
    &&& cam.pos_y <= p.1 < cam.pos_y + cam.term_height
}

/// The world cell under the terminal position `q` seen by `cam`.
pub open spec fn shown_cell(cam: Camera, q: (u16, u16)) -> (int, int) {
    (cam.pos_x + q.0, cam.pos_y + q.1)
}

impl World {
    /// The positions in `out` are those of cells in view.
    spec fn view_sound(self, cam: Camera, out: Seq<(u16, u16)>) -> bool {
        forall|i: int|
            #![trigger out[i]]
            0 <= i < out.len() ==> in_view(
                self@,
                cam,
                (cam.pos_x + out[i].0, cam.pos_y + out[i].1),
            )
    }

    /// Adds the terminal positions of the cells in view among those of the
    /// stored chunk `k`.
    fn draw_chunk(&self, out: &mut Vec<(u16, u16)>, cam: Camera, k: u128)
        requires
            self.wf(),
            self.chunks@.contains_key(k),
            cam.pos_x + cam.term_width <= i64::MAX,
            cam.pos_y + cam.term_height <= i64::MAX,
            self.view_sound(cam, old(out)@),
            old(out)@.no_duplicates(),
            forall|i: int|
                #![trigger old(out)@[i]]
                0 <= i < old(out).len() ==> cell_chunk_key(
                    shown_cell(cam, old(out)@[i]).0,
                    shown_cell(cam, old(out)@[i]).1,
                ) != k,
        ensures
            self.view_sound(cam, final(out)@),
            forall|q: (u16, u16)| old(out)@.contains(q) ==> final(out)@.contains(q),
            final(out)@.no_duplicates(),
            old(out).len() <= final(out).len(),
            forall|i: int| 0 <= i < old(out).len() ==> #[trigger] final(out)@[i] == old(out)@[i],
            forall|i: int|
                #![trigger final(out)@[i]]
                old(out).len() <= i < final(out).len() ==> cell_chunk_key(
                    shown_cell(cam, final(out)@[i]).0,
                    shown_cell(cam, final(out)@[i]).1,
                ) == k,
            forall|c: u128|
                #![trigger self.chunks@[k]@.contains_key(c)]
                self.chunks@[k]@.contains_key(c) && in_view(
                    self@,
                    cam,
                    (unpack_hi(c as int), unpack_lo(c as int)),
                ) ==> final(out)@.contains(
                    world_to_screen_spec(
                        cam.pos_x as int,
                        cam.pos_y as int,
                        unpack_hi(c as int),
                        unpack_lo(c as int),
                    ),
                ),
    {
        let left = cam.pos_x;
        let right = cam.pos_x + cam.term_width as i64;
        let top = cam.pos_y;
        let bottom = cam.pos_y + cam.term_height as i64;
        let chunk = self.chunks.get(&k).unwrap();
        let ghost mut done: Set<u128> = Set::empty();
        let ghost start = out@;
        let mut cam = cam;
        let ghost cam0 = cam;
        for c in it: chunk.keys()
            invariant
                self.wf(),
                cam == cam0,
                self.chunks@.contains_key(k),
                self.chunks@[k] == *chunk,
                left == cam.pos_x,
                right == cam.pos_x + cam.term_width,
                top == cam.pos_y,
                bottom == cam.pos_y + cam.term_height,
                self.view_sound(cam, out@),
                forall|q: (u16, u16)| start.contains(q) ==> out@.contains(q),
                out@.no_duplicates(),
                start.len() <= out.len(),
                forall|i: int| 0 <= i < start.len() ==> #[trigger] out@[i] == start[i],
                forall|i: int|
                    #![trigger start[i]]
                    0 <= i < start.len() ==> cell_chunk_key(
                        shown_cell(cam, start[i]).0,
                        shown_cell(cam, start[i]).1,
                    ) != k,
                forall|i: int|
                    #![trigger out@[i]]
                    start.len() <= i < out.len() ==> cell_chunk_key(
                        shown_cell(cam, out@[i]).0,
                        shown_cell(cam, out@[i]).1,
                    ) == k && done.contains(
                        pack_spec(shown_cell(cam, out@[i]).0, shown_cell(cam, out@[i]).1) as u128,
                    ),
                it.seq().no_duplicates(),
                forall|d: u128|
                    #![trigger done.contains(d)]
                    done.contains(d) ==> exists|j: int| 0 <= j < it.index() && *it.seq()[j] == d,
                done.subset_of(chunk@.dom()),
                forall|cc: u128|
                    #![trigger chunk@.contains_key(cc)]
                    chunk@.contains_key(cc) ==> done.contains(cc) || (exists|j: int|
                        it.index() <= j < it.seq().len() && *it.seq()[j] == cc),
                forall|cc: u128|
                    #![trigger done.contains(cc)]
                    done.contains(cc) && in_view(
                        self@,
                        cam,
                        (unpack_hi(cc as int), unpack_lo(cc as int)),
                    ) ==> out@.contains(
                        world_to_screen_spec(
                            cam.pos_x as int,
                            cam.pos_y as int,
                            unpack_hi(cc as int),
                            unpack_lo(cc as int),
                        ),
                    ),
        {
            let cc = *c;
            proof {
                assert(it.seq().unref()[it.index() as int] == cc);
                assert(it.seq().unref().to_set().contains(cc));
                assert(chunk@.contains_key(cc));
                lemma_unpack(cc as int);
                assert(self.chunks@[k]@.contains_key(cc));
            }
            let (x, y) = unpack(cc);
            let ghost before = out@;
            if (x >= left && x < right) && (y >= top && y < bottom) {
                let (screen_x, screen_y) = cam.world_to_screen(x, y);
                proof {
                    assert(self.alive(x as int, y as int));
                }
                out.push((screen_x, screen_y));
                proof {
                    assert(out@[out.len() - 1] == (screen_x, screen_y));
                    assert forall|i: int|
                        #![trigger out@[i]]
                        0 <= i < out.len() implies in_view(
                            self@,
                            cam,
                            (cam.pos_x + out@[i].0, cam.pos_y + out@[i].1),
                        ) by {
                        if i < before.len() {
                            assert(out@[i] == before[i]);
                        }
                    }
                }
            }
            proof {
                assert forall|q: (u16, u16)| before.contains(q) implies out@.contains(q) by {
                    if out@ != before {
                        let i = choose|i: int| 0 <= i < before.len() && before[i] == q;
                        assert(out@[i] == q);
                    }
                }
                let old_done = done;
                done = done.insert(cc);
                assert forall|d: u128|
                    #![trigger done.contains(d)]
                    done.contains(d) && in_view(
                        self@,
                        cam,
                        (unpack_hi(d as int), unpack_lo(d as int)),
                    ) implies out@.contains(
                        world_to_screen_spec(
                            cam.pos_x as int,
                            cam.pos_y as int,
                            unpack_hi(d as int),
                            unpack_lo(d as int),
                        ),
                    ) by {
                    if d == cc {
                        assert(out@[out.len() - 1] == world_to_screen_spec(
                            cam.pos_x as int,
                            cam.pos_y as int,
                            x as int,
                            y as int,
                        ));
                    } else {
                        assert(old_done.contains(d));
                    }
                }
                assert forall|d: u128|
                    #![trigger chunk@.contains_key(d)]
                    chunk@.contains_key(d) implies done.contains(d) || (exists|j: int|
                        it.index() + 1 <= j < it.seq().len() && *it.seq()[j] == d) by {
                    if !old_done.contains(d) {
                        let j = choose|j: int| it.index() <= j < it.seq().len() && *it.seq()[j] == d;
                        if j == it.index() {
                            assert(d == cc);
                        }
                    }
                }
            }
        }
        proof {
            assert(done =~= chunk@.dom());
        }
    }

    /// The terminal positions of the live cells in view of `cam`, each once,
    /// at which `#` is printed after the terminal is cleared.
    pub fn draw(&mut self, cam: Camera) -> (out: Vec<(u16, u16)>)
        requires
            old(self).wf(),
            cam.pos_x + cam.term_width <= i64::MAX,
            cam.pos_y + cam.term_height <= i64::MAX,
        ensures
            *final(self) == *old(self),
            forall|i: int|
                #![trigger out@[i]]
                0 <= i < out.len() ==> in_view(
                    old(self)@,
                    cam,
                    (cam.pos_x + out@[i].0, cam.pos_y + out@[i].1),
                ),
            forall|p: (int, int)| #[trigger]
                in_view(old(self)@, cam, p) ==> out@.contains(
                    world_to_screen_spec(cam.pos_x as int, cam.pos_y as int, p.0, p.1),
                ),
            out@.no_duplicates(),
    {
        let left = cam.pos_x;
        let right = cam.pos_x + cam.term_width as i64;
        let top = cam.pos_y;
        let bottom = cam.pos_y + cam.term_height as i64;
        let chunk_left = left / CHUNK_SIZE;
        let chunk_right = right / CHUNK_SIZE;
        let chunk_top = top / CHUNK_SIZE;
        let chunk_bottom = bottom / CHUNK_SIZE;
        proof {
            lemma_trunc_chunk(left as int);
            lemma_trunc_chunk(right as int);
            lemma_trunc_chunk(top as int);
            lemma_trunc_chunk(bottom as int);
        }
        let mut out: Vec<(u16, u16)> = Vec::new();
        let mut x = chunk_left;
        while x <= chunk_right
            invariant
                self.wf(),
                cam.pos_x + cam.term_width <= i64::MAX,
                cam.pos_y + cam.term_height <= i64::MAX,
                chunk_left == trunc_chunk(left as int),
                chunk_right == trunc_chunk(right as int),
                chunk_top == trunc_chunk(top as int),
                chunk_bottom == trunc_chunk(bottom as int),
                -0x400_0000_0000_0000 <= chunk_left <= x <= chunk_right + 1,
                chunk_right <= 0x400_0000_0000_0000,
                -0x400_0000_0000_0000 <= chunk_top,
                chunk_bottom <= 0x400_0000_0000_0000,
                left == cam.pos_x,
                right == cam.pos_x + cam.term_width,
                top == cam.pos_y,
                bottom == cam.pos_y + cam.term_height,
                self.view_sound(cam, out@),
                out@.no_duplicates(),
                forall|i: int|
                    #![trigger out@[i]]
                    0 <= i < out.len() ==> trunc_chunk(shown_cell(cam, out@[i]).0) < x,
                forall|p: (int, int)| #[trigger]
                    in_view(self@, cam, p) && trunc_chunk(p.0) < x ==> out@.contains(
                        world_to_screen_spec(cam.pos_x as int, cam.pos_y as int, p.0, p.1),
                    ),
            decreases chunk_right + 1 - x,
        {
            let mut y = chunk_top;
            while y <= chunk_bottom
                invariant
                    self.wf(),
                    cam.pos_x + cam.term_width <= i64::MAX,
                    cam.pos_y + cam.term_height <= i64::MAX,
                    -0x400_0000_0000_0000 <= x <= 0x400_0000_0000_0000,
                    chunk_top == trunc_chunk(top as int),
                    chunk_bottom == trunc_chunk(bottom as int),
                    -0x400_0000_0000_0000 <= chunk_top <= y <= chunk_bottom + 1,
                    chunk_bottom <= 0x400_0000_0000_0000,
                    top == cam.pos_y,
                    bottom == cam.pos_y + cam.term_height,
                    self.view_sound(cam, out@),
                    out@.no_duplicates(),
                    forall|i: int|
                        #![trigger out@[i]]
                        0 <= i < out.len() ==> trunc_chunk(shown_cell(cam, out@[i]).0) < x || (
                        trunc_chunk(shown_cell(cam, out@[i]).0) == x && trunc_chunk(
                            shown_cell(cam, out@[i]).1,
                        ) < y),
                    forall|p: (int, int)| #[trigger]
                        in_view(self@, cam, p) && (trunc_chunk(p.0) < x || (trunc_chunk(p.0) == x
                            && chunk_top <= trunc_chunk(p.1) < y)) ==> out@.contains(
                            world_to_screen_spec(cam.pos_x as int, cam.pos_y as int, p.0, p.1),
                        ),
                decreases chunk_bottom + 1 - y,
            {
                let k = pack(x, y);
                let ghost before = out@;
                proof {
                    assert forall|i: int|
                        #![trigger out@[i]]
                        0 <= i < out.len() implies cell_chunk_key(
                            shown_cell(cam, out@[i]).0,
                            shown_cell(cam, out@[i]).1,
                        ) != k by {
                        let q = shown_cell(cam, out@[i]);
                        assert(in_view(self@, cam, q));
                        lemma_trunc_chunk(q.0);
                        lemma_trunc_chunk(q.1);
                        if cell_chunk_key(q.0, q.1) == k {
                            lemma_pack_injective(trunc_chunk(q.0), trunc_chunk(q.1), x as int, y as int);
                        }
                    }
                }
                if self.chunks.contains_key(&k) {
                    self.draw_chunk(&mut out, cam, k);
                }
                proof {
                    assert forall|i: int|
                        #![trigger out@[i]]
                        0 <= i < out.len() implies trunc_chunk(shown_cell(cam, out@[i]).0) < x || (
                        trunc_chunk(shown_cell(cam, out@[i]).0) == x && trunc_chunk(
                            shown_cell(cam, out@[i]).1,
                        ) < y + 1) by {
                        let q = shown_cell(cam, out@[i]);
                        if i < before.len() {
                            assert(out@[i] == before[i]);
                        } else {
                            assert(in_view(self@, cam, q));
                            lemma_trunc_chunk(q.0);
                            lemma_trunc_chunk(q.1);
                            lemma_pack_injective(trunc_chunk(q.0), trunc_chunk(q.1), x as int, y as int);
                        }
                    }
                }
                proof {
                    assert forall|p: (int, int)| #[trigger]
                        in_view(self@, cam, p) && (trunc_chunk(p.0) < x || (trunc_chunk(p.0) == x
                            && chunk_top <= trunc_chunk(p.1) < y + 1)) implies out@.contains(
                            world_to_screen_spec(cam.pos_x as int, cam.pos_y as int, p.0, p.1),
                        ) by {
                        if trunc_chunk(p.0) == x && trunc_chunk(p.1) == y {
                            assert(self.alive(p.0, p.1));
                            lemma_chunk_key(p.0, p.1);
                            lemma_pack(p.0, p.1);
                            let c = pack_spec(p.0, p.1) as u128;
                            assert(self.chunks@[k]@.contains_key(c));
                        } else {
                            assert(before.contains(
                                world_to_screen_spec(cam.pos_x as int, cam.pos_y as int, p.0, p.1),
                            ));
                        }
                    }
                }
                y += 1;
            }
            proof {
                assert forall|p: (int, int)| #[trigger]
                    in_view(self@, cam, p) && trunc_chunk(p.0) < x + 1 implies out@.contains(
                        world_to_screen_spec(cam.pos_x as int, cam.pos_y as int, p.0, p.1),
                    ) by {
                    lemma_trunc_monotone(top as int, p.1);
                    lemma_trunc_monotone(p.1, bottom as int);
                }
            }
            x += 1;
        }
        proof {
            assert forall|p: (int, int)| #[trigger]
                in_view(self@, cam, p) implies out@.contains(
                    world_to_screen_spec(cam.pos_x as int, cam.pos_y as int, p.0, p.1),
                ) by {
                lemma_trunc_monotone(p.0, right as int);
            }
        }
        out
    }

    /// Makes the cell `(x, y)` alive (`to_alive`) or dead, at any position,
    /// and gives what to print for it: its terminal position, and `#` or a
    /// space.
    pub fn lazy_draw(&mut self, cam: Camera, x: i64, y: i64, to_alive: bool) -> (r: (u16, u16, char))
        requires
            old(self).wf(),
            in_i64(x - cam.pos_x),
            in_i64(y - cam.pos_y),
        ensures
            final(self).wf(),
            to_alive ==> final(self)@ == old(self)@.insert((x as int, y as int)),
            !to_alive ==> final(self)@ == old(self)@.remove((x as int, y as int)),
            (r.0, r.1) == world_to_screen_spec(cam.pos_x as int, cam.pos_y as int, x as int, y as int),
            r.2 == (if to_alive {
                '#'
            } else {
                ' '
            }),
    {
        let mut cam = cam;
        let (nx, ny) = cam.world_to_screen(x, y);
        if !to_alive {
            self.set_cell(x, y, false);
            (nx, ny, ' ')
        } else {
            self.set_cell(x, y, true);
            (nx, ny, '#')
        }
    }
}

} // verus!
