//! The simulated world: live cells on an unbounded grid, stored as a map
//! from chunk positions to 32x32 bit-mask chunks, with the rule that decides
//! which cells survive and which are born.

use std::collections::{HashMap, HashSet};
use rayon::iter::{IntoParallelRefIterator, ParallelIterator};
use vstd::prelude::*;

use crate::camera::{buffer_to_world_spec, lemma_buffer_round_trip, world_to_buffer_spec, Camera, Rect};
use crate::chunk::{lemma_clear_lowest, lemma_lowest_bit, word_bit, Chunk};
use crate::geometry::{
    ChunkCord, Cord,
    chunk_coord, chunk_of, in_i64, lemma_pack, lemma_pack_injective, lemma_unpack, local_coord,
    local_of, pack, pack_spec, unpack, unpack_hi, unpack_lo,
};

verus! {

broadcast use vstd::std_specs::hash::group_hash_axioms;

/// Whether `c` is the chunk coordinate of some `i64` cell coordinate.
pub open spec fn chunk_in_range(c: int) -> bool {
    -0x400_0000_0000_0000 <= c < 0x400_0000_0000_0000
}

/// The key under which the chunk holding cell `(x, y)` is stored.
pub open spec fn cell_chunk_key(x: int, y: int) -> int {
    pack_spec(chunk_of(x), chunk_of(y))
}

/// Facts about the chunk coordinates and local positions of a cell.
pub proof fn lemma_cell_split(x: int)
    requires
        in_i64(x),
    ensures
        chunk_in_range(chunk_of(x)),
        in_i64(chunk_of(x)),
        0 <= local_of(x) < 32,
        x == 32 * chunk_of(x) + local_of(x),
{
}

/// The cell at local position `(lx, ly)` of chunk `(cx, cy)` has `i64`
/// coordinates and belongs to that chunk.
pub proof fn lemma_cell_of_chunk(cx: int, cy: int, lx: int, ly: int)
    requires
        chunk_in_range(cx),
        chunk_in_range(cy),
        0 <= lx < 32,
        0 <= ly < 32,
    ensures
        in_i64(32 * cx + lx),
        in_i64(32 * cy + ly),
        chunk_of(32 * cx + lx) == cx,
        chunk_of(32 * cy + ly) == cy,
        local_of(32 * cx + lx) == lx,
        local_of(32 * cy + ly) == ly,
{
    vstd::arithmetic::div_mod::lemma_fundamental_div_mod_converse(32 * cx + lx, 32, cx, lx);
    vstd::arithmetic::div_mod::lemma_fundamental_div_mod_converse(32 * cy + ly, 32, cy, ly);
}

/// Two `i64` cells lie in the same chunk exactly when their chunk keys agree.
pub proof fn lemma_same_chunk(x: int, y: int, a: int, b: int)
    requires
        in_i64(x),
        in_i64(y),
        in_i64(a),
        in_i64(b),
    ensures
        (cell_chunk_key(x, y) == cell_chunk_key(a, b)) <==> (chunk_of(x) == chunk_of(a)
            && chunk_of(y) == chunk_of(b)),
        0 <= cell_chunk_key(x, y) <= u128::MAX,
{
    lemma_cell_split(x);
    lemma_cell_split(y);
    lemma_cell_split(a);
    lemma_cell_split(b);
    lemma_pack(chunk_of(x), chunk_of(y));
    if cell_chunk_key(x, y) == cell_chunk_key(a, b) {
        lemma_pack_injective(chunk_of(x), chunk_of(y), chunk_of(a), chunk_of(b));
    }
}

/// Whether the cell `(x, y)` is alive in the chunk map `m`.
spec fn map_alive(m: Map<u128, Chunk>, x: int, y: int) -> bool {
    &&& in_i64(x)
    &&& in_i64(y)
    &&& m.contains_key(cell_chunk_key(x, y) as u128)
    &&& m[cell_chunk_key(x, y) as u128].cell(local_of(x), local_of(y))
}

/// Every chunk of `m` lies where `i64` cells can be and holds a live cell.
spec fn map_wf(m: Map<u128, Chunk>) -> bool {
    forall|k: u128| #[trigger]
        m.contains_key(k) ==> chunk_in_range(unpack_hi(k as int)) && chunk_in_range(
            unpack_lo(k as int),
        ) && m[k].has_live_cell()
}

/// The world: the live cells, and the neighbour counts under which a live
/// cell survives (`survival`) and a dead cell is born (`birth`).
pub struct World {
    chunks: HashMap<u128, Chunk>,
    survival: usize,
    birth: usize,
}

impl View for World {
    type V = Set<(int, int)>;

    /// The set of live cells.
    closed spec fn view(&self) -> Set<(int, int)> {
        Set::new(|p: (int, int)| self.alive(p.0, p.1))
    }
}

impl World {
    /// Whether the cell `(x, y)` is alive.
    closed spec fn alive(self, x: int, y: int) -> bool {
        map_alive(self.chunks@, x, y)
    }

    /// Every stored chunk lies where `i64` cells can be and holds a live cell.
    pub closed spec fn wf(self) -> bool {
        map_wf(self.chunks@)
    }

    /// The number of live neighbours with which a live cell survives.
    pub closed spec fn survival_rule(self) -> nat {
        self.survival as nat
    }

    /// The number of live neighbours with which a dead cell is born.
    pub closed spec fn birth_rule(self) -> nat {
        self.birth as nat
    }

    /// The masks stored under each chunk key.
    pub closed spec fn stored_masks(self) -> Map<u128, Seq<u64>> {
        self.chunks@.map_values(|c: Chunk| c.bits@)
    }

    /// A chunk stored under `k` in a well-formed world, and its cells.
    proof fn lemma_key_has_cell(self, k: u128) -> (p: (int, int))
        requires
            self.wf(),
            self.chunks@.contains_key(k),
        ensures
            self@.contains(p),
            cell_chunk_key(p.0, p.1) == k,
    {
        let c = self.chunks@[k];
        let (lx, ly) = choose|x: int, y: int| 0 <= x < 32 && 0 <= y < 32 && #[trigger] c.cell(x, y);
        let cx = unpack_hi(k as int);
        let cy = unpack_lo(k as int);
        lemma_unpack(k as int);
        lemma_cell_of_chunk(cx, cy, lx, ly);
        let p = (32 * cx + lx, 32 * cy + ly);
        assert(self.alive(p.0, p.1));
        p
    }

    /// The stored masks are a function of the live cells: two well-formed
    /// worlds with the same live cells store the same chunks with the same
    /// bits.
    pub proof fn lemma_cells_determine_masks(w1: World, w2: World)
        requires
            w1.wf(),
            w2.wf(),
            w1@ == w2@,
        ensures
            w1.stored_masks() == w2.stored_masks(),
    {
        assert forall|k: u128| w1.chunks@.contains_key(k) implies w2.chunks@.contains_key(k) by {
            let p = w1.lemma_key_has_cell(k);
            assert(w2@.contains(p));
        }
        assert forall|k: u128| w2.chunks@.contains_key(k) implies w1.chunks@.contains_key(k) by {
            let p = w2.lemma_key_has_cell(k);
            assert(w1@.contains(p));
        }
        assert forall|k: u128| #[trigger] w1.chunks@.contains_key(k) implies w1.chunks@[k].bits@
            == w2.chunks@[k].bits@ by {
            let cx = unpack_hi(k as int);
            let cy = unpack_lo(k as int);
            lemma_unpack(k as int);
            let a = w1.chunks@[k];
            let b = w2.chunks@[k];
            assert forall|i: int| 0 <= i < 16 implies a.bits@[i] == b.bits@[i] by {
                assert forall|j: int| 0 <= j < 64 implies word_bit(a.bits@[i], j) == word_bit(
                    b.bits@[i],
                    j,
                ) by {
                    let idx = i * 64 + j;
                    let lx = idx % 32;
                    let ly = idx / 32;
                    vstd::arithmetic::div_mod::lemma_fundamental_div_mod(idx, 32);
                    vstd::arithmetic::div_mod::lemma_fundamental_div_mod_converse(idx, 64, i, j);
                    assert(ly * 32 + lx == idx);
                    assert(idx / 64 == i && idx % 64 == j);
                    assert(0 <= lx < 32 && 0 <= ly < 32);
                    assert(a.cell(lx, ly) == word_bit(a.bits@[i], j));
                    assert(b.cell(lx, ly) == word_bit(b.bits@[i], j));
                    lemma_cell_of_chunk(cx, cy, lx, ly);
                    let x = 32 * cx + lx;
                    let y = 32 * cy + ly;
                    assert(cell_chunk_key(x, y) == k);
                    assert(a.cell(lx, ly) == w1.alive(x, y));
                    assert(b.cell(lx, ly) == w2.alive(x, y));
                    assert(w1@.contains((x, y)) == w1.alive(x, y));
                    assert(w2@.contains((x, y)) == w2.alive(x, y));
                    assert(w1@.contains((x, y)) == w2@.contains((x, y)));
                }
                lemma_word_ext(a.bits@[i], b.bits@[i]);
            }
            assert(a.bits@ =~= b.bits@);
        }
        assert(w1.stored_masks() =~= w2.stored_masks());
    }

    /// Every live cell has `i64` coordinates.
    pub proof fn lemma_cells_in_i64(self, x: int, y: int)
        requires
            self@.contains((x, y)),
        ensures
            in_i64(x),
            in_i64(y),
    {
    }

    /// An empty world with the given rules.
    pub fn new(survival: usize, birth: usize) -> (w: Self)
        ensures
            w.wf(),
            w@ == Set::<(int, int)>::empty(),
            w.survival_rule() == survival,
            w.birth_rule() == birth,
    {
        let w = World { chunks: HashMap::new(), survival, birth };
        assert(w@ =~= Set::<(int, int)>::empty());
        w
    }

    /// Replaces the rules; the cells stay as they are.
    pub fn set_rules(&mut self, survival: usize, birth: usize)
        requires
            old(self).wf(),
        ensures
            final(self).wf(),
            final(self)@ == old(self)@,
            final(self).survival_rule() == survival,
            final(self).birth_rule() == birth,
    {
        self.survival = survival;
        self.birth = birth;
        assert(self@ =~= old(self)@);
    }

    /// The key of the chunk that holds the cell `(x, y)`.
    fn chunk_key_of(x: i64, y: i64) -> (k: u128)
        ensures
            k == cell_chunk_key(x as int, y as int),
    {
        proof {
            lemma_same_chunk(x as int, y as int, x as int, y as int);
            lemma_cell_split(x as int);
            lemma_cell_split(y as int);
        }
        pack(chunk_coord(x), chunk_coord(y))
    }

    /// Whether the cell `(x, y)` is alive.
    pub fn is_cell_alive(&self, x: i64, y: i64) -> (alive: bool)
        ensures
            alive == self@.contains((x as int, y as int)),
    {
        let key = Self::chunk_key_of(x, y);
        match self.chunks.get(&key) {
            Some(chunk) => chunk.get_local(local_coord(x), local_coord(y)),
            None => false,
        }
    }

    /// Whether the world has no live cell.
    pub fn is_empty(&self) -> (empty: bool)
        requires
            self.wf(),
        ensures
            empty == (self@ == Set::<(int, int)>::empty()),
    {
        let empty = self.chunks.is_empty();
        proof {
            if !empty {
                let k = choose|k: u128| self.chunks@.contains_key(k);
                assert(self.chunks@.dom().contains(k));
                let p = self.live_cell_of_chunk(k);
                assert(self@.contains(p));
            } else {
                assert(self@ =~= Set::<(int, int)>::empty());
            }
        }
        empty
    }

    /// A live cell of the stored chunk `k`.
    proof fn live_cell_of_chunk(self, k: u128) -> (p: (int, int))
        requires
            self.wf(),
            self.chunks@.contains_key(k),
        ensures
            self.alive(p.0, p.1),
            cell_chunk_key(p.0, p.1) == k,
    {
        let c = self.chunks@[k];
        let (lx, ly) = choose|x: int, y: int| 0 <= x < 32 && 0 <= y < 32 && #[trigger] c.cell(x, y);
        let cx = unpack_hi(k as int);
        let cy = unpack_lo(k as int);
        lemma_unpack(k as int);
        lemma_cell_of_chunk(cx, cy, lx, ly);
        (32 * cx + lx, 32 * cy + ly)
    }

    /// Makes the cell `(x, y)` alive.
    pub fn animate_cell(&mut self, x: i64, y: i64)
        requires
            old(self).wf(),
        ensures
            final(self).wf(),
            final(self)@ == old(self)@.insert((x as int, y as int)),
            final(self).survival_rule() == old(self).survival_rule(),
            final(self).birth_rule() == old(self).birth_rule(),
    {
        let key = Self::chunk_key_of(x, y);
        let mut chunk = match self.chunks.get(&key) {
            Some(c) => *c,
            None => Chunk::new(),
        };
        let lx = local_coord(x);
        let ly = local_coord(y);
        chunk.set_local(lx, ly, true);
        self.chunks.insert(key, chunk);
        proof {
            lemma_cell_split(x as int);
            lemma_cell_split(y as int);
            lemma_unpack(key as int);
            lemma_pack(chunk_of(x as int), chunk_of(y as int));
            assert(chunk.cell(lx as int, ly as int));
            assert(self.wf());
            assert forall|p: (int, int)| #[trigger] self@.contains(p) == old(self)@.insert(
                (x as int, y as int),
            ).contains(p) by {
                if in_i64(p.0) && in_i64(p.1) {
                    lemma_same_chunk(p.0, p.1, x as int, y as int);
                    lemma_cell_split(p.0);
                    lemma_cell_split(p.1);
                }
            }
            assert(self@ =~= old(self)@.insert((x as int, y as int)));
        }
    }

    /// Makes the cell `(x, y)` dead; a chunk left without live cells is
    /// dropped.
    pub fn kill_cell(&mut self, x: i64, y: i64)
        requires
            old(self).wf(),
        ensures
            final(self).wf(),
            final(self)@ == old(self)@.remove((x as int, y as int)),
            final(self).survival_rule() == old(self).survival_rule(),
            final(self).birth_rule() == old(self).birth_rule(),
    {
        let key = Self::chunk_key_of(x, y);
        let found = match self.chunks.get(&key) {
            Some(c) => Some(*c),
            None => None,
        };
        proof {
            lemma_cell_split(x as int);
            lemma_cell_split(y as int);
        }
        if let Some(mut chunk) = found {
            let lx = local_coord(x);
            let ly = local_coord(y);
            let ghost before = chunk;
            chunk.set_local(lx, ly, false);
            assert(old(self).chunks@.contains_key(key) && old(self).chunks@[key] == before);
            let n = chunk.count_alive();
            if n == 0 {
                self.chunks.remove(&key);
            } else {
                self.chunks.insert(key, chunk);
            }
            proof {
                assert forall|p: (int, int)| #[trigger] self@.contains(p) == old(self)@.remove(
                    (x as int, y as int),
                ).contains(p) by {
                    if in_i64(p.0) && in_i64(p.1) {
                        lemma_same_chunk(p.0, p.1, x as int, y as int);
                        lemma_cell_split(p.0);
                        lemma_cell_split(p.1);
                        if cell_chunk_key(p.0, p.1) == key {
                            if n == 0 {
                                assert(!chunk.cell(local_of(p.0), local_of(p.1)));
                            }
                            if p != (x as int, y as int) {
                                assert(chunk.cell(local_of(p.0), local_of(p.1)) == before.cell(
                                    local_of(p.0),
                                    local_of(p.1),
                                ));
                            }
                        }
                    }
                }
            }
        } else {
            proof {
                assert forall|p: (int, int)| #[trigger] self@.contains(p) == old(self)@.remove(
                    (x as int, y as int),
                ).contains(p) by {
                    if in_i64(p.0) && in_i64(p.1) {
                        lemma_same_chunk(p.0, p.1, x as int, y as int);
                    }
                }
            }
        }
        assert(self@ =~= old(self)@.remove((x as int, y as int)));
    }
}

/// 1 for true, 0 for false.
pub open spec fn b2n(b: bool) -> int {
    if b {
        1
    } else {
        0
    }
}

/// The number of live cells among the eight neighbours of `(x, y)`.
pub open spec fn live_neighbors(cells: Set<(int, int)>, x: int, y: int) -> int {
    b2n(cells.contains((x - 1, y - 1))) + b2n(cells.contains((x - 1, y))) + b2n(
        cells.contains((x - 1, y + 1)),
    ) + b2n(cells.contains((x, y - 1))) + b2n(cells.contains((x, y + 1))) + b2n(
        cells.contains((x + 1, y - 1)),
    ) + b2n(cells.contains((x + 1, y))) + b2n(cells.contains((x + 1, y + 1)))
}

/// Whether `(x, y)` is alive after one step: a dead cell with exactly
/// `birth` live neighbours is born, and a live cell with `survival` or
/// `birth` live neighbours stays alive.
pub open spec fn next_alive(cells: Set<(int, int)>, survival: nat, birth: nat, x: int, y: int) -> bool {
    let n = live_neighbors(cells, x, y);
    let alive = cells.contains((x, y));
    (!alive && n == birth) || (alive && (n == survival || n == birth))
}

/// The live cells after one step of the rule on the whole grid.
pub open spec fn life_step(cells: Set<(int, int)>, survival: nat, birth: nat) -> Set<(int, int)> {
    Set::new(|p: (int, int)| next_alive(cells, survival, birth, p.0, p.1))
}

/// Whether the chunk of `(x, y)` is the chunk of a live cell or next to it.
pub open spec fn near_live_chunk(cells: Set<(int, int)>, x: int, y: int) -> bool {
    exists|q: (int, int)|
        #![trigger cells.contains(q)]
        cells.contains(q) && -1 <= chunk_of(q.0) - chunk_of(x) <= 1 && -1 <= chunk_of(q.1)
            - chunk_of(y) <= 1
}

/// The live cells after one step as the world computes it: the rule is
/// applied to the cells of the chunks that hold a live cell and of their
/// neighbouring chunks; every other cell is dead.
pub open spec fn tick_result(cells: Set<(int, int)>, survival: nat, birth: nat) -> Set<(int, int)> {
    Set::new(
        |p: (int, int)|
            near_live_chunk(cells, p.0, p.1) && next_alive(cells, survival, birth, p.0, p.1),
    )
}

/// `out` lists exactly the cells of chunk `a` that are alive after a step.
pub(crate) open spec fn chunk_step_ok(
    cells: Set<(int, int)>,
    survival: nat,
    birth: nat,
    a: ChunkCord,
    out: Seq<Cord>,
) -> bool {
    &&& forall|i: int|
        #![trigger out[i]]
        0 <= i < out.len() ==> chunk_of(out[i].x as int) == a.chunk_x && chunk_of(out[i].y as int)
            == a.chunk_y && next_alive(cells, survival, birth, out[i].x as int, out[i].y as int)
    &&& forall|x: int, y: int|
        #![trigger next_alive(cells, survival, birth, x, y)]
        chunk_of(x) == a.chunk_x && chunk_of(y) == a.chunk_y && in_i64(x) && in_i64(y)
            && next_alive(cells, survival, birth, x, y) ==> out.contains(
            Cord { x: x as i64, y: y as i64 },
        )
}

/// A cell next to a cell of chunk `a` lies in `a` or a neighbouring chunk.
pub proof fn lemma_neighbor_chunk(x: int, d: int, a: int)
    requires
        chunk_of(x) == a,
        -1 <= d <= 1,
    ensures
        -1 <= chunk_of(x + d) - a <= 1,
{
    vstd::arithmetic::div_mod::lemma_fundamental_div_mod(x, 32);
    vstd::arithmetic::div_mod::lemma_fundamental_div_mod(x + d, 32);
}

/// With a positive birth count, a step of the world is a step of the rule on
/// the whole grid: a cell far from every live cell has no live neighbour, so
/// it stays dead.
pub proof fn lemma_tick_is_life_step(cells: Set<(int, int)>, survival: nat, birth: nat)
    requires
        birth > 0,
    ensures
        tick_result(cells, survival, birth) == life_step(cells, survival, birth),
{
    assert forall|p: (int, int)| #[trigger]
        life_step(cells, survival, birth).contains(p) implies near_live_chunk(cells, p.0, p.1) by {
        let (x, y) = p;
        vstd::arithmetic::div_mod::lemma_fundamental_div_mod(x, 32);
        vstd::arithmetic::div_mod::lemma_fundamental_div_mod(y, 32);
        lemma_neighbor_chunk(x, -1, chunk_of(x));
        lemma_neighbor_chunk(x, 1, chunk_of(x));
        lemma_neighbor_chunk(y, -1, chunk_of(y));
        lemma_neighbor_chunk(y, 1, chunk_of(y));
        if cells.contains((x, y)) {
            assert(cells.contains((x, y)));
        } else if cells.contains((x - 1, y - 1)) {
            assert(cells.contains((x - 1, y - 1)));
        } else if cells.contains((x - 1, y)) {
            assert(cells.contains((x - 1, y)));
        } else if cells.contains((x - 1, y + 1)) {
            assert(cells.contains((x - 1, y + 1)));
        } else if cells.contains((x, y - 1)) {
            assert(cells.contains((x, y - 1)));
        } else if cells.contains((x, y + 1)) {
            assert(cells.contains((x, y + 1)));
        } else if cells.contains((x + 1, y - 1)) {
            assert(cells.contains((x + 1, y - 1)));
        } else if cells.contains((x + 1, y)) {
            assert(cells.contains((x + 1, y)));
        } else {
            assert(cells.contains((x + 1, y + 1)));
        }
    }
    assert(tick_result(cells, survival, birth) =~= life_step(cells, survival, birth));
}

/// An empty world stays empty when it steps.
pub proof fn lemma_empty_stays_empty(survival: nat, birth: nat)
    ensures
        tick_result(Set::<(int, int)>::empty(), survival, birth) == Set::<(int, int)>::empty(),
{
    assert(tick_result(Set::<(int, int)>::empty(), survival, birth) =~= Set::<(int, int)>::empty());
}

/// A step depends on the live cells and the rules alone: two worlds with
/// the same cells and rules step to the same cells, whatever the order in
/// which their chunks are stored or computed.
pub proof fn lemma_tick_deterministic(w1: World, w2: World)
    requires
        w1@ == w2@,
        w1.survival_rule() == w2.survival_rule(),
        w1.birth_rule() == w2.birth_rule(),
    ensures
        tick_result(w1@, w1.survival_rule(), w1.birth_rule()) == tick_result(
            w2@,
            w2.survival_rule(),
            w2.birth_rule(),
        ),
{
}

/// Two words with the same bits are equal.
proof fn lemma_word_ext(a: u64, b: u64)
    requires
        forall|j: int| 0 <= j < 64 ==> word_bit(a, j) == word_bit(b, j),
    ensures
        a == b,
{
    let x = a ^ b;
    if x != 0 {
        lemma_lowest_bit(x);
        let t = x.trailing_zeros() as u64;
        assert(word_bit(a, t as int) == word_bit(b, t as int));
        assert(((a ^ b) >> t) & 1u64 == 1u64 ==> ((a >> t) & 1u64 == 1u64) != ((b >> t) & 1u64
            == 1u64)) by (bit_vector);
    }
    assert(a ^ b == 0 ==> a == b) by (bit_vector);
}

/// Killing a cell that was just made alive gives back the cells as they
/// were before, when it was dead.
pub proof fn lemma_kill_undoes_animate(cells: Set<(int, int)>, x: int, y: int)
    requires
        !cells.contains((x, y)),
    ensures
        cells.insert((x, y)).remove((x, y)) == cells,
{
    assert(cells.insert((x, y)).remove((x, y)) =~= cells);
}

/// Making a dead cell alive and then killing it gives back the world as it
/// was stored, chunk for chunk and bit for bit: a chunk made for the cell is
/// dropped again.
pub proof fn lemma_kill_undoes_animate_exactly(w0: World, w1: World, w2: World, x: int, y: int)
    requires
        w0.wf(),
        w1.wf(),
        w2.wf(),
        !w0@.contains((x, y)),
        w1@ == w0@.insert((x, y)),
        w2@ == w1@.remove((x, y)),
    ensures
        w2@ == w0@,
        w2.stored_masks() == w0.stored_masks(),
{
    lemma_kill_undoes_animate(w0@, x, y);
    World::lemma_cells_determine_masks(w2, w0);
}

/// The mask index of a local cell, split into word and bit.
proof fn lemma_cell_index(lx: int, ly: int)
    requires
        0 <= lx < 32,
        0 <= ly < 32,
    ensures
        0 <= (ly * 32 + lx) / 64 < 16,
        0 <= (ly * 32 + lx) % 64 < 64,
        ((ly * 32 + lx) / 64) * 64 + (ly * 32 + lx) % 64 == ly * 32 + lx,
        (((ly * 32 + lx) / 64) * 64 + (ly * 32 + lx) % 64) % 32 == lx,
        (((ly * 32 + lx) / 64) * 64 + (ly * 32 + lx) % 64) / 32 == ly,
{
    let idx = ly * 32 + lx;
    vstd::arithmetic::div_mod::lemma_fundamental_div_mod(idx, 64);
    vstd::arithmetic::div_mod::lemma_fundamental_div_mod_converse(idx, 32, ly, lx);
}

/// Whether a live cell may sit at coordinate `v` when the world steps: the
/// chunks next to its chunk then have coordinates that can be scaled by 32
/// without overflow.
pub open spec fn tick_safe_coord(v: int) -> bool {
    -0x7FFF_FFFF_FFFF_FFC0 <= v <= 0x7FFF_FFFF_FFFF_FFBF
}

/// Every live cell of `cells` is at a coordinate where stepping is safe.
pub open spec fn fits_tick_bounds(cells: Set<(int, int)>) -> bool {
    forall|p: (int, int)| #[trigger]
        cells.contains(p) ==> tick_safe_coord(p.0) && tick_safe_coord(p.1)
}

/// A chunk coordinate next to the chunk of a cell at a safe coordinate.
pub open spec fn affected_chunk_ok(c: int) -> bool {
    -0x3FF_FFFF_FFFF_FFFF <= c <= 0x3FF_FFFF_FFFF_FFFE
}

/// The chunk `a` is the chunk stored under `k` or one of its eight
/// neighbours.
pub(crate) open spec fn near_key(a: ChunkCord, k: u128) -> bool {
    &&& -1 <= a.chunk_x - unpack_hi(k as int) <= 1
    &&& -1 <= a.chunk_y - unpack_lo(k as int) <= 1
}

impl World {
    /// The chunk of every live cell is at a safe coordinate.
    proof fn lemma_keys_safe(self, k: u128)
        requires
            self.wf(),
            fits_tick_bounds(self@),
            self.chunks@.contains_key(k),
        ensures
            -0x3FF_FFFF_FFFF_FFFE <= unpack_hi(k as int) <= 0x3FF_FFFF_FFFF_FFFD,
            -0x3FF_FFFF_FFFF_FFFE <= unpack_lo(k as int) <= 0x3FF_FFFF_FFFF_FFFD,
    {
        let p = self.live_cell_of_chunk(k);
        assert(self@.contains(p));
        lemma_cell_split(p.0);
        lemma_cell_split(p.1);
        lemma_same_chunk(p.0, p.1, p.0, p.1);
        lemma_pack(chunk_of(p.0), chunk_of(p.1));
    }

    /// What holds of the chunks gathered so far for a step: `seen` holds
    /// exactly their keys, and each is a safe chunk next to a stored one.
    spec fn affected_inv(self, seen: Set<u128>, affected: Seq<ChunkCord>) -> bool {
        &&& forall|k: u128| #[trigger]
            seen.contains(k) <==> exists|i: int|
                0 <= i < affected.len() && pack_spec(
                    affected[i].chunk_x as int,
                    affected[i].chunk_y as int,
                ) == k
        &&& forall|i: int|
            0 <= i < affected.len() ==> affected_chunk_ok(affected[i].chunk_x as int)
                && affected_chunk_ok(affected[i].chunk_y as int)
        &&& self.all_near(affected)
    }

    /// Each chunk of `affected` is a stored chunk or next to one.
    spec fn all_near(self, affected: Seq<ChunkCord>) -> bool {
        forall|i: int|
            #![trigger affected[i]]
            0 <= i < affected.len() ==> exists|k: u128| #[trigger]
                self.chunks@.contains_key(k) && near_key(affected[i], k)
    }

    /// Puts `c` at the end of `affected` unless `seen` already holds its key.
    fn push_unique(
        &self,
        seen: &mut HashSet<u128>,
        affected: &mut Vec<ChunkCord>,
        c: ChunkCord,
        Ghost(origin): Ghost<u128>,
    )
        requires
            self.affected_inv(old(seen)@, old(affected)@),
            self.chunks@.contains_key(origin),
            near_key(c, origin),
            affected_chunk_ok(c.chunk_x as int),
            affected_chunk_ok(c.chunk_y as int),
        ensures
            self.affected_inv(final(seen)@, final(affected)@),
            final(affected)@ == old(affected)@ || final(affected)@ == old(affected)@.push(c),
            final(affected)@.contains(c),
    {
        let k = pack(c.chunk_x, c.chunk_y);
        if !seen.contains(&k) {
            seen.insert(k);
            affected.push(c);
            assert(affected@[affected.len() - 1] == c);
            assert forall|kk: u128| #[trigger] seen@.contains(kk) <==> exists|i: int|
                0 <= i < affected.len() && pack_spec(
                    affected@[i].chunk_x as int,
                    affected@[i].chunk_y as int,
                ) == kk by {
                if kk == k {
                    assert(pack_spec(
                        affected@[affected.len() - 1].chunk_x as int,
                        affected@[affected.len() - 1].chunk_y as int,
                    ) == kk);
                }
                if exists|i: int|
                    0 <= i < affected.len() && pack_spec(
                        affected@[i].chunk_x as int,
                        affected@[i].chunk_y as int,
                    ) == kk {
                    let i = choose|i: int|
                        0 <= i < affected.len() && pack_spec(
                            affected@[i].chunk_x as int,
                            affected@[i].chunk_y as int,
                        ) == kk;
                    if i < affected.len() - 1 {
                        assert(affected@[i] == old(affected)@[i]);
                    }
                }
                if old(seen)@.contains(kk) {
                    let i = choose|i: int|
                        0 <= i < old(affected).len() && pack_spec(
                            old(affected)@[i].chunk_x as int,
                            old(affected)@[i].chunk_y as int,
                        ) == kk;
                    assert(affected@[i] == old(affected)@[i]);
                }
            }
            assert forall|i: int|
                #![trigger affected@[i]]
                0 <= i < affected.len() implies exists|kk: u128| #[trigger]
                self.chunks@.contains_key(kk) && near_key(affected@[i], kk) by {
                if i < affected.len() - 1 {
                    assert(affected@[i] == old(affected)@[i]);
                } else {
                    assert(self.chunks@.contains_key(origin) && near_key(affected@[i], origin));
                }
            }
        } else {
            let ghost i = choose|i: int|
                0 <= i < affected.len() && pack_spec(
                    affected@[i].chunk_x as int,
                    affected@[i].chunk_y as int,
                ) == k;
            proof {
                lemma_pack_injective(
                    affected@[i].chunk_x as int,
                    affected@[i].chunk_y as int,
                    c.chunk_x as int,
                    c.chunk_y as int,
                );
                assert(affected@[i] == c);
            }
        }
    }

    /// The stored chunks and their eight neighbours, each once.
    fn affected_chunks(&self) -> (affected: Vec<ChunkCord>)
        requires
            self.wf(),
            fits_tick_bounds(self@),
        ensures
            forall|i: int|
                0 <= i < affected.len() ==> affected_chunk_ok(affected@[i].chunk_x as int)
                    && affected_chunk_ok(affected@[i].chunk_y as int),
            self.all_near(affected@),
            forall|k: u128, dx: int, dy: int|
                self.chunks@.contains_key(k) && -1 <= dx <= 1 && -1 <= dy <= 1
                    ==> #[trigger] affected@.contains(
                    ChunkCord {
                        chunk_x: (unpack_hi(k as int) + dx) as i64,
                        chunk_y: (unpack_lo(k as int) + dy) as i64,
                    },
                ),
    {
        let mut seen: HashSet<u128> = HashSet::new();
        let mut affected: Vec<ChunkCord> = Vec::new();
        let ghost mut done: Set<u128> = Set::empty();
        for key in it: self.chunks.keys()
            invariant
                self.wf(),
                fits_tick_bounds(self@),
                self.affected_inv(seen@, affected@),
                it.seq().unref().to_set() == self.chunks@.dom(),
                done.subset_of(self.chunks@.dom()),
                forall|kk: u128|
                    #![trigger self.chunks@.contains_key(kk)]
                    self.chunks@.contains_key(kk) ==> done.contains(kk) || (exists|j: int|
                        it.index() <= j < it.seq().len() && *it.seq()[j] == kk),
                forall|kk: u128, dx: int, dy: int|
                    done.contains(kk) && -1 <= dx <= 1 && -1 <= dy <= 1
                        ==> #[trigger] affected@.contains(
                        ChunkCord {
                            chunk_x: (unpack_hi(kk as int) + dx) as i64,
                            chunk_y: (unpack_lo(kk as int) + dy) as i64,
                        },
                    ),
        {
            let k = *key;
            proof {
                assert(it.seq().unref()[it.index() as int] == k);
                assert(it.seq().unref().to_set().contains(k));
                self.lemma_keys_safe(k);
            }
            let (cx, cy) = unpack(k);
            let ghost before = affected@;
            let mut dx: i64 = -1;
            while dx <= 1
                invariant
                    -1 <= dx <= 2,
                    self.wf(),
                    self.chunks@.contains_key(k),
                    cx == unpack_hi(k as int),
                    cy == unpack_lo(k as int),
                    -0x3FF_FFFF_FFFF_FFFE <= cx <= 0x3FF_FFFF_FFFF_FFFD,
                    -0x3FF_FFFF_FFFF_FFFE <= cy <= 0x3FF_FFFF_FFFF_FFFD,
                    self.affected_inv(seen@, affected@),
                    forall|c: ChunkCord| before.contains(c) ==> affected@.contains(c),
                    forall|ddx: int, ddy: int|
                        -1 <= ddx < dx && -1 <= ddy <= 1 ==> #[trigger] affected@.contains(
                            ChunkCord { chunk_x: (cx + ddx) as i64, chunk_y: (cy + ddy) as i64 },
                        ),
                decreases 2 - dx,
            {
                let mut dy: i64 = -1;
                while dy <= 1
                    invariant
                        -1 <= dx <= 1,
                        -1 <= dy <= 2,
                        self.wf(),
                        self.chunks@.contains_key(k),
                        cx == unpack_hi(k as int),
                        cy == unpack_lo(k as int),
                        -0x3FF_FFFF_FFFF_FFFE <= cx <= 0x3FF_FFFF_FFFF_FFFD,
                        -0x3FF_FFFF_FFFF_FFFE <= cy <= 0x3FF_FFFF_FFFF_FFFD,
                        self.affected_inv(seen@, affected@),
                        forall|c: ChunkCord| before.contains(c) ==> affected@.contains(c),
                        forall|ddx: int, ddy: int|
                            (-1 <= ddx < dx && -1 <= ddy <= 1) || (ddx == dx && -1 <= ddy < dy)
                                ==> #[trigger] affected@.contains(
                                ChunkCord {
                                    chunk_x: (cx + ddx) as i64,
                                    chunk_y: (cy + ddy) as i64,
                                },
                            ),
                    decreases 2 - dy,
                {
                    let c = ChunkCord { chunk_x: cx + dx, chunk_y: cy + dy };
                    let ghost prev = affected@;
                    self.push_unique(&mut seen, &mut affected, c, Ghost(k));
                    assert forall|cc: ChunkCord| prev.contains(cc) implies affected@.contains(cc) by {
                        if affected@ != prev {
                            let i = choose|i: int| 0 <= i < prev.len() && prev[i] == cc;
                            assert(affected@[i] == cc);
                        }
                    }
                    assert forall|ddx: int, ddy: int|
                        (-1 <= ddx < dx && -1 <= ddy <= 1) || (ddx == dx && -1 <= ddy <= dy)
                            implies #[trigger] affected@.contains(
                            ChunkCord { chunk_x: (cx + ddx) as i64, chunk_y: (cy + ddy) as i64 },
                        ) by {
                        let cc = ChunkCord {
                            chunk_x: (cx + ddx) as i64,
                            chunk_y: (cy + ddy) as i64,
                        };
                        if ddx == dx && ddy == dy {
                            assert(cc == c);
                        } else {
                            assert(prev.contains(cc));
                        }
                    }
                    dy = dy + 1;
                }
                assert forall|ddx: int, ddy: int|
                    -1 <= ddx <= dx && -1 <= ddy <= 1 implies #[trigger] affected@.contains(
                        ChunkCord { chunk_x: (cx + ddx) as i64, chunk_y: (cy + ddy) as i64 },
                    ) by {
                    assert((-1 <= ddx < dx && -1 <= ddy <= 1) || (ddx == dx && -1 <= ddy < dy));
                }
                dx = dx + 1;
            }
            proof {
                let ghost old_done = done;
                done = done.insert(k);
                assert forall|kk: u128|
                    #![trigger self.chunks@.contains_key(kk)]
                    self.chunks@.contains_key(kk) implies done.contains(kk) || (exists|j: int|
                        it.index() + 1 <= j < it.seq().len() && *it.seq()[j] == kk) by {
                    if !old_done.contains(kk) {
                        let j = choose|j: int|
                            it.index() <= j < it.seq().len() && *it.seq()[j] == kk;
                        if j == it.index() {
                            assert(kk == k);
                        }
                    }
                }
                assert forall|kk: u128, ddx: int, ddy: int|
                    done.contains(kk) && -1 <= ddx <= 1 && -1 <= ddy <= 1
                        implies #[trigger] affected@.contains(
                        ChunkCord {
                            chunk_x: (unpack_hi(kk as int) + ddx) as i64,
                            chunk_y: (unpack_lo(kk as int) + ddy) as i64,
                        },
                    ) by {
                    if kk != k {
                        let cc = ChunkCord {
                            chunk_x: (unpack_hi(kk as int) + ddx) as i64,
                            chunk_y: (unpack_lo(kk as int) + ddy) as i64,
                        };
                        assert(old_done.contains(kk));
                        assert(before.contains(cc));
                    }
                }
            }
        }
        proof {
            assert(self.affected_inv(seen@, affected@));
            assert(self.all_near(affected@));
            assert(done =~= self.chunks@.dom());
            assert forall|k: u128, dx: int, dy: int|
                self.chunks@.contains_key(k) && -1 <= dx <= 1 && -1 <= dy <= 1
                    implies #[trigger] affected@.contains(
                    ChunkCord {
                        chunk_x: (unpack_hi(k as int) + dx) as i64,
                        chunk_y: (unpack_lo(k as int) + dy) as i64,
                    },
                ) by {
                assert(done.contains(k));
            }
        }
        affected
    }
}

impl World {
    /// Whether the chunk `(cx, cy)` is within one chunk of `a` and comes
    /// before `(a.chunk_x + dx, a.chunk_y + dy)` in the order in which the
    /// neighbourhood of `a` is read.
    spec fn read_before(a: ChunkCord, cx: int, cy: int, dx: int, dy: int) -> bool {
        let ex = cx - a.chunk_x;
        let ey = cy - a.chunk_y;
        (-1 <= ex < dx && -1 <= ey <= 1) || (ex == dx && -1 <= ey < dy)
    }

    /// The keys of the live cells in chunk `a` and its eight neighbours.
    fn gather_local(&self, a: ChunkCord) -> (local: HashSet<u128>)
        requires
            self.wf(),
            affected_chunk_ok(a.chunk_x as int),
            affected_chunk_ok(a.chunk_y as int),
        ensures
            self.local_exact(local@, a),
            forall|k: u128| #[trigger]
                local@.contains(k) ==> self@.contains((unpack_hi(k as int), unpack_lo(k as int))),
            forall|x: int, y: int|
                #![trigger self@.contains((x, y))]
                self@.contains((x, y)) && -1 <= chunk_of(x) - a.chunk_x <= 1 && -1 <= chunk_of(y)
                    - a.chunk_y <= 1 ==> local@.contains(pack_spec(x, y) as u128),
    {
        let mut local: HashSet<u128> = HashSet::new();
        let mut dx: i64 = -1;
        while dx <= 1
            invariant
                -1 <= dx <= 2,
                self.wf(),
                affected_chunk_ok(a.chunk_x as int),
                affected_chunk_ok(a.chunk_y as int),
                forall|k: u128| #[trigger]
                    local@.contains(k) ==> self@.contains(
                        (unpack_hi(k as int), unpack_lo(k as int)),
                    ),
                forall|x: int, y: int|
                    #![trigger self@.contains((x, y))]
                    self@.contains((x, y)) && Self::read_before(
                        a,
                        chunk_of(x),
                        chunk_of(y),
                        dx as int,
                        -1,
                    ) ==> local@.contains(pack_spec(x, y) as u128),
            decreases 2 - dx,
        {
            let mut dy: i64 = -1;
            while dy <= 1
                invariant
                    -1 <= dx <= 1,
                    -1 <= dy <= 2,
                    self.wf(),
                    affected_chunk_ok(a.chunk_x as int),
                    affected_chunk_ok(a.chunk_y as int),
                    forall|k: u128| #[trigger]
                        local@.contains(k) ==> self@.contains(
                            (unpack_hi(k as int), unpack_lo(k as int)),
                        ),
                    forall|x: int, y: int|
                        #![trigger self@.contains((x, y))]
                        self@.contains((x, y)) && Self::read_before(
                            a,
                            chunk_of(x),
                            chunk_of(y),
                            dx as int,
                            dy as int,
                        ) ==> local@.contains(pack_spec(x, y) as u128),
                decreases 2 - dy,
            {
                let nx = a.chunk_x + dx;
                let ny = a.chunk_y + dy;
                let key = pack(nx, ny);
                let ghost before = local@;
                match self.chunks.get(&key) {
                    Some(chunk) => {
                        let offset_x = nx * 32;
                        let offset_y = ny * 32;
                        let mut idx: usize = 0;
                        while idx < 1024
                            invariant
                                idx <= 1024,
                                self.wf(),
                                -0x400_0000_0000_0000 <= nx < 0x400_0000_0000_0000,
                                -0x400_0000_0000_0000 <= ny < 0x400_0000_0000_0000,
                                offset_x == nx * 32,
                                offset_y == ny * 32,
                                key == pack_spec(nx as int, ny as int),
                                self.chunks@.contains_key(key),
                                self.chunks@[key] == *chunk,
                                before.subset_of(local@),
                                forall|k: u128| #[trigger]
                                    local@.contains(k) ==> self@.contains(
                                        (unpack_hi(k as int), unpack_lo(k as int)),
                                    ),
                                forall|lx: int, ly: int|
                                    #![trigger chunk.cell(lx, ly)]
                                    0 <= lx < 32 && 0 <= ly < 32 && ly * 32 + lx < idx
                                        && chunk.cell(lx, ly) ==> local@.contains(
                                        pack_spec(offset_x + lx, offset_y + ly) as u128,
                                    ),
                            decreases 1024 - idx,
                        {
                            let lx = idx % 32;
                            let ly = idx / 32;
                            if chunk.get_local(lx, ly) {
                                let cx = offset_x + lx as i64;
                                let cy = offset_y + ly as i64;
                                proof {
                                    lemma_cell_of_chunk(nx as int, ny as int, lx as int, ly as int);
                                    lemma_same_chunk(cx as int, cy as int, cx as int, cy as int);
                                    lemma_pack(cx as int, cy as int);
                                    assert(self.alive(cx as int, cy as int));
                                    assert(self@.contains((cx as int, cy as int)));
                                }
                                local.insert(pack(cx, cy));
                            }
                            idx = idx + 1;
                        }
                        proof {
                            assert forall|x: int, y: int|
                                #![trigger self@.contains((x, y))]
                                self@.contains((x, y)) && chunk_of(x) == nx && chunk_of(y)
                                    == ny implies local@.contains(pack_spec(x, y) as u128) by {
                                lemma_cell_split(x);
                                lemma_cell_split(y);
                                assert(chunk.cell(local_of(x), local_of(y)));
                            }
                        }
                    },
                    None => {
                        proof {
                            assert forall|x: int, y: int|
                                self@.contains((x, y)) implies !(chunk_of(x) == nx && chunk_of(y)
                                    == ny) by {
                                assert(self.alive(x, y));
                            }
                        }
                    },
                }
                dy = dy + 1;
            }
            dx = dx + 1;
        }
        local
    }

    /// The number of keys in `local` among those of the eight neighbours of
    /// `(x, y)`.
    fn count_neighbors(local: &HashSet<u128>, x: i64, y: i64) -> (n: usize)
        requires
            i64::MIN < x < i64::MAX,
            i64::MIN < y < i64::MAX,
        ensures
            n == b2n(local@.contains(pack_spec(x - 1, y - 1) as u128)) + b2n(
                local@.contains(pack_spec(x - 1, y as int) as u128),
            ) + b2n(local@.contains(pack_spec(x - 1, y + 1) as u128)) + b2n(
                local@.contains(pack_spec(x as int, y - 1) as u128),
            ) + b2n(local@.contains(pack_spec(x as int, y + 1) as u128)) + b2n(
                local@.contains(pack_spec(x + 1, y - 1) as u128),
            ) + b2n(local@.contains(pack_spec(x + 1, y as int) as u128)) + b2n(
                local@.contains(pack_spec(x + 1, y + 1) as u128),
            ),
    {
        let mut n: usize = 0;
        if local.contains(&pack(x - 1, y - 1)) {
            n = n + 1;
        }
        if local.contains(&pack(x - 1, y)) {
            n = n + 1;
        }
        if local.contains(&pack(x - 1, y + 1)) {
            n = n + 1;
        }
        if local.contains(&pack(x, y - 1)) {
            n = n + 1;
        }
        if local.contains(&pack(x, y + 1)) {
            n = n + 1;
        }
        if local.contains(&pack(x + 1, y - 1)) {
            n = n + 1;
        }
        if local.contains(&pack(x + 1, y)) {
            n = n + 1;
        }
        if local.contains(&pack(x + 1, y + 1)) {
            n = n + 1;
        }
        n
    }
}

impl World {
    /// The keys in `local` are exactly those of the live cells within one
    /// chunk of `a`.
    spec fn local_exact(self, local: Set<u128>, a: ChunkCord) -> bool {
        &&& forall|k: u128| #[trigger]
            local.contains(k) ==> self@.contains((unpack_hi(k as int), unpack_lo(k as int)))
        &&& forall|x: int, y: int|
            #![trigger self@.contains((x, y))]
            self@.contains((x, y)) && -1 <= chunk_of(x) - a.chunk_x <= 1 && -1 <= chunk_of(y)
                - a.chunk_y <= 1 ==> local.contains(pack_spec(x, y) as u128)
    }

    proof fn lemma_local_lookup(self, local: Set<u128>, a: ChunkCord, x: int, y: int)
        requires
            self.local_exact(local, a),
            in_i64(x),
            in_i64(y),
            -1 <= chunk_of(x) - a.chunk_x <= 1,
            -1 <= chunk_of(y) - a.chunk_y <= 1,
        ensures
            local.contains(pack_spec(x, y) as u128) == self@.contains((x, y)),
    {
        lemma_pack(x, y);
        if local.contains(pack_spec(x, y) as u128) {
            assert(self@.contains(
                (unpack_hi(pack_spec(x, y) as u128 as int), unpack_lo(pack_spec(x, y) as u128 as int)),
            ));
        }
    }

    /// The cells of `out` are cells of chunk `a` alive after a step, and it
    /// holds every such cell `(xx, yy)` with `xx < x`, or `xx == x` and
    /// `yy < y`.
    spec fn partial_step(self, a: ChunkCord, out: Seq<Cord>, x: int, y: int) -> bool {
        &&& forall|i: int|
            #![trigger out[i]]
            0 <= i < out.len() ==> chunk_of(out[i].x as int) == a.chunk_x && chunk_of(
                out[i].y as int,
            ) == a.chunk_y && next_alive(
                self@,
                self.survival_rule(),
                self.birth_rule(),
                out[i].x as int,
                out[i].y as int,
            )
        &&& forall|xx: int, yy: int|
            #![trigger next_alive(self@, self.survival_rule(), self.birth_rule(), xx, yy)]
            chunk_of(xx) == a.chunk_x && chunk_of(yy) == a.chunk_y && in_i64(xx) && in_i64(yy)
                && (xx < x || (xx == x && yy < y)) && next_alive(
                self@,
                self.survival_rule(),
                self.birth_rule(),
                xx,
                yy,
            ) ==> out.contains(Cord { x: xx as i64, y: yy as i64 })
    }

    /// Chunk `a` after one step: its position and those of its cells that
    /// are then alive.
    fn next_cells(&self, a: ChunkCord) -> (r: (ChunkCord, Vec<Cord>))
        requires
            self.wf(),
            affected_chunk_ok(a.chunk_x as int),
            affected_chunk_ok(a.chunk_y as int),
        ensures
            r.0 == a,
            chunk_step_ok(self@, self.survival_rule(), self.birth_rule(), a, r.1@),
    {
        let local = self.gather_local(a);
        let survival = self.survival;
        let birth = self.birth;
        let x_start = a.chunk_x * 32;
        let y_start = a.chunk_y * 32;
        let x_end = x_start + 32;
        let y_end = y_start + 32;
        let mut new_cells: Vec<Cord> = Vec::new();
        let mut x = x_start;
        while x < x_end
            invariant
                x_start <= x <= x_end,
                x_start == a.chunk_x * 32,
                y_start == a.chunk_y * 32,
                x_end == x_start + 32,
                y_end == y_start + 32,
                affected_chunk_ok(a.chunk_x as int),
                affected_chunk_ok(a.chunk_y as int),
                survival == self.survival_rule(),
                birth == self.birth_rule(),
                self.local_exact(local@, a),
                self.partial_step(a, new_cells@, x as int, y_start as int),
            decreases x_end - x,
        {
            let mut y = y_start;
            while y < y_end
                invariant
                    x_start <= x < x_end,
                    y_start <= y <= y_end,
                    x_start == a.chunk_x * 32,
                    y_start == a.chunk_y * 32,
                    x_end == x_start + 32,
                    y_end == y_start + 32,
                    affected_chunk_ok(a.chunk_x as int),
                    affected_chunk_ok(a.chunk_y as int),
                    survival == self.survival_rule(),
                    birth == self.birth_rule(),
                    self.local_exact(local@, a),
                    self.partial_step(a, new_cells@, x as int, y as int),
                decreases y_end - y,
            {
                proof {
                    lemma_cell_of_chunk(
                        a.chunk_x as int,
                        a.chunk_y as int,
                        x - x_start,
                        y - y_start,
                    );
                    let xi = x as int;
                    let yi = y as int;
                    lemma_neighbor_chunk(xi, -1, a.chunk_x as int);
                    lemma_neighbor_chunk(xi, 1, a.chunk_x as int);
                    lemma_neighbor_chunk(yi, -1, a.chunk_y as int);
                    lemma_neighbor_chunk(yi, 1, a.chunk_y as int);
                    self.lemma_local_lookup(local@, a, xi, yi);
                    self.lemma_local_lookup(local@, a, xi - 1, yi - 1);
                    self.lemma_local_lookup(local@, a, xi - 1, yi);
                    self.lemma_local_lookup(local@, a, xi - 1, yi + 1);
                    self.lemma_local_lookup(local@, a, xi, yi - 1);
                    self.lemma_local_lookup(local@, a, xi, yi + 1);
                    self.lemma_local_lookup(local@, a, xi + 1, yi - 1);
                    self.lemma_local_lookup(local@, a, xi + 1, yi);
                    self.lemma_local_lookup(local@, a, xi + 1, yi + 1);
                }
                let is_alive = local.contains(&pack(x, y));
                let neighbors = Self::count_neighbors(&local, x, y);
                let should_be = (!is_alive && neighbors == birth) || (is_alive && (neighbors
                    == survival || neighbors == birth));
                let ghost before = new_cells@;
                if should_be {
                    new_cells.push(Cord { x, y });
                }
                proof {
                    let cells = self@;
                    assert(neighbors == live_neighbors(cells, x as int, y as int));
                    assert(should_be == next_alive(
                        cells,
                        self.survival_rule(),
                        self.birth_rule(),
                        x as int,
                        y as int,
                    ));
                    assert forall|i: int|
                        #![trigger new_cells@[i]]
                        0 <= i < new_cells.len() implies chunk_of(new_cells@[i].x as int)
                            == a.chunk_x && chunk_of(new_cells@[i].y as int) == a.chunk_y
                            && next_alive(
                            cells,
                            self.survival_rule(),
                            self.birth_rule(),
                            new_cells@[i].x as int,
                            new_cells@[i].y as int,
                        ) by {
                        if i < before.len() {
                            assert(new_cells@[i] == before[i]);
                        }
                    }
                    assert forall|xx: int, yy: int|
                        #![trigger next_alive(cells, self.survival_rule(), self.birth_rule(), xx, yy)]
                        chunk_of(xx) == a.chunk_x && chunk_of(yy) == a.chunk_y && in_i64(xx)
                            && in_i64(yy) && (xx < x || (xx == x && yy < y + 1)) && next_alive(
                            cells,
                            self.survival_rule(),
                            self.birth_rule(),
                            xx,
                            yy,
                        ) implies new_cells@.contains(Cord { x: xx as i64, y: yy as i64 }) by {
                        if xx == x && yy == y {
                            assert(new_cells@[new_cells.len() - 1] == Cord { x, y });
                        } else {
                            let c = Cord { x: xx as i64, y: yy as i64 };
                            assert(before.contains(c));
                            let i = choose|i: int| 0 <= i < before.len() && before[i] == c;
                            assert(new_cells@[i] == c);
                        }
                    }
                }
                y = y + 1;
            }
            proof {
                assert forall|xx: int, yy: int|
                    #![trigger next_alive(self@, self.survival_rule(), self.birth_rule(), xx, yy)]
                    chunk_of(xx) == a.chunk_x && chunk_of(yy) == a.chunk_y && in_i64(xx) && in_i64(
                        yy,
                    ) && (xx < x + 1 || (xx == x + 1 && yy < y_start)) && next_alive(
                        self@,
                        self.survival_rule(),
                        self.birth_rule(),
                        xx,
                        yy,
                    ) implies new_cells@.contains(Cord { x: xx as i64, y: yy as i64 }) by {
                    vstd::arithmetic::div_mod::lemma_fundamental_div_mod(yy, 32);
                    assert(yy < y_end);
                }
            }
            x = x + 1;
        }
        proof {
            assert forall|xx: int, yy: int|
                #![trigger next_alive(self@, self.survival_rule(), self.birth_rule(), xx, yy)]
                chunk_of(xx) == a.chunk_x && chunk_of(yy) == a.chunk_y && in_i64(xx) && in_i64(yy)
                    && next_alive(
                    self@,
                    self.survival_rule(),
                    self.birth_rule(),
                    xx,
                    yy,
                ) implies new_cells@.contains(Cord { x: xx as i64, y: yy as i64 }) by {
                vstd::arithmetic::div_mod::lemma_fundamental_div_mod(xx, 32);
                assert(xx < x_end);
            }
        }
        (a, new_cells)
    }
}

/// `rayon`'s `par_iter().map(..).collect()` on a slice: runs
/// `World::next_cells` on every chunk of `affected`, in parallel, and
/// collects the results in the order of `affected` (an indexed parallel
/// iterator collected into a `Vec` keeps its order).
#[verifier::external_body]
fn next_cells_par(world: &World, affected: &Vec<ChunkCord>) -> (r: Vec<(ChunkCord, Vec<Cord>)>)
    requires
        world.wf(),
        forall|i: int|
            0 <= i < affected.len() ==> affected_chunk_ok(affected@[i].chunk_x as int)
                && affected_chunk_ok(affected@[i].chunk_y as int),
    ensures
        r.len() == affected.len(),
        forall|i: int|
            #![trigger r@[i]]
            0 <= i < r.len() ==> r@[i].0 == affected@[i] && chunk_step_ok(
                world@,
                world.survival_rule(),
                world.birth_rule(),
                affected@[i],
                r@[i].1@,
            ),
{
    affected.par_iter().map(|c| world.next_cells(*c)).collect()
}

impl World {
    /// Every cell alive in `m` is alive after the step of `self`, and every
    /// cell listed in the first `n` results is alive in `m`.
    spec fn build_inv(self, m: Map<u128, Chunk>, next: Seq<(ChunkCord, Vec<Cord>)>, n: int) -> bool {
        &&& map_wf(m)
        &&& forall|x: int, y: int|
            #![trigger map_alive(m, x, y)]
            map_alive(m, x, y) ==> tick_result(
                self@,
                self.survival_rule(),
                self.birth_rule(),
            ).contains((x, y))
        &&& forall|i: int, j: int|
            #![trigger next[i].1@[j]]
            0 <= i < n && 0 <= j < next[i].1@.len() ==> map_alive(
                m,
                next[i].1@[j].x as int,
                next[i].1@[j].y as int,
            )
    }

    /// The cells listed for an affected chunk are alive after the step.
    proof fn lemma_listed_cell(
        self,
        affected: Seq<ChunkCord>,
        next: Seq<(ChunkCord, Vec<Cord>)>,
        i: int,
        j: int,
    )
        requires
            self.wf(),
            self.all_near(affected),
            next.len() == affected.len(),
            0 <= i < next.len(),
            next[i].0 == affected[i],
            chunk_step_ok(self@, self.survival_rule(), self.birth_rule(), affected[i], next[i].1@),
            0 <= j < next[i].1@.len(),
        ensures
            tick_result(self@, self.survival_rule(), self.birth_rule()).contains(
                (next[i].1@[j].x as int, next[i].1@[j].y as int),
            ),
    {
        let a = affected[i];
        let c = next[i].1@[j];
        assert(chunk_of(c.x as int) == a.chunk_x && chunk_of(c.y as int) == a.chunk_y);
        let k = choose|k: u128| #[trigger] self.chunks@.contains_key(k) && near_key(a, k);
        let q = self.live_cell_of_chunk(k);
        lemma_cell_split(q.0);
        lemma_cell_split(q.1);
        lemma_same_chunk(q.0, q.1, q.0, q.1);
        lemma_pack(chunk_of(q.0), chunk_of(q.1));
        assert(self@.contains(q));
        assert(near_live_chunk(self@, c.x as int, c.y as int));
    }

    /// Advances the world by one step of its rule.
    pub fn tick(&mut self)
        requires
            old(self).wf(),
            fits_tick_bounds(old(self)@),
        ensures
            final(self).wf(),
            final(self)@ == tick_result(
                old(self)@,
                old(self).survival_rule(),
                old(self).birth_rule(),
            ),
            final(self).survival_rule() == old(self).survival_rule(),
            final(self).birth_rule() == old(self).birth_rule(),
    {
        let affected = self.affected_chunks();
        let next = next_cells_par(self, &affected);
        let mut new_chunks: HashMap<u128, Chunk> = HashMap::new();
        let mut i: usize = 0;
        while i < next.len()
            invariant
                i <= next.len(),
                next.len() == affected.len(),
                self.wf(),
                self.all_near(affected@),
                forall|t: int|
                    #![trigger next@[t]]
                    0 <= t < next.len() ==> next@[t].0 == affected@[t] && chunk_step_ok(
                        self@,
                        self.survival_rule(),
                        self.birth_rule(),
                        affected@[t],
                        next@[t].1@,
                    ),
                forall|t: int|
                    0 <= t < affected.len() ==> affected_chunk_ok(affected@[t].chunk_x as int)
                        && affected_chunk_ok(affected@[t].chunk_y as int),
                self.build_inv(new_chunks@, next@, i as int),
            decreases next.len() - i,
        {
            let c = next[i].0;
            let cells = &next[i].1;
            if cells.len() > 0 {
                let key = pack(c.chunk_x, c.chunk_y);
                let mut chunk = match new_chunks.get(&key) {
                    Some(ch) => *ch,
                    None => Chunk::new(),
                };
                let ghost base = chunk;
                proof {
                    lemma_pack(c.chunk_x as int, c.chunk_y as int);
                }
                let mut j: usize = 0;
                while j < cells.len()
                    invariant
                        j <= cells.len(),
                        0 <= i < next.len(),
                        next.len() == affected.len(),
                        c == next@[i as int].0,
                        *cells == next@[i as int].1,
                        c == affected@[i as int],
                        affected_chunk_ok(c.chunk_x as int),
                        affected_chunk_ok(c.chunk_y as int),
                        self.wf(),
                        self.all_near(affected@),
                        chunk_step_ok(
                            self@,
                            self.survival_rule(),
                            self.birth_rule(),
                            affected@[i as int],
                            next@[i as int].1@,
                        ),
                        forall|lx: int, ly: int|
                            #![trigger base.cell(lx, ly)]
                            0 <= lx < 32 && 0 <= ly < 32 && base.cell(lx, ly) ==> chunk.cell(lx, ly),
                        forall|lx: int, ly: int|
                            #![trigger chunk.cell(lx, ly)]
                            0 <= lx < 32 && 0 <= ly < 32 && chunk.cell(lx, ly) && !base.cell(lx, ly)
                                ==> tick_result(
                                self@,
                                self.survival_rule(),
                                self.birth_rule(),
                            ).contains((32 * c.chunk_x + lx, 32 * c.chunk_y + ly)),
                        forall|t: int|
                            #![trigger cells@[t]]
                            0 <= t < j ==> chunk.cell(
                                local_of(cells@[t].x as int),
                                local_of(cells@[t].y as int),
                            ),
                    decreases cells.len() - j,
                {
                    let cord = cells[j];
                    let lx = local_coord(cord.x);
                    let ly = local_coord(cord.y);
                    let ghost prev = chunk;
                    chunk.set_local(lx, ly, true);
                    proof {
                        self.lemma_listed_cell(affected@, next@, i as int, j as int);
                        lemma_cell_split(cord.x as int);
                        lemma_cell_split(cord.y as int);
                        assert forall|t: int|
                            #![trigger cells@[t]]
                            0 <= t < j + 1 implies chunk.cell(
                                local_of(cells@[t].x as int),
                                local_of(cells@[t].y as int),
                            ) by {
                            lemma_cell_split(cells@[t].x as int);
                            lemma_cell_split(cells@[t].y as int);
                            if t < j {
                                assert(prev.cell(
                                    local_of(cells@[t].x as int),
                                    local_of(cells@[t].y as int),
                                ));
                            }
                        }
                        assert forall|ax: int, ay: int|
                            #![trigger chunk.cell(ax, ay)]
                            0 <= ax < 32 && 0 <= ay < 32 && chunk.cell(ax, ay) && !base.cell(ax, ay)
                                implies tick_result(
                                self@,
                                self.survival_rule(),
                                self.birth_rule(),
                            ).contains((32 * c.chunk_x + ax, 32 * c.chunk_y + ay)) by {
                            if ax == lx && ay == ly {
                                assert(cord.x == 32 * c.chunk_x + ax);
                                assert(cord.y == 32 * c.chunk_y + ay);
                            } else {
                                assert(prev.cell(ax, ay));
                            }
                        }
                    }
                    j = j + 1;
                }
                let ghost old_map = new_chunks@;
                new_chunks.insert(key, chunk);
                proof {
                    let m = new_chunks@;
                    let cells_i = next@[i as int].1@;
                    let c0 = cells_i[0];
                    lemma_cell_split(c0.x as int);
                    lemma_cell_split(c0.y as int);
                    assert(chunk.cell(local_of(c0.x as int), local_of(c0.y as int)));
                    lemma_unpack(key as int);
                    assert(map_wf(m));
                    assert forall|x: int, y: int|
                        #![trigger map_alive(m, x, y)]
                        map_alive(m, x, y) implies tick_result(
                            self@,
                            self.survival_rule(),
                            self.birth_rule(),
                        ).contains((x, y)) by {
                        lemma_cell_split(x);
                        lemma_cell_split(y);
                        lemma_same_chunk(x, y, x, y);
                        if cell_chunk_key(x, y) == key {
                            lemma_pack_injective(
                                chunk_of(x),
                                chunk_of(y),
                                c.chunk_x as int,
                                c.chunk_y as int,
                            );
                            if !base.cell(local_of(x), local_of(y)) {
                                assert(chunk.cell(local_of(x), local_of(y)));
                            } else {
                                assert(map_alive(old_map, x, y));
                            }
                        } else {
                            assert(map_alive(old_map, x, y));
                        }
                    }
                    assert forall|t: int, u: int|
                        #![trigger next@[t].1@[u]]
                        0 <= t < i + 1 && 0 <= u < next@[t].1@.len() implies map_alive(
                            m,
                            next@[t].1@[u].x as int,
                            next@[t].1@[u].y as int,
                        ) by {
                        let p = next@[t].1@[u];
                        let px = p.x as int;
                        let py = p.y as int;
                        lemma_cell_split(px);
                        lemma_cell_split(py);
                        lemma_same_chunk(px, py, px, py);
                        if t == i {
                            assert(cells@[u] == p);
                            assert(chunk_of(px) == c.chunk_x && chunk_of(py) == c.chunk_y);
                            assert(chunk.cell(local_of(px), local_of(py)));
                        } else {
                            assert(map_alive(old_map, px, py));
                            if cell_chunk_key(px, py) == key {
                                assert(base.cell(local_of(px), local_of(py)));
                            }
                        }
                    }
                }
            } else {
                proof {
                    assert forall|t: int, u: int|
                        #![trigger next@[t].1@[u]]
                        0 <= t < i + 1 && 0 <= u < next@[t].1@.len() implies map_alive(
                            new_chunks@,
                            next@[t].1@[u].x as int,
                            next@[t].1@[u].y as int,
                        ) by {
                        assert(t < i);
                    }
                }
            }
            i = i + 1;
        }
        let ghost old_cells = self@;
        let ghost s = self.survival_rule();
        let ghost b = self.birth_rule();
        proof {
            assert forall|x: int, y: int|
                tick_result(old_cells, s, b).contains((x, y)) implies map_alive(new_chunks@, x, y) by {
                let q = choose|q: (int, int)|
                    #![trigger old_cells.contains(q)]
                    old_cells.contains(q) && -1 <= chunk_of(q.0) - chunk_of(x) <= 1 && -1
                        <= chunk_of(q.1) - chunk_of(y) <= 1;
                assert(self.alive(q.0, q.1));
                lemma_cell_split(q.0);
                lemma_cell_split(q.1);
                lemma_same_chunk(q.0, q.1, q.0, q.1);
                lemma_pack(chunk_of(q.0), chunk_of(q.1));
                let kq = cell_chunk_key(q.0, q.1) as u128;
                assert(self.chunks@.contains_key(kq));
                let dx = chunk_of(x) - chunk_of(q.0);
                let dy = chunk_of(y) - chunk_of(q.1);
                let a = ChunkCord {
                    chunk_x: (unpack_hi(kq as int) + dx) as i64,
                    chunk_y: (unpack_lo(kq as int) + dy) as i64,
                };
                assert(affected@.contains(a));
                let t = choose|t: int| 0 <= t < affected.len() && affected@[t] == a;
                assert(affected_chunk_ok(a.chunk_x as int) && affected_chunk_ok(a.chunk_y as int));
                assert(next@[t].0 == a);
                vstd::arithmetic::div_mod::lemma_fundamental_div_mod(x, 32);
                vstd::arithmetic::div_mod::lemma_fundamental_div_mod(y, 32);
                assert(in_i64(x) && in_i64(y));
                assert(next_alive(old_cells, s, b, x, y));
                let cx = Cord { x: x as i64, y: y as i64 };
                assert(next@[t].1@.contains(cx));
                let u = choose|u: int| 0 <= u < next@[t].1@.len() && next@[t].1@[u] == cx;
                assert(map_alive(new_chunks@, next@[t].1@[u].x as int, next@[t].1@[u].y as int));
            }
        }
        self.chunks = new_chunks;
        proof {
            assert(self@ =~= tick_result(old_cells, s, b));
        }
    }
}

/// A character to put at a cell of the screen.
#[derive(Clone, Copy, Debug, PartialEq, Eq, Structural)]
pub struct Glyph {
    pub x: u16,
    pub y: u16,
    pub ch: char,
}

/// Whether the live cell `(x, y)` is drawn on `rect` at zoom level 1 by a
/// camera at `(pos_x, pos_y)`: it lies in the window the area spans and has a
/// position on the area.
pub open spec fn shown_normal(
    cells: Set<(int, int)>,
    pos_x: int,
    pos_y: int,
    rect: Rect,
    x: int,
    y: int,
) -> bool {
    &&& cells.contains((x, y))
    &&& pos_x <= x < pos_x + rect.width
    &&& pos_y <= y < pos_y + rect.height
    &&& world_to_buffer_spec(pos_x, pos_y, x, y, rect) is Some
}

/// The glyph drawn for the cell `(x, y)` at zoom level 1.
pub open spec fn normal_glyph(pos_x: int, pos_y: int, rect: Rect, x: int, y: int) -> Glyph {
    let pos = world_to_buffer_spec(pos_x, pos_y, x, y, rect)->0;
    Glyph { x: pos.0, y: pos.1, ch: '#' }
}

/// `out` holds the glyph of every cell drawn at zoom level 1, and nothing
/// else.
pub open spec fn normal_drawing(
    cells: Set<(int, int)>,
    pos_x: int,
    pos_y: int,
    rect: Rect,
    out: Seq<Glyph>,
) -> bool {
    &&& forall|i: int|
        #![trigger out[i]]
        0 <= i < out.len() ==> {
            let (x, y) = buffer_to_world_spec(pos_x, pos_y, out[i].x as int, out[i].y as int, rect);
            shown_normal(cells, pos_x, pos_y, rect, x, y) && out[i] == normal_glyph(
                pos_x,
                pos_y,
                rect,
                x,
                y,
            )
        }
    &&& forall|x: int, y: int|
        #![trigger shown_normal(cells, pos_x, pos_y, rect, x, y)]
        shown_normal(cells, pos_x, pos_y, rect, x, y) ==> out.contains(
            normal_glyph(pos_x, pos_y, rect, x, y),
        )
}

/// Where the cell `(x, y)` comes in the order in which the world is read:
/// by chunk column, chunk row, then mask index inside the chunk.
spec fn cell_rank(x: int, y: int) -> (int, int, int) {
    (chunk_of(x), chunk_of(y), local_of(y) * 32 + local_of(x))
}

/// Whether the rank `a` comes before the rank `b`.
spec fn rank_before(a: (int, int, int), b: (int, int, int)) -> bool {
    a.0 < b.0 || (a.0 == b.0 && (a.1 < b.1 || (a.1 == b.1 && a.2 < b.2)))
}

/// The rank of the cell that the glyph `g` shows.
spec fn glyph_rank(px: int, py: int, rect: Rect, g: Glyph) -> (int, int, int) {
    let (x, y) = buffer_to_world_spec(px, py, g.x as int, g.y as int, rect);
    cell_rank(x, y)
}

/// The cell at mask index `idx` of chunk `(cx, cy)` has the rank
/// `(cx, cy, idx)`.
proof fn lemma_rank_of_index(cx: int, cy: int, idx: int)
    requires
        0 <= idx < 1024,
    ensures
        cell_rank(cx * 32 + idx % 32, cy * 32 + idx / 32) == (cx, cy, idx),
{
    vstd::arithmetic::div_mod::lemma_fundamental_div_mod(idx, 32);
    vstd::arithmetic::div_mod::lemma_fundamental_div_mod_converse(cx * 32 + idx % 32, 32, cx, idx % 32);
    vstd::arithmetic::div_mod::lemma_fundamental_div_mod_converse(cy * 32 + idx / 32, 32, cy, idx / 32);
}

/// No bit below the lowest set bit `t` of `b` is set.
proof fn lemma_below_lowest(b: u64, t: u64, j: u64)
    by (bit_vector)
    requires
        t < 64,
        j < t,
        t == 0 || b << ((64 - t) as u64) == 0,
    ensures
        (b >> j) & 1u64 == 0u64,
{
}

impl World {
    /// The glyphs of `out` are those of shown cells.
    spec fn normal_sound(self, px: int, py: int, rect: Rect, out: Seq<Glyph>) -> bool {
        forall|i: int|
            #![trigger out[i]]
            0 <= i < out.len() ==> {
                let (x, y) = buffer_to_world_spec(px, py, out[i].x as int, out[i].y as int, rect);
                shown_normal(self@, px, py, rect, x, y) && out[i] == normal_glyph(px, py, rect, x, y)
            }
    }

    /// Every shown cell in a chunk read before `(cx, cy)` is in `out`.
    spec fn normal_partial(
        self,
        px: int,
        py: int,
        rect: Rect,
        out: Seq<Glyph>,
        cx: int,
        cy: int,
        chunk_top: int,
    ) -> bool {
        forall|x: int, y: int|
            #![trigger shown_normal(self@, px, py, rect, x, y)]
            shown_normal(self@, px, py, rect, x, y) && (chunk_of(x) < cx || (chunk_of(x) == cx
                && chunk_top <= chunk_of(y) < cy)) ==> out.contains(normal_glyph(px, py, rect, x, y))
    }

    /// Adds the glyph of the cell `(world_x, world_y)` when it is shown.
    fn draw_cell_normal(
        &self,
        out: &mut Vec<Glyph>,
        camera: &Camera,
        rect: Rect,
        world_x: i64,
        world_y: i64,
    )
        requires
            rect.wf(),
            self@.contains((world_x as int, world_y as int)),
            camera.pos_x + rect.width <= i64::MAX,
            camera.pos_y + rect.height <= i64::MAX,
            forall|i: int|
                #![trigger old(out)@[i]]
                0 <= i < old(out).len() ==> {
                    let (x, y) = buffer_to_world_spec(
                        camera.pos_x as int,
                        camera.pos_y as int,
                        old(out)@[i].x as int,
                        old(out)@[i].y as int,
                        rect,
                    );
                    shown_normal(self@, camera.pos_x as int, camera.pos_y as int, rect, x, y)
                        && old(out)@[i] == normal_glyph(
                        camera.pos_x as int,
                        camera.pos_y as int,
                        rect,
                        x,
                        y,
                    )
                },
        ensures
            forall|i: int|
                #![trigger final(out)@[i]]
                0 <= i < final(out).len() ==> {
                    let (x, y) = buffer_to_world_spec(
                        camera.pos_x as int,
                        camera.pos_y as int,
                        final(out)@[i].x as int,
                        final(out)@[i].y as int,
                        rect,
                    );
                    shown_normal(self@, camera.pos_x as int, camera.pos_y as int, rect, x, y)
                        && final(out)@[i] == normal_glyph(
                        camera.pos_x as int,
                        camera.pos_y as int,
                        rect,
                        x,
                        y,
                    )
                },
            final(out)@ == old(out)@ || final(out)@ == old(out)@.push(
                normal_glyph(
                    camera.pos_x as int,
                    camera.pos_y as int,
                    rect,
                    world_x as int,
                    world_y as int,
                ),
            ),
            shown_normal(
                self@,
                camera.pos_x as int,
                camera.pos_y as int,
                rect,
                world_x as int,
                world_y as int,
            ) ==> final(out)@.contains(
                normal_glyph(
                    camera.pos_x as int,
                    camera.pos_y as int,
                    rect,
                    world_x as int,
                    world_y as int,
                ),
            ),
            final(out)@ != old(out)@ ==> buffer_to_world_spec(
                camera.pos_x as int,
                camera.pos_y as int,
                final(out)@.last().x as int,
                final(out)@.last().y as int,
                rect,
            ) == (world_x as int, world_y as int),
    {
        let left = camera.pos_x;
        let right = camera.pos_x + rect.width as i64;
        let top = camera.pos_y;
        let bottom = camera.pos_y + rect.height as i64;
        if world_x >= left && world_x < right && world_y >= top && world_y < bottom {
            if let Some((bx, by)) = camera.world_to_buffer(world_x, world_y, rect) {
                let g = Glyph { x: bx, y: by, ch: '#' };
                proof {
                    lemma_buffer_round_trip(
                        camera.pos_x as int,
                        camera.pos_y as int,
                        world_x as int,
                        world_y as int,
                        rect,
                    );
                }
                let ghost before = out@;
                out.push(g);
                assert(out@[out.len() - 1] == g);
                assert forall|i: int|
                    #![trigger out@[i]]
                    0 <= i < out.len() implies {
                        let (x, y) = buffer_to_world_spec(
                            camera.pos_x as int,
                            camera.pos_y as int,
                            out@[i].x as int,
                            out@[i].y as int,
                            rect,
                        );
                        shown_normal(self@, camera.pos_x as int, camera.pos_y as int, rect, x, y)
                            && out@[i] == normal_glyph(
                            camera.pos_x as int,
                            camera.pos_y as int,
                            rect,
                            x,
                            y,
                        )
                    } by {
                    if i < before.len() {
                        assert(out@[i] == before[i]);
                    }
                }
            }
        }
    }

    /// Adds the glyphs of the shown cells of word `widx` of the chunk
    /// `(cx, cy)`, taking its set bits lowest first.
    fn draw_word_normal(
        &self,
        out: &mut Vec<Glyph>,
        camera: &Camera,
        rect: Rect,
        chunk: &Chunk,
        cx: i64,
        cy: i64,
        widx: usize,
    )
        requires
            widx < 16,
            self.wf(),
            rect.wf(),
            camera.pos_x + rect.width <= i64::MAX,
            camera.pos_y + rect.height <= i64::MAX,
            chunk_in_range(cx as int),
            chunk_in_range(cy as int),
            self.chunks@.contains_key(pack_spec(cx as int, cy as int) as u128),
            self.chunks@[pack_spec(cx as int, cy as int) as u128] == *chunk,
            self.normal_sound(camera.pos_x as int, camera.pos_y as int, rect, old(out)@),
            old(out)@.no_duplicates(),
            forall|i: int|
                #![trigger old(out)@[i]]
                0 <= i < old(out).len() ==> rank_before(
                    glyph_rank(camera.pos_x as int, camera.pos_y as int, rect, old(out)@[i]),
                    (cx as int, cy as int, widx * 64),
                ),
        ensures
            self.normal_sound(camera.pos_x as int, camera.pos_y as int, rect, final(out)@),
            forall|c: Glyph| old(out)@.contains(c) ==> final(out)@.contains(c),
            final(out)@.no_duplicates(),
            forall|i: int|
                #![trigger final(out)@[i]]
                0 <= i < final(out).len() ==> rank_before(
                    glyph_rank(camera.pos_x as int, camera.pos_y as int, rect, final(out)@[i]),
                    (cx as int, cy as int, widx * 64 + 64),
                ),
            forall|j: int|
                #![trigger word_bit(chunk.bits@[widx as int], j)]
                0 <= j < 64 && word_bit(chunk.bits@[widx as int], j) && shown_normal(
                    self@,
                    camera.pos_x as int,
                    camera.pos_y as int,
                    rect,
                    cx * 32 + (widx * 64 + j) % 32,
                    cy * 32 + (widx * 64 + j) / 32,
                ) ==> final(out)@.contains(
                    normal_glyph(
                        camera.pos_x as int,
                        camera.pos_y as int,
                        rect,
                        cx * 32 + (widx * 64 + j) % 32,
                        cy * 32 + (widx * 64 + j) / 32,
                    ),
                ),
    {
        let ghost px = camera.pos_x as int;
        let ghost py = camera.pos_y as int;
        let offset_x = cx * 32;
        let offset_y = cy * 32;
        let word = chunk.bits[widx];
        let mut bits = word;
        let base_idx = widx * 64;
        let ghost out_word = out@;
        while bits != 0
            invariant
                widx < 16,
                base_idx == widx * 64,
                word == chunk.bits@[widx as int],
                px == camera.pos_x,
                py == camera.pos_y,
                self.wf(),
                rect.wf(),
                camera.pos_x + rect.width <= i64::MAX,
                camera.pos_y + rect.height <= i64::MAX,
                chunk_in_range(cx as int),
                chunk_in_range(cy as int),
                offset_x == cx * 32,
                offset_y == cy * 32,
                self.chunks@.contains_key(pack_spec(cx as int, cy as int) as u128),
                self.chunks@[pack_spec(cx as int, cy as int) as u128] == *chunk,
                forall|c: Glyph| out_word.contains(c) ==> out@.contains(c),
                self.normal_sound(px, py, rect, out@),
                out@.no_duplicates(),
                forall|i: int|
                    #![trigger out@[i]]
                    0 <= i < out.len() ==> rank_before(
                        glyph_rank(px, py, rect, out@[i]),
                        (cx as int, cy as int, base_idx + 64),
                    ),
                forall|i: int, k: int|
                    #![trigger out@[i], word_bit(bits, k)]
                    0 <= i < out.len() && 0 <= k < 64 && word_bit(bits, k) ==> rank_before(
                        glyph_rank(px, py, rect, out@[i]),
                        (cx as int, cy as int, base_idx + k),
                    ),
                forall|j: int| 0 <= j < 64 && word_bit(bits, j) ==> word_bit(word, j),
                forall|j: int|
                    #![trigger word_bit(word, j)]
                    0 <= j < 64 && word_bit(word, j) && !word_bit(bits, j) && shown_normal(
                        self@,
                        px,
                        py,
                        rect,
                        offset_x + (base_idx + j) % 32,
                        offset_y + (base_idx + j) / 32,
                    ) ==> out@.contains(
                        normal_glyph(
                            px,
                            py,
                            rect,
                            offset_x + (base_idx + j) % 32,
                            offset_y + (base_idx + j) / 32,
                        ),
                    ),
            decreases bits,
        {
            proof {
                lemma_lowest_bit(bits);
            }
            let t = bits.trailing_zeros() as usize;
            let global_idx = base_idx + t;
            let x = (global_idx % 32) as i64;
            let y = (global_idx / 32) as i64;
            let world_x = offset_x + x;
            let world_y = offset_y + y;
            proof {
                lemma_cell_of_chunk(cx as int, cy as int, x as int, y as int);
                assert(chunk.cell(x as int, y as int));
                lemma_same_chunk(world_x as int, world_y as int, world_x as int, world_y as int);
                assert(self.alive(world_x as int, world_y as int));
                assert(self@.contains((world_x as int, world_y as int)));
            }
            let ghost out_bit = out@;
            self.draw_cell_normal(out, camera, rect, world_x, world_y);
            let ghost old_bits = bits;
            bits = bits & (bits - 1);
            proof {
                lemma_rank_of_index(cx as int, cy as int, global_idx as int);
                assert(world_x == cx * 32 + (global_idx as int) % 32);
                assert(world_y == cy * 32 + (global_idx as int) / 32);
                assert forall|k: int| 0 <= k < 64 && word_bit(bits, k) implies t < k by {
                    lemma_clear_lowest(old_bits, t as u64, k as u64);
                    if k < t {
                        lemma_below_lowest(old_bits, t as u64, k as u64);
                    }
                }
                if out@ != out_bit {
                    assert(out@ == out_bit.push(out@.last()));
                    assert(glyph_rank(px, py, rect, out@.last()) == (
                        cx as int,
                        cy as int,
                        base_idx + t,
                    ));
                    assert forall|i: int, j: int|
                        0 <= i < out.len() && 0 <= j < out.len() && i != j implies out@[i]
                        != out@[j] by {
                        if i < out_bit.len() && j < out_bit.len() {
                            assert(out@[i] == out_bit[i] && out@[j] == out_bit[j]);
                        } else if i < out_bit.len() {
                            assert(out@[i] == out_bit[i]);
                            assert(rank_before(
                                glyph_rank(px, py, rect, out_bit[i]),
                                (cx as int, cy as int, base_idx + t),
                            ));
                        } else {
                            assert(out@[j] == out_bit[j]);
                            assert(rank_before(
                                glyph_rank(px, py, rect, out_bit[j]),
                                (cx as int, cy as int, base_idx + t),
                            ));
                        }
                    }
                }
                assert forall|i: int|
                    #![trigger out@[i]]
                    0 <= i < out.len() implies rank_before(
                        glyph_rank(px, py, rect, out@[i]),
                        (cx as int, cy as int, base_idx + 64),
                    ) by {
                    if i < out_bit.len() {
                        assert(out@[i] == out_bit[i]);
                    }
                }
                assert forall|i: int, k: int|
                    #![trigger out@[i], word_bit(bits, k)]
                    0 <= i < out.len() && 0 <= k < 64 && word_bit(bits, k) implies rank_before(
                        glyph_rank(px, py, rect, out@[i]),
                        (cx as int, cy as int, base_idx + k),
                    ) by {
                    lemma_clear_lowest(old_bits, t as u64, k as u64);
                    if i < out_bit.len() {
                        assert(out@[i] == out_bit[i]);
                        assert(word_bit(old_bits, k));
                    }
                }
            }
            proof {
                assert forall|c: Glyph| out_bit.contains(c) implies out@.contains(c) by {
                    if out@ != out_bit {
                        let i = choose|i: int| 0 <= i < out_bit.len() && out_bit[i] == c;
                        assert(out@[i] == c);
                    }
                }
                assert forall|j: int| 0 <= j < 64 && word_bit(bits, j) implies word_bit(word, j) by {
                    lemma_clear_lowest(old_bits, t as u64, j as u64);
                }
                assert forall|j: int|
                    #![trigger word_bit(word, j)]
                    0 <= j < 64 && word_bit(word, j) && !word_bit(bits, j) && shown_normal(
                        self@,
                        px,
                        py,
                        rect,
                        offset_x + (base_idx + j) % 32,
                        offset_y + (base_idx + j) / 32,
                    ) implies out@.contains(
                        normal_glyph(
                            px,
                            py,
                            rect,
                            offset_x + (base_idx + j) % 32,
                            offset_y + (base_idx + j) / 32,
                        ),
                    ) by {
                    lemma_clear_lowest(old_bits, t as u64, j as u64);
                    if j != t {
                        assert(out_bit.contains(
                            normal_glyph(
                                px,
                                py,
                                rect,
                                offset_x + (base_idx + j) % 32,
                                offset_y + (base_idx + j) / 32,
                            ),
                        ));
                    }
                }
                lemma_clear_lowest(old_bits, t as u64, 0);
            }
        }
        proof {
            assert forall|j: int|
                #![trigger word_bit(chunk.bits@[widx as int], j)]
                0 <= j < 64 && word_bit(chunk.bits@[widx as int], j) && shown_normal(
                    self@,
                    px,
                    py,
                    rect,
                    cx * 32 + (widx * 64 + j) % 32,
                    cy * 32 + (widx * 64 + j) / 32,
                ) implies out@.contains(
                    normal_glyph(
                        px,
                        py,
                        rect,
                        cx * 32 + (widx * 64 + j) % 32,
                        cy * 32 + (widx * 64 + j) / 32,
                    ),
                ) by {
                assert(word_bit(word, j));
                assert(!word_bit(0u64, j)) by {
                    let jj = j as u64;
                    assert((0u64 >> jj) & 1u64 == 0u64) by (bit_vector);
                }
            }
        }
    }

    /// The glyphs of the live cells that show on `rect` at zoom level 1.
    fn draw_normal(&self, rect: Rect, camera: &Camera) -> (out: Vec<Glyph>)
        requires
            self.wf(),
            rect.wf(),
            camera.pos_x + rect.width <= i64::MAX,
            camera.pos_y + rect.height <= i64::MAX,
        ensures
            normal_drawing(self@, camera.pos_x as int, camera.pos_y as int, rect, out@),
            out@.no_duplicates(),
    {
        let ghost px = camera.pos_x as int;
        let ghost py = camera.pos_y as int;
        let left = camera.pos_x;
        let right = camera.pos_x + rect.width as i64;
        let top = camera.pos_y;
        let bottom = camera.pos_y + rect.height as i64;
        let chunk_left = chunk_coord(left);
        let chunk_right = chunk_coord(right);
        let chunk_top = chunk_coord(top);
        let chunk_bottom = chunk_coord(bottom);
        proof {
            lemma_cell_split(left as int);
            lemma_cell_split(right as int);
            lemma_cell_split(top as int);
            lemma_cell_split(bottom as int);
        }
        let mut out: Vec<Glyph> = Vec::new();
        let mut cx = chunk_left;
        while cx <= chunk_right
            invariant
                self.wf(),
                rect.wf(),
                camera.pos_x + rect.width <= i64::MAX,
                camera.pos_y + rect.height <= i64::MAX,
                chunk_left == chunk_of(left as int),
                chunk_right == chunk_of(right as int),
                chunk_top == chunk_of(top as int),
                chunk_bottom == chunk_of(bottom as int),
                chunk_in_range(chunk_right as int),
                chunk_in_range(chunk_left as int),
                chunk_in_range(chunk_top as int),
                chunk_in_range(chunk_bottom as int),
                chunk_left <= cx <= chunk_right + 1,
                px == camera.pos_x,
                py == camera.pos_y,
                left == camera.pos_x,
                right == camera.pos_x + rect.width,
                top == camera.pos_y,
                bottom == camera.pos_y + rect.height,
                self.normal_sound(px, py, rect, out@),
                self.normal_partial(px, py, rect, out@, cx as int, chunk_top as int, chunk_top as int),
                out@.no_duplicates(),
                forall|i: int|
                    #![trigger out@[i]]
                    0 <= i < out.len() ==> glyph_rank(px, py, rect, out@[i]).0 < cx,
            decreases chunk_right + 1 - cx,
        {
            let mut cy = chunk_top;
            while cy <= chunk_bottom
                invariant
                    self.wf(),
                    rect.wf(),
                    camera.pos_x + rect.width <= i64::MAX,
                    camera.pos_y + rect.height <= i64::MAX,
                    chunk_in_range(chunk_bottom as int),
                    chunk_in_range(chunk_top as int),
                    chunk_in_range(cx as int),
                    chunk_top <= cy <= chunk_bottom + 1,
                    px == camera.pos_x,
                    py == camera.pos_y,
                    chunk_top == chunk_of(top as int),
                    chunk_bottom == chunk_of(bottom as int),
                    top == camera.pos_y,
                    bottom == camera.pos_y + rect.height,
                    self.normal_sound(px, py, rect, out@),
                    self.normal_partial(px, py, rect, out@, cx as int, cy as int, chunk_top as int),
                    out@.no_duplicates(),
                    forall|i: int|
                        #![trigger out@[i]]
                        0 <= i < out.len() ==> rank_before(
                            glyph_rank(px, py, rect, out@[i]),
                            (cx as int, cy as int, 0),
                        ),
                decreases chunk_bottom + 1 - cy,
            {
                let key = pack(cx, cy);
                let ghost out_before = out@;
                match self.chunks.get(&key) {
                    Some(chunk) => {
                        let mut widx: usize = 0;
                        while widx < 16
                            invariant
                                widx <= 16,
                                self.wf(),
                                rect.wf(),
                                camera.pos_x + rect.width <= i64::MAX,
                                camera.pos_y + rect.height <= i64::MAX,
                                chunk_in_range(cx as int),
                                chunk_in_range(cy as int),
                                px == camera.pos_x,
                                py == camera.pos_y,
                                key == pack_spec(cx as int, cy as int),
                                self.chunks@.contains_key(key),
                                self.chunks@[key] == *chunk,
                                forall|c: Glyph| out_before.contains(c) ==> out@.contains(c),
                                self.normal_sound(px, py, rect, out@),
                                out@.no_duplicates(),
                                forall|i: int|
                                    #![trigger out@[i]]
                                    0 <= i < out.len() ==> rank_before(
                                        glyph_rank(px, py, rect, out@[i]),
                                        (cx as int, cy as int, widx * 64),
                                    ),
                                forall|lx: int, ly: int|
                                    #![trigger chunk.cell(lx, ly)]
                                    0 <= lx < 32 && 0 <= ly < 32 && (ly * 32 + lx) / 64 < widx
                                        && chunk.cell(lx, ly) && shown_normal(
                                        self@,
                                        px,
                                        py,
                                        rect,
                                        cx * 32 + lx,
                                        cy * 32 + ly,
                                    ) ==> out@.contains(
                                        normal_glyph(px, py, rect, cx * 32 + lx, cy * 32 + ly),
                                    ),
                            decreases 16 - widx,
                        {
                            let ghost out_word = out@;
                            self.draw_word_normal(&mut out, camera, rect, chunk, cx, cy, widx);
                            proof {
                                assert forall|c: Glyph| out_before.contains(c) implies out@.contains(
                                    c,
                                ) by {
                                    assert(out_word.contains(c));
                                }
                                assert forall|lx: int, ly: int|
                                    #![trigger chunk.cell(lx, ly)]
                                    0 <= lx < 32 && 0 <= ly < 32 && (ly * 32 + lx) / 64 < widx + 1
                                        && chunk.cell(lx, ly) && shown_normal(
                                        self@,
                                        px,
                                        py,
                                        rect,
                                        cx * 32 + lx,
                                        cy * 32 + ly,
                                    ) implies out@.contains(
                                        normal_glyph(px, py, rect, cx * 32 + lx, cy * 32 + ly),
                                    ) by {
                                    let idx = ly * 32 + lx;
                                    lemma_cell_index(lx, ly);
                                    if idx / 64 < widx {
                                        assert(out_word.contains(
                                            normal_glyph(px, py, rect, cx * 32 + lx, cy * 32 + ly),
                                        ));
                                    } else {
                                        let j = idx % 64;
                                        assert(word_bit(chunk.bits@[widx as int], j));
                                    }
                                }
                            }
                            widx = widx + 1;
                        }
                        proof {
                            assert forall|x: int, y: int|
                                #![trigger shown_normal(self@, px, py, rect, x, y)]
                                shown_normal(self@, px, py, rect, x, y) && (chunk_of(x) < cx || (
                                chunk_of(x) == cx && chunk_top <= chunk_of(y) < cy + 1))
                                    implies out@.contains(normal_glyph(px, py, rect, x, y)) by {
                                if chunk_of(x) == cx && chunk_of(y) == cy {
                                    lemma_cell_split(x);
                                    lemma_cell_split(y);
                                    lemma_same_chunk(x, y, x, y);
                                    assert(self.alive(x, y));
                                    assert(chunk.cell(local_of(x), local_of(y)));
                                    assert(cx * 32 + local_of(x) == x);
                                    assert(cy * 32 + local_of(y) == y);
                                } else {
                                    assert(out_before.contains(normal_glyph(px, py, rect, x, y)));
                                }
                            }
                        }
                    },
                    None => {
                        proof {
                            assert forall|x: int, y: int|
                                #![trigger shown_normal(self@, px, py, rect, x, y)]
                                shown_normal(self@, px, py, rect, x, y) && (chunk_of(x) < cx || (
                                chunk_of(x) == cx && chunk_top <= chunk_of(y) < cy + 1))
                                    implies out@.contains(normal_glyph(px, py, rect, x, y)) by {
                                if chunk_of(x) == cx && chunk_of(y) == cy {
                                    lemma_cell_split(x);
                                    lemma_cell_split(y);
                                    lemma_same_chunk(x, y, x, y);
                                    lemma_pack(cx as int, cy as int);
                                    assert(self.alive(x, y));
                                }
                            }
                        }
                    },
                }
                cy = cy + 1;
            }
            proof {
                assert forall|x: int, y: int|
                    #![trigger shown_normal(self@, px, py, rect, x, y)]
                    shown_normal(self@, px, py, rect, x, y) && (chunk_of(x) < cx + 1 || (chunk_of(x)
                        == cx + 1 && chunk_top <= chunk_of(y) < chunk_top))
                        implies out@.contains(normal_glyph(px, py, rect, x, y)) by {
                    vstd::arithmetic::div_mod::lemma_div_is_ordered(y, bottom as int, 32);
                    vstd::arithmetic::div_mod::lemma_div_is_ordered(top as int, y, 32);
                }
            }
            cx = cx + 1;
        }
        proof {
            assert forall|x: int, y: int|
                #![trigger shown_normal(self@, px, py, rect, x, y)]
                shown_normal(self@, px, py, rect, x, y) implies out@.contains(
                    normal_glyph(px, py, rect, x, y),
                ) by {
                vstd::arithmetic::div_mod::lemma_div_is_ordered(x, right as int, 32);
                vstd::arithmetic::div_mod::lemma_div_is_ordered(y, bottom as int, 32);
                vstd::arithmetic::div_mod::lemma_div_is_ordered(top as int, y, 32);
            }
        }
        out
    }
}

/// `char::from_u32`: the character with the code `v`, or `None` where `v`
/// is not the code of a character.
#[verifier::external_body]
fn char_from_u32(v: u32) -> (r: Option<char>)
    ensures
        (v <= 0xD7FF || 0xE000 <= v <= 0x10FFFF) ==> r == Some(v as char),
        !(v <= 0xD7FF || 0xE000 <= v <= 0x10FFFF) ==> r is None,
{
    char::from_u32(v)
}

/// The dots of the braille character for the 2x4 block of cells whose top
/// left cell is `(x, y)`: the left column gives the dots 0x01, 0x02, 0x04,
/// 0x40 from top to bottom, the right column 0x08, 0x10, 0x20, 0x80.
pub open spec fn braille_mask(cells: Set<(int, int)>, x: int, y: int) -> int {
    b2n(cells.contains((x, y))) * 0x01 + b2n(cells.contains((x, y + 1))) * 0x02 + b2n(
        cells.contains((x, y + 2)),
    ) * 0x04 + b2n(cells.contains((x, y + 3))) * 0x40 + b2n(cells.contains((x + 1, y))) * 0x08
        + b2n(cells.contains((x + 1, y + 1))) * 0x10 + b2n(cells.contains((x + 1, y + 2))) * 0x20
        + b2n(cells.contains((x + 1, y + 3))) * 0x80
}

/// The braille character with the dots `mask`, or a space for no dot.
pub open spec fn braille_char(mask: int) -> char {
    if mask == 0 {
        ' '
    } else {
        (0x2800 + mask) as char
    }
}

/// A 2x4 block with one live cell is drawn as the braille character with
/// the one dot for that cell: down the left column the dots of codes 0x01,
/// 0x02, 0x04 and 0x40, down the right column 0x08, 0x10, 0x20 and 0x80.
pub proof fn lemma_braille_single_dot(cells: Set<(int, int)>, x: int, y: int, dx: int, dy: int)
    requires
        0 <= dx < 2,
        0 <= dy < 4,
        forall|a: int, b: int|
            0 <= a < 2 && 0 <= b < 4 ==> (#[trigger] cells.contains((x + a, y + b)) <==> (a == dx
                && b == dy)),
    ensures
        braille_char(braille_mask(cells, x, y)) == (if dx == 0 {
            if dy == 0 {
                '\u{2801}'
            } else if dy == 1 {
                '\u{2802}'
            } else if dy == 2 {
                '\u{2804}'
            } else {
                '\u{2840}'
            }
        } else {
            if dy == 0 {
                '\u{2808}'
            } else if dy == 1 {
                '\u{2810}'
            } else if dy == 2 {
                '\u{2820}'
            } else {
                '\u{2880}'
            }
        }),
{
    assert(cells.contains((x + 0, y + 0)) == (dx == 0 && dy == 0));
    assert(cells.contains((x + 0, y + 1)) == (dx == 0 && dy == 1));
    assert(cells.contains((x + 0, y + 2)) == (dx == 0 && dy == 2));
    assert(cells.contains((x + 0, y + 3)) == (dx == 0 && dy == 3));
    assert(cells.contains((x + 1, y + 0)) == (dx == 1 && dy == 0));
    assert(cells.contains((x + 1, y + 1)) == (dx == 1 && dy == 1));
    assert(cells.contains((x + 1, y + 2)) == (dx == 1 && dy == 2));
    assert(cells.contains((x + 1, y + 3)) == (dx == 1 && dy == 3));
    assert((x + 0, y + 0) == (x, y));
    assert((x + 1, y + 0) == (x + 1, y));
    assert((x + 0, y + 1) == (x, y + 1));
    assert((x + 0, y + 2) == (x, y + 2));
    assert((x + 0, y + 3) == (x, y + 3));
}

/// The glyph drawn when zoomed out at the screen cell `(sx, sy)` of `rect`:
/// one braille character for the 2x4 block of cells at
/// `(pos_x + 2 * sx, pos_y + 4 * sy)`.
pub open spec fn braille_glyph(
    cells: Set<(int, int)>,
    pos_x: int,
    pos_y: int,
    rect: Rect,
    sx: int,
    sy: int,
) -> Glyph {
    Glyph {
        x: (rect.x + sx) as u16,
        y: (rect.y + sy) as u16,
        ch: braille_char(braille_mask(cells, pos_x + 2 * sx, pos_y + 4 * sy)),
    }
}

/// `out` holds one glyph for every cell of `rect`, row by row.
pub open spec fn braille_drawing(
    cells: Set<(int, int)>,
    pos_x: int,
    pos_y: int,
    rect: Rect,
    out: Seq<Glyph>,
) -> bool {
    &&& out.len() == rect.width * rect.height
    &&& forall|i: int|
        #![trigger out[i]]
        0 <= i < out.len() ==> out[i] == braille_glyph(
            cells,
            pos_x,
            pos_y,
            rect,
            i % (rect.width as int),
            i / (rect.width as int),
        )
}

/// Setting the dots one by one gives the sum of their values.
proof fn lemma_braille_bits(b0: bool, b1: bool, b2: bool, b3: bool, b4: bool, b5: bool, b6: bool, b7: bool)
    ensures
        ({
            let v = (if b0 { 0x01u8 } else { 0u8 }) | (if b1 { 0x02u8 } else { 0u8 }) | (if b2 {
                0x04u8
            } else {
                0u8
            }) | (if b6 { 0x40u8 } else { 0u8 }) | (if b3 { 0x08u8 } else { 0u8 }) | (if b4 {
                0x10u8
            } else {
                0u8
            }) | (if b5 { 0x20u8 } else { 0u8 }) | (if b7 { 0x80u8 } else { 0u8 });
            v == b2n(b0) * 0x01 + b2n(b1) * 0x02 + b2n(b2) * 0x04 + b2n(b6) * 0x40 + b2n(b3) * 0x08
                + b2n(b4) * 0x10 + b2n(b5) * 0x20 + b2n(b7) * 0x80
        }),
{
    let v0: u8 = if b0 { 0x01u8 } else { 0u8 };
    let v1: u8 = if b1 { 0x02u8 } else { 0u8 };
    let v2: u8 = if b2 { 0x04u8 } else { 0u8 };
    let v6: u8 = if b6 { 0x40u8 } else { 0u8 };
    let v3: u8 = if b3 { 0x08u8 } else { 0u8 };
    let v4: u8 = if b4 { 0x10u8 } else { 0u8 };
    let v5: u8 = if b5 { 0x20u8 } else { 0u8 };
    let v7: u8 = if b7 { 0x80u8 } else { 0u8 };
    assert((v0 == 0 || v0 == 1) && (v1 == 0 || v1 == 2) && (v2 == 0 || v2 == 4) && (v6 == 0 || v6
        == 0x40) && (v3 == 0 || v3 == 8) && (v4 == 0 || v4 == 0x10) && (v5 == 0 || v5 == 0x20) && (v7
        == 0 || v7 == 0x80) ==> v0 | v1 | v2 | v6 | v3 | v4 | v5 | v7 == v0 + v1 + v2 + v6 + v3 + v4
        + v5 + v7) by (bit_vector);
}

impl World {
    /// The dots of the braille character for the 2x4 block at `(x, y)`.
    fn braille_bits(&self, x: i64, y: i64) -> (bits: u8)
        requires
            x < i64::MAX,
            y <= i64::MAX - 3,
        ensures
            bits == braille_mask(self@, x as int, y as int),
    {
        let b0 = self.is_cell_alive(x, y);
        let b1 = self.is_cell_alive(x, y + 1);
        let b2 = self.is_cell_alive(x, y + 2);
        let b6 = self.is_cell_alive(x, y + 3);
        let b3 = self.is_cell_alive(x + 1, y);
        let b4 = self.is_cell_alive(x + 1, y + 1);
        let b5 = self.is_cell_alive(x + 1, y + 2);
        let b7 = self.is_cell_alive(x + 1, y + 3);
        let bits: u8 = (if b0 { 0x01u8 } else { 0u8 }) | (if b1 { 0x02u8 } else { 0u8 }) | (if b2 {
            0x04u8
        } else {
            0u8
        }) | (if b6 { 0x40u8 } else { 0u8 }) | (if b3 { 0x08u8 } else { 0u8 }) | (if b4 {
            0x10u8
        } else {
            0u8
        }) | (if b5 { 0x20u8 } else { 0u8 }) | (if b7 { 0x80u8 } else { 0u8 });
        proof {
            lemma_braille_bits(b0, b1, b2, b3, b4, b5, b6, b7);
        }
        bits
    }

    /// The braille character for the 2x4 block at `(x, y)`.
    fn braille_cell(&self, x: i64, y: i64) -> (ch: char)
        requires
            x < i64::MAX,
            y <= i64::MAX - 3,
        ensures
            ch == braille_char(braille_mask(self@, x as int, y as int)),
    {
        let bits = self.braille_bits(x, y);
        if bits != 0 {
            let code = 0x2800u32 | bits as u32;
            assert(code == 0x2800 + bits) by (bit_vector)
                requires
                    code == 0x2800u32 | bits as u32,
            ;
            char_from_u32(code).unwrap()
        } else {
            ' '
        }
    }

    /// One braille character for every cell of `rect`, row by row, each for
    /// a 2x4 block of cells.
    fn draw_braille(&self, rect: Rect, camera: &Camera) -> (out: Vec<Glyph>)
        requires
            rect.wf(),
            rect.width > 0 ==> camera.pos_x + 2 * rect.width - 1 <= i64::MAX,
            rect.height > 0 ==> camera.pos_y + 4 * rect.height - 1 <= i64::MAX,
        ensures
            braille_drawing(self@, camera.pos_x as int, camera.pos_y as int, rect, out@),
    {
        let cols = rect.width as usize;
        let rows = rect.height as usize;
        let mut out: Vec<Glyph> = Vec::new();
        let mut screen_y: usize = 0;
        while screen_y < rows
            invariant
                rect.wf(),
                rect.width > 0 ==> camera.pos_x + 2 * rect.width - 1 <= i64::MAX,
                rect.height > 0 ==> camera.pos_y + 4 * rect.height - 1 <= i64::MAX,
                cols == rect.width,
                rows == rect.height,
                screen_y <= rows,
                out.len() == screen_y * cols,
                forall|i: int|
                    #![trigger out@[i]]
                    0 <= i < out.len() ==> out@[i] == braille_glyph(
                        self@,
                        camera.pos_x as int,
                        camera.pos_y as int,
                        rect,
                        i % (cols as int),
                        i / (cols as int),
                    ),
            decreases rows - screen_y,
        {
            let mut screen_x: usize = 0;
            while screen_x < cols
                invariant
                    rect.wf(),
                    rect.width > 0 ==> camera.pos_x + 2 * rect.width - 1 <= i64::MAX,
                    rect.height > 0 ==> camera.pos_y + 4 * rect.height - 1 <= i64::MAX,
                    cols == rect.width,
                    rows == rect.height,
                    screen_y < rows,
                    screen_x <= cols,
                    out.len() == screen_y * cols + screen_x,
                    forall|i: int|
                        #![trigger out@[i]]
                        0 <= i < out.len() ==> out@[i] == braille_glyph(
                            self@,
                            camera.pos_x as int,
                            camera.pos_y as int,
                            rect,
                            i % (cols as int),
                            i / (cols as int),
                        ),
                decreases cols - screen_x,
            {
                proof {
                    assert(screen_x * 2 <= 2 * cols - 2);
                    assert(screen_y * 4 <= 4 * rows - 4) by (nonlinear_arith)
                        requires
                            screen_y < rows,
                    ;
                }
                let world_x = camera.pos_x + (screen_x as i64) * 2;
                let world_y = camera.pos_y + (screen_y as i64) * 4;
                let ch = self.braille_cell(world_x, world_y);
                let buffer_x = rect.x + screen_x as u16;
                let buffer_y = rect.y + screen_y as u16;
                let ghost before = out@;
                out.push(Glyph { x: buffer_x, y: buffer_y, ch });
                proof {
                    let n = screen_y * cols + screen_x;
                    vstd::arithmetic::div_mod::lemma_fundamental_div_mod_converse(
                        n as int,
                        cols as int,
                        screen_y as int,
                        screen_x as int,
                    );
                    assert forall|i: int|
                        #![trigger out@[i]]
                        0 <= i < out.len() implies out@[i] == braille_glyph(
                            self@,
                            camera.pos_x as int,
                            camera.pos_y as int,
                            rect,
                            i % (cols as int),
                            i / (cols as int),
                        ) by {
                        if i < before.len() {
                            assert(out@[i] == before[i]);
                        }
                    }
                }
                screen_x = screen_x + 1;
            }
            proof {
                assert((screen_y + 1) * cols == screen_y * cols + cols) by (nonlinear_arith);
            }
            screen_y = screen_y + 1;
        }
        proof {
            assert(rows * cols == rect.width * rect.height) by (nonlinear_arith)
                requires
                    rows == rect.height,
                    cols == rect.width,
            ;
        }
        out
    }

    /// The glyphs that show the world on `rect`: at zoom level 1 a `#` for
    /// every live cell in view, once each, otherwise a braille character for
    /// every cell of `rect`, each showing a 2x4 block of cells.
    pub fn draw(&self, rect: Rect, camera: &Camera) -> (out: Vec<Glyph>)
        requires
            self.wf(),
            rect.wf(),
            camera.zoom == 1 ==> camera.pos_x + rect.width <= i64::MAX && camera.pos_y
                + rect.height <= i64::MAX,
            camera.zoom != 1 ==> (rect.width > 0 ==> camera.pos_x + 2 * rect.width - 1 <= i64::MAX)
                && (rect.height > 0 ==> camera.pos_y + 4 * rect.height - 1 <= i64::MAX),
        ensures
            camera.zoom == 1 ==> normal_drawing(
                self@,
                camera.pos_x as int,
                camera.pos_y as int,
                rect,
                out@,
            ),
            camera.zoom == 1 ==> out@.no_duplicates(),
            camera.zoom != 1 ==> braille_drawing(
                self@,
                camera.pos_x as int,
                camera.pos_y as int,
                rect,
                out@,
            ),
    {
        if camera.zoom == 1 {
            self.draw_normal(rect, camera)
        } else {
            self.draw_braille(rect, camera)
        }
    }
}

/// The 2x4 block of cells whose top left cell is `(x, y)`.
pub open spec fn block_cells(x: int, y: int) -> Set<(int, int)> {
    Set::new(|p: (int, int)| x <= p.0 < x + 2 && y <= p.1 < y + 4)
}

/// A chunk coordinate whose cells may be alive when the world steps.
pub open spec fn safe_chunk(c: int) -> bool {
    -0x3FF_FFFF_FFFF_FFFE <= c <= 0x3FF_FFFF_FFFF_FFFD
}

impl World {
    /// Makes the cells of the 2x4 block at `(x, y)` alive.
    pub fn animate_block(&mut self, x: i64, y: i64)
        requires
            old(self).wf(),
            x < i64::MAX,
            y <= i64::MAX - 3,
        ensures
            final(self).wf(),
            final(self)@ == old(self)@.union(block_cells(x as int, y as int)),
            final(self).survival_rule() == old(self).survival_rule(),
            final(self).birth_rule() == old(self).birth_rule(),
    {
        let ghost start = self@;
        let mut dx: i64 = 0;
        while dx < 2
            invariant
                0 <= dx <= 2,
                x < i64::MAX,
                y <= i64::MAX - 3,
                self.wf(),
                self.survival_rule() == old(self).survival_rule(),
                self.birth_rule() == old(self).birth_rule(),
                start == old(self)@,
                self@ == start.union(
                    Set::new(|p: (int, int)| x <= p.0 < x + dx && y <= p.1 < y + 4),
                ),
            decreases 2 - dx,
        {
            let mut dy: i64 = 0;
            while dy < 4
                invariant
                    0 <= dx < 2,
                    0 <= dy <= 4,
                    x < i64::MAX,
                    y <= i64::MAX - 3,
                    self.wf(),
                    self.survival_rule() == old(self).survival_rule(),
                    self.birth_rule() == old(self).birth_rule(),
                    start == old(self)@,
                    self@ == start.union(
                        Set::new(
                            |p: (int, int)|
                                (x <= p.0 < x + dx && y <= p.1 < y + 4) || (p.0 == x + dx && y
                                    <= p.1 < y + dy),
                        ),
                    ),
                decreases 4 - dy,
            {
                self.animate_cell(x + dx, y + dy);
                proof {
                    assert(self@ =~= start.union(
                        Set::new(
                            |p: (int, int)|
                                (x <= p.0 < x + dx && y <= p.1 < y + 4) || (p.0 == x + dx && y
                                    <= p.1 < y + dy + 1),
                        ),
                    ));
                }
                dy = dy + 1;
            }
            proof {
                assert(self@ =~= start.union(
                    Set::new(|p: (int, int)| x <= p.0 < x + dx + 1 && y <= p.1 < y + 4),
                ));
            }
            dx = dx + 1;
        }
        proof {
            assert(self@ =~= start.union(block_cells(x as int, y as int)));
        }
    }

    /// Makes the cells of the 2x4 block at `(x, y)` dead.
    pub fn kill_block(&mut self, x: i64, y: i64)
        requires
            old(self).wf(),
            x < i64::MAX,
            y <= i64::MAX - 3,
        ensures
            final(self).wf(),
            final(self)@ == old(self)@.difference(block_cells(x as int, y as int)),
            final(self).survival_rule() == old(self).survival_rule(),
            final(self).birth_rule() == old(self).birth_rule(),
    {
        let ghost start = self@;
        let mut dx: i64 = 0;
        while dx < 2
            invariant
                0 <= dx <= 2,
                x < i64::MAX,
                y <= i64::MAX - 3,
                self.wf(),
                self.survival_rule() == old(self).survival_rule(),
                self.birth_rule() == old(self).birth_rule(),
                start == old(self)@,
                self@ == start.difference(
                    Set::new(|p: (int, int)| x <= p.0 < x + dx && y <= p.1 < y + 4),
                ),
            decreases 2 - dx,
        {
            let mut dy: i64 = 0;
            while dy < 4
                invariant
                    0 <= dx < 2,
                    0 <= dy <= 4,
                    x < i64::MAX,
                    y <= i64::MAX - 3,
                    self.wf(),
                    self.survival_rule() == old(self).survival_rule(),
                    self.birth_rule() == old(self).birth_rule(),
                    start == old(self)@,
                    self@ == start.difference(
                        Set::new(
                            |p: (int, int)|
                                (x <= p.0 < x + dx && y <= p.1 < y + 4) || (p.0 == x + dx && y
                                    <= p.1 < y + dy),
                        ),
                    ),
                decreases 4 - dy,
            {
                self.kill_cell(x + dx, y + dy);
                proof {
                    assert(self@ =~= start.difference(
                        Set::new(
                            |p: (int, int)|
                                (x <= p.0 < x + dx && y <= p.1 < y + 4) || (p.0 == x + dx && y
                                    <= p.1 < y + dy + 1),
                        ),
                    ));
                }
                dy = dy + 1;
            }
            proof {
                assert(self@ =~= start.difference(
                    Set::new(|p: (int, int)| x <= p.0 < x + dx + 1 && y <= p.1 < y + 4),
                ));
            }
            dx = dx + 1;
        }
        proof {
            assert(self@ =~= start.difference(block_cells(x as int, y as int)));
        }
    }

    /// Whether every live cell is at a coordinate where the world can step.
    pub fn can_tick(&self) -> (ok: bool)
        requires
            self.wf(),
        ensures
            ok == fits_tick_bounds(self@),
    {
        for key in it: self.chunks.keys()
            invariant
                self.wf(),
                it.seq().unref().to_set() == self.chunks@.dom(),
                forall|j: int|
                    0 <= j < it.index() ==> safe_chunk(unpack_hi(*it.seq()[j] as int)) && safe_chunk(
                        unpack_lo(*it.seq()[j] as int),
                    ),
                forall|kk: u128|
                    #![trigger self.chunks@.contains_key(kk)]
                    self.chunks@.contains_key(kk) ==> (safe_chunk(unpack_hi(kk as int))
                        && safe_chunk(unpack_lo(kk as int))) || (exists|j: int|
                        it.index() <= j < it.seq().len() && *it.seq()[j] == kk),
        {
            let k = *key;
            let (cx, cy) = unpack(k);
            let lo: i64 = -0x3FF_FFFF_FFFF_FFFE;
            let hi: i64 = 0x3FF_FFFF_FFFF_FFFD;
            if cx < lo || cx > hi || cy < lo || cy > hi {
                proof {
                    assert(it.seq().unref()[it.index() as int] == k);
                    assert(it.seq().unref().to_set().contains(k));
                    let p = self.live_cell_of_chunk(k);
                    assert(self@.contains(p));
                    lemma_cell_split(p.0);
                    lemma_cell_split(p.1);
                    lemma_same_chunk(p.0, p.1, p.0, p.1);
                    lemma_pack(chunk_of(p.0), chunk_of(p.1));
                    vstd::arithmetic::div_mod::lemma_fundamental_div_mod(p.0, 32);
                    vstd::arithmetic::div_mod::lemma_fundamental_div_mod(p.1, 32);
                }
                return false;
            }
            proof {
                assert forall|kk: u128|
                    #![trigger self.chunks@.contains_key(kk)]
                    self.chunks@.contains_key(kk) implies (safe_chunk(unpack_hi(kk as int))
                        && safe_chunk(unpack_lo(kk as int))) || (exists|j: int|
                        it.index() + 1 <= j < it.seq().len() && *it.seq()[j] == kk) by {
                    if !(safe_chunk(unpack_hi(kk as int)) && safe_chunk(unpack_lo(kk as int))) {
                        let j = choose|j: int|
                            it.index() <= j < it.seq().len() && *it.seq()[j] == kk;
                        if j == it.index() {
                            assert(kk == k);
                        }
                    }
                }
            }
        }
        proof {
            assert forall|p: (int, int)| #[trigger]
                self@.contains(p) implies tick_safe_coord(p.0) && tick_safe_coord(p.1) by {
                assert(self.alive(p.0, p.1));
                lemma_cell_split(p.0);
                lemma_cell_split(p.1);
                lemma_same_chunk(p.0, p.1, p.0, p.1);
                lemma_pack(chunk_of(p.0), chunk_of(p.1));
                let kk = cell_chunk_key(p.0, p.1) as u128;
                assert(self.chunks@.contains_key(kk));
                vstd::arithmetic::div_mod::lemma_fundamental_div_mod(p.0, 32);
                vstd::arithmetic::div_mod::lemma_fundamental_div_mod(p.1, 32);
            }
        }
        true
    }
}

} // verus!
