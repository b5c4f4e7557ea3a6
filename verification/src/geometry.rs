//! Cell and chunk coordinates, and the packing of a coordinate pair into one
//! integer key.

use vstd::prelude::*;

verus! {

/// The position of a cell on the grid.
#[derive(Clone, Copy, Debug, PartialEq, Eq, Hash, Structural)]
pub struct Cord {
    pub x: i64,
    pub y: i64,
}

/// The position of a chunk: the chunk `(cx, cy)` holds the cells whose
/// coordinates, divided by 32 (rounding down), are `cx` and `cy`.
#[derive(Clone, Copy, Debug, PartialEq, Eq, Hash, Structural)]
pub(crate) struct ChunkCord {
    pub(crate) chunk_x: i64,
    pub(crate) chunk_y: i64,
}

/// `v` fits in an `i64`.
pub open spec fn in_i64(v: int) -> bool {
    i64::MIN <= v <= i64::MAX
}

/// 2 to the power 63.
pub open spec fn half_range() -> int {
    0x8000_0000_0000_0000
}

/// 2 to the power 64.
pub open spec fn full_range() -> int {
    0x1_0000_0000_0000_0000
}

/// The key of the pair `(a, b)` of `i64` values: both are shifted to be
/// nonnegative and placed side by side in 128 bits.
pub open spec fn pack_spec(a: int, b: int) -> int {
    (a + half_range()) * full_range() + (b + half_range())
}

/// The first component of the pair whose key is `k`.
pub open spec fn unpack_hi(k: int) -> int {
    k / full_range() - half_range()
}

/// The second component of the pair whose key is `k`.
pub open spec fn unpack_lo(k: int) -> int {
    k % full_range() - half_range()
}

/// The chunk coordinate of the cell coordinate `v`.
pub open spec fn chunk_of(v: int) -> int {
    v / 32
}

/// The position of the cell coordinate `v` inside its chunk.
pub open spec fn local_of(v: int) -> int {
    v % 32
}

/// Packing and unpacking are inverse to each other.
pub proof fn lemma_pack(a: int, b: int)
    requires
        in_i64(a),
        in_i64(b),
    ensures
        0 <= pack_spec(a, b) <= u128::MAX,
        unpack_hi(pack_spec(a, b)) == a,
        unpack_lo(pack_spec(a, b)) == b,
{
    let hi = a + half_range();
    let lo = b + half_range();
    assert(0 <= hi < full_range());
    assert(0 <= lo < full_range());
    vstd::arithmetic::div_mod::lemma_fundamental_div_mod_converse(
        pack_spec(a, b),
        full_range(),
        hi,
        lo,
    );
    assert(pack_spec(a, b) <= (full_range() - 1) * full_range() + full_range() - 1)
        by (nonlinear_arith)
        requires
            0 <= hi < full_range(),
            0 <= lo < full_range(),
            pack_spec(a, b) == hi * full_range() + lo,
            full_range() == 0x1_0000_0000_0000_0000int,
    ;
}

/// Every 128-bit key is the key of the pair it unpacks to.
pub proof fn lemma_unpack(k: int)
    requires
        0 <= k <= u128::MAX,
    ensures
        in_i64(unpack_hi(k)),
        in_i64(unpack_lo(k)),
        pack_spec(unpack_hi(k), unpack_lo(k)) == k,
{
    vstd::arithmetic::div_mod::lemma_fundamental_div_mod(k, full_range());
    vstd::arithmetic::div_mod::lemma_div_pos_is_pos(k, full_range());
    assert(k / full_range() < full_range()) by {
        vstd::arithmetic::div_mod::lemma_div_is_ordered(k, u128::MAX as int, full_range());
        assert(u128::MAX as int / full_range() == full_range() - 1);
    }
}

/// Two pairs with the same key are equal.
pub proof fn lemma_pack_injective(a: int, b: int, c: int, d: int)
    requires
        in_i64(a),
        in_i64(b),
        in_i64(c),
        in_i64(d),
        pack_spec(a, b) == pack_spec(c, d),
    ensures
        a == c,
        b == d,
{
    lemma_pack(a, b);
    lemma_pack(c, d);
}

/// The key of the pair `(a, b)`.
pub fn pack(a: i64, b: i64) -> (k: u128)
    ensures
        k == pack_spec(a as int, b as int),
{
    proof {
        lemma_pack(a as int, b as int);
    }
    let hi = (a as i128 + 0x8000_0000_0000_0000i128) as u128;
    let lo = (b as i128 + 0x8000_0000_0000_0000i128) as u128;
    assert(hi * 0x1_0000_0000_0000_0000u128 + lo <= u128::MAX);
    hi * 0x1_0000_0000_0000_0000u128 + lo
}

/// The pair whose key is `k`.
pub fn unpack(k: u128) -> (r: (i64, i64))
    ensures
        r.0 == unpack_hi(k as int),
        r.1 == unpack_lo(k as int),
        pack_spec(r.0 as int, r.1 as int) == k,
{
    proof {
        lemma_unpack(k as int);
    }
    let hi = (k / 0x1_0000_0000_0000_0000u128) as i128 - 0x8000_0000_0000_0000i128;
    let lo = (k % 0x1_0000_0000_0000_0000u128) as i128 - 0x8000_0000_0000_0000i128;
    (hi as i64, lo as i64)
}

/// The chunk coordinate of `v` (Euclidean division by 32).
pub fn chunk_coord(v: i64) -> (c: i64)
    ensures
        c == chunk_of(v as int),
{
    v.checked_div_euclid(32).unwrap()
}

/// The position of `v` inside its chunk (Euclidean remainder by 32).
pub fn local_coord(v: i64) -> (l: usize)
    ensures
        l == local_of(v as int),
        l < 32,
{
    v.checked_rem_euclid(32).unwrap() as usize
}

} // verus!
