use life_tui::geometry::{chunk_coord, local_coord, pack, unpack};

#[test]
fn chunk_and_local_coordinates_are_euclidean() {
    assert_eq!((chunk_coord(0), local_coord(0)), (0, 0));
    assert_eq!((chunk_coord(31), local_coord(31)), (0, 31));
    assert_eq!((chunk_coord(32), local_coord(32)), (1, 0));
    assert_eq!((chunk_coord(-1), local_coord(-1)), (-1, 31));
    assert_eq!((chunk_coord(-32), local_coord(-32)), (-1, 0));
    assert_eq!((chunk_coord(-33), local_coord(-33)), (-2, 31));
    assert_eq!(chunk_coord(i64::MIN), i64::MIN / 32);
    assert_eq!(local_coord(i64::MAX), 31);
}

#[test]
fn pack_and_unpack_round_trip() {
    for &(a, b) in &[(0i64, 0i64), (-1, 1), (i64::MIN, i64::MAX), (12345, -67890)] {
        assert_eq!(unpack(pack(a, b)), (a, b));
    }
    assert_ne!(pack(1, 2), pack(2, 1));
    assert_eq!(pack(0, 1) - pack(0, 0), 1);
    assert_eq!(pack(1, 0) - pack(0, 0), 1u128 << 64);
    assert_eq!(pack(i64::MIN, i64::MIN), 0);
    assert_eq!(pack(i64::MAX, i64::MAX), u128::MAX);
}
