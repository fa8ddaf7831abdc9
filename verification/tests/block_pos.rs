use valence_protocol::block_pos::{BlockPos, Error, PackedBlockPos};

#[test]
fn packs_fields() {
    let p = BlockPos::new(1, 2, 3).packed().unwrap();
    assert_eq!(p.0, (1u64 << 38) | (3u64 << 12) | 2);
    assert_eq!((p.x(), p.y(), p.z()), (1, 2, 3));
}

#[test]
fn packs_negative_coordinates() {
    let p = BlockPos::new(-1, -1, -1).packed().unwrap();
    assert_eq!(p.0, u64::MAX);
    assert_eq!((p.x(), p.y(), p.z()), (-1, -1, -1));

    let p = BlockPos::new(-0x2000000, -0x800, 0x1ffffff).packed().unwrap();
    assert_eq!((p.x(), p.y(), p.z()), (-0x2000000, -0x800, 0x1ffffff));
    let p = BlockPos::new(0x1ffffff, 0x7ff, -0x2000000).packed().unwrap();
    assert_eq!((p.x(), p.y(), p.z()), (0x1ffffff, 0x7ff, -0x2000000));
}

#[test]
fn rejects_out_of_range() {
    for pos in [
        BlockPos::new(0x2000000, 0, 0),
        BlockPos::new(-0x2000001, 0, 0),
        BlockPos::new(0, 0x800, 0),
        BlockPos::new(0, -0x801, 0),
        BlockPos::new(0, 0, 0x2000000),
        BlockPos::new(0, 0, -0x2000001),
    ] {
        assert_eq!(pos.packed(), Err(Error(pos)));
    }
}

#[test]
fn field_setters() {
    let p = PackedBlockPos::new().with_y(-2).with_x(5).with_z(-7);
    assert_eq!((p.x(), p.y(), p.z()), (5, -2, -7));
    let q = p.with_x(9);
    assert_eq!((q.x(), q.y(), q.z()), (9, -2, -7));
    assert_eq!(PackedBlockPos::new().0, 0);
}
