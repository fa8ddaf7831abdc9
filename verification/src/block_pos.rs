//! Block positions and their packing into one 64-bit word.
use vstd::prelude::*;

verus! {

/// A block position whose coordinates are out of the packable range.
#[derive(Copy, Clone, PartialEq, Eq, Debug)]
pub struct Error(pub BlockPos);

/// The position of a block in the world.
#[derive(Clone, Copy, Default, PartialEq, Eq, PartialOrd, Ord, Hash, Debug)]
pub struct BlockPos {
    pub x: i32,
    pub y: i32,
    pub z: i32,
}

/// A block position packed into 64 bits: `y` in the low 12 bits, then `z`
/// in the next 26 bits, then `x` in the high 26 bits, each in two's
/// complement.
#[derive(Clone, Copy, Default, PartialEq, Eq, PartialOrd, Ord, Hash, Debug)]
pub struct PackedBlockPos(pub u64);

/// Whether the coordinates of `p` fit their packed fields.
pub open spec fn packable(p: BlockPos) -> bool {
    &&& -0x2000000 <= p.x <= 0x1ffffff
    &&& -0x800 <= p.y <= 0x7ff
    &&& -0x2000000 <= p.z <= 0x1ffffff
}

/// The two's complement field of `bits` bits of `v`, as an unsigned number.
pub open spec fn low_bits(v: i32, mask: u64) -> u64 {
    (v as u64) & mask
}

/// The packed word of coordinates that fit their fields.
pub open spec fn pack(x: i32, y: i32, z: i32) -> u64 {
    (low_bits(x, 0x3ff_ffff) << 38u64) | (low_bits(z, 0x3ff_ffff) << 12u64) | low_bits(y, 0xfff)
}

/// The `x` field of a packed word: bits 38 to 63, sign-extended.
pub open spec fn field_x(w: u64) -> i32 {
    let raw = (w >> 38u64) & 0x3ff_ffff;
    if raw >= 0x200_0000 {
        (raw - 0x400_0000) as i32
    } else {
        raw as i32
    }
}

/// The `y` field of a packed word: bits 0 to 11, sign-extended.
pub open spec fn field_y(w: u64) -> i32 {
    let raw = w & 0xfff;
    if raw >= 0x800 {
        (raw - 0x1000) as i32
    } else {
        raw as i32
    }
}

/// The `z` field of a packed word: bits 12 to 37, sign-extended.
pub open spec fn field_z(w: u64) -> i32 {
    let raw = (w >> 12u64) & 0x3ff_ffff;
    if raw >= 0x200_0000 {
        (raw - 0x400_0000) as i32
    } else {
        raw as i32
    }
}

impl BlockPos {
    pub fn new(x: i32, y: i32, z: i32) -> (p: Self)
        ensures
            p == (BlockPos { x, y, z }),
    {
        Self { x, y, z }
    }

    /// Packs the position into 64 bits, or returns it as an error when a
    /// coordinate is out of range.
    pub fn packed(self) -> (res: Result<PackedBlockPos, Error>)
        ensures
            packable(self) ==> res == Ok::<PackedBlockPos, Error>(
                PackedBlockPos(pack(self.x, self.y, self.z)),
            ),
            !packable(self) ==> res == Err::<PackedBlockPos, Error>(Error(self)),
            res is Ok <==> (-0x2000000 <= self.x <= 0x1ffffff && -0x800 <= self.y <= 0x7ff
                && -0x2000000 <= self.z <= 0x1ffffff),
            res matches Ok(w) ==> field_x(w.0) == self.x && field_y(w.0) == self.y && field_z(w.0)
                == self.z,
    {
        proof {
            lemma_packable_ranges(self);
        }
        if -0x2000000 <= self.x && self.x <= 0x1ffffff && -0x800 <= self.y && self.y <= 0x7ff
            && -0x2000000 <= self.z && self.z <= 0x1ffffff {
            let (x, y, z) = (self.x, self.y, self.z);
            proof {
                assert((((((0u64 & !(0x3ff_ffffu64 << 38u64)) | (((x as u64) & 0x3ff_ffff) << 38u64))
                    & !0xfffu64) | ((y as u64) & 0xfff)) & !(0x3ff_ffffu64 << 12u64)) | (((z as u64)
                    & 0x3ff_ffff) << 12u64) == (((x as u64) & 0x3ff_ffff) << 38u64) | (((z as u64)
                    & 0x3ff_ffff) << 12u64) | ((y as u64) & 0xfff)) by (bit_vector);
            }
            proof {
                lemma_pack_roundtrip(self);
            }
            Ok(PackedBlockPos::new().with_x(x).with_y(y).with_z(z))
        } else {
            Err(Error(self))
        }
    }
}

impl PackedBlockPos {
    /// All fields zero.
    pub fn new() -> (p: Self)
        ensures
            p.0 == 0,
    {
        PackedBlockPos(0)
    }

    /// The `x` field, sign-extended.
    pub fn x(&self) -> (v: i32)
        ensures
            v == field_x(self.0),
    {
        let raw = (self.0 >> 38u64) & 0x3ff_ffff;
        proof {
            let w = self.0;
            assert((w >> 38u64) & 0x3ff_ffff <= 0x3ff_ffff) by (bit_vector);
        }
        if raw >= 0x200_0000 {
            (raw as i64 - 0x400_0000) as i32
        } else {
            raw as i32
        }
    }

    /// The `y` field, sign-extended.
    pub fn y(&self) -> (v: i32)
        ensures
            v == field_y(self.0),
    {
        let raw = self.0 & 0xfff;
        proof {
            let w = self.0;
            assert(w & 0xfff <= 0xfff) by (bit_vector);
        }
        if raw >= 0x800 {
            (raw as i64 - 0x1000) as i32
        } else {
            raw as i32
        }
    }

    /// The `z` field, sign-extended.
    pub fn z(&self) -> (v: i32)
        ensures
            v == field_z(self.0),
    {
        let raw = (self.0 >> 12u64) & 0x3ff_ffff;
        proof {
            let w = self.0;
            assert((w >> 12u64) & 0x3ff_ffff <= 0x3ff_ffff) by (bit_vector);
        }
        if raw >= 0x200_0000 {
            (raw as i64 - 0x400_0000) as i32
        } else {
            raw as i32
        }
    }

    /// Replaces the `x` field with `v`, which must fit in 26 bits.
    pub fn with_x(self, v: i32) -> (p: Self)
        requires
            -0x2000000 <= v <= 0x1ffffff,
        ensures
            p.0 == (self.0 & !(0x3ff_ffffu64 << 38u64)) | (low_bits(v, 0x3ff_ffff) << 38u64),
    {
        PackedBlockPos((self.0 & !(0x3ff_ffffu64 << 38u64)) | (((v as u64) & 0x3ff_ffff) << 38u64))
    }

    /// Replaces the `y` field with `v`, which must fit in 12 bits.
    pub fn with_y(self, v: i32) -> (p: Self)
        requires
            -0x800 <= v <= 0x7ff,
        ensures
            p.0 == (self.0 & !0xfffu64) | low_bits(v, 0xfff),
    {
        PackedBlockPos((self.0 & !0xfffu64) | ((v as u64) & 0xfff))
    }

    /// Replaces the `z` field with `v`, which must fit in 26 bits.
    pub fn with_z(self, v: i32) -> (p: Self)
        requires
            -0x2000000 <= v <= 0x1ffffff,
        ensures
            p.0 == (self.0 & !(0x3ff_ffffu64 << 12u64)) | (low_bits(v, 0x3ff_ffff) << 12u64),
    {
        PackedBlockPos((self.0 & !(0x3ff_ffffu64 << 12u64)) | (((v as u64) & 0x3ff_ffff) << 12u64))
    }
}

/// Packing keeps every coordinate: the fields of a packed position are the
/// coordinates it was packed from.
pub proof fn lemma_pack_roundtrip(p: BlockPos)
    requires
        packable(p),
    ensures
        field_x(pack(p.x, p.y, p.z)) == p.x,
        field_y(pack(p.x, p.y, p.z)) == p.y,
        field_z(pack(p.x, p.y, p.z)) == p.z,
{
    let (x, y, z) = (p.x, p.y, p.z);
    assert(-0x2000000 <= x <= 0x1ffffff && -0x800 <= y <= 0x7ff && -0x2000000 <= z <= 0x1ffffff
        ==> {
        let w = (((x as u64) & 0x3ff_ffff) << 38u64) | (((z as u64) & 0x3ff_ffff) << 12u64) | ((
        y as u64) & 0xfff);
        &&& ((w >> 38u64) & 0x3ff_ffff >= 0x200_0000 ==> ((w >> 38u64) & 0x3ff_ffff) as int
            - 0x400_0000 == x as int)
        &&& ((w >> 38u64) & 0x3ff_ffff < 0x200_0000 ==> ((w >> 38u64) & 0x3ff_ffff) as int
            == x as int)
        &&& (w & 0xfff >= 0x800 ==> (w & 0xfff) as int - 0x1000 == y as int)
        &&& (w & 0xfff < 0x800 ==> (w & 0xfff) as int == y as int)
        &&& ((w >> 12u64) & 0x3ff_ffff >= 0x200_0000 ==> ((w >> 12u64) & 0x3ff_ffff) as int
            - 0x400_0000 == z as int)
        &&& ((w >> 12u64) & 0x3ff_ffff < 0x200_0000 ==> ((w >> 12u64) & 0x3ff_ffff) as int
            == z as int)
    }) by (bit_vector);
}

/// Exactly the positions with `x` and `z` in `-0x2000000..=0x1ffffff` and
/// `y` in `-0x800..=0x7ff` can be packed: packing succeeds on every one of
/// them, reads each coordinate back unchanged, and fails on every other
/// position with the position itself as the error.
pub proof fn lemma_packable_ranges(p: BlockPos)
    ensures
        packable(p) <==> (-0x2000000 <= p.x <= 0x1ffffff && -0x800 <= p.y <= 0x7ff && -0x2000000
            <= p.z <= 0x1ffffff),
        (-0x2000000 <= p.x <= 0x1ffffff && -0x800 <= p.y <= 0x7ff && -0x2000000 <= p.z
            <= 0x1ffffff) ==> field_x(pack(p.x, p.y, p.z)) == p.x && field_y(pack(p.x, p.y, p.z))
            == p.y && field_z(pack(p.x, p.y, p.z)) == p.z,
{
    if -0x2000000 <= p.x <= 0x1ffffff && -0x800 <= p.y <= 0x7ff && -0x2000000 <= p.z <= 0x1ffffff {
        lemma_pack_roundtrip(p);
    }
}

} // verus!
