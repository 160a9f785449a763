//! Grid type descriptors and their fixed 16-byte binary encoding.
use vstd::prelude::*;
use vstd::bytes::*;

verus! {

/// Type identifier used in the binary encoding.
#[derive(Debug, Clone, Copy, PartialEq, Eq)]
pub enum GridTypeId {
    Cartesian2D,
    Cartesian3D,
    Polar2D,
    Polar3D,
}

/// The numeric tag of a type identifier.
pub open spec fn type_id_tag(id: GridTypeId) -> u8 {
    match id {
        GridTypeId::Cartesian2D => 0,
        GridTypeId::Cartesian3D => 1,
        GridTypeId::Polar2D => 2,
        GridTypeId::Polar3D => 3,
    }
}

/// The type identifier that a numeric tag stands for, if any.
pub open spec fn spec_type_id_from_u8(value: u8) -> Option<GridTypeId> {
    if value == 0 {
        Some(GridTypeId::Cartesian2D)
    } else if value == 1 {
        Some(GridTypeId::Cartesian3D)
    } else if value == 2 {
        Some(GridTypeId::Polar2D)
    } else if value == 3 {
        Some(GridTypeId::Polar3D)
    } else {
        None
    }
}

impl GridTypeId {
    /// Decode a numeric tag.
    pub fn from_u8(value: u8) -> (r: Option<Self>)
        ensures
            r == spec_type_id_from_u8(value),
    {
        match value {
            0 => Some(GridTypeId::Cartesian2D),
            1 => Some(GridTypeId::Cartesian3D),
            2 => Some(GridTypeId::Polar2D),
            3 => Some(GridTypeId::Polar3D),
            _ => None,
        }
    }

    /// The numeric tag of this identifier.
    pub fn to_u8(&self) -> (r: u8)
        ensures
            r == type_id_tag(*self),
    {
        match self {
            GridTypeId::Cartesian2D => 0,
            GridTypeId::Cartesian3D => 1,
            GridTypeId::Polar2D => 2,
            GridTypeId::Polar3D => 3,
        }
    }
}

/// Grid geometry and dimensions.
#[derive(Debug, Clone, Copy, PartialEq, Eq)]
pub enum GridType {
    /// 2D Cartesian grid.
    Cartesian2D { width: u32, height: u32 },
    /// 3D Cartesian grid.
    Cartesian3D { width: u32, height: u32, depth: u32 },
    /// 2D polar grid (rings of cells).
    Polar2D { r_min: u32, r_depth: u16, theta_divisions: u16 },
    /// 3D polar grid.
    Polar3D { r_min: u32, r_depth: u16, theta_divisions: u16, phi_divisions: u16 },
}

/// The type identifier of a grid type.
pub open spec fn spec_type_id(g: GridType) -> GridTypeId {
    match g {
        GridType::Cartesian2D { .. } => GridTypeId::Cartesian2D,
        GridType::Cartesian3D { .. } => GridTypeId::Cartesian3D,
        GridType::Polar2D { .. } => GridTypeId::Polar2D,
        GridType::Polar3D { .. } => GridTypeId::Polar3D,
    }
}

/// Number of cells described by a grid type.
pub open spec fn spec_total_cells(g: GridType) -> int {
    match g {
        GridType::Cartesian2D { width, height } => width * height,
        GridType::Cartesian3D { width, height, depth } => width * height * depth,
        GridType::Polar2D { r_depth, theta_divisions, .. } => r_depth * theta_divisions,
        GridType::Polar3D { r_depth, theta_divisions, phi_divisions, .. } => r_depth
            * theta_divisions * phi_divisions,
    }
}

/// Whether a grid type is two-dimensional.
pub open spec fn spec_is_2d(g: GridType) -> bool {
    g is Cartesian2D || g is Polar2D
}

/// A byte sequence padded with zeros to 16 bytes.
pub open spec fn pad16(s: Seq<u8>) -> Seq<u8> {
    s + Seq::new((16 - s.len()) as nat, |i: int| 0u8)
}

/// The 16-byte encoding of a grid type: tag, then little-endian fields, then zeros.
pub open spec fn spec_grid_type_bytes(g: GridType) -> Seq<u8> {
    match g {
        GridType::Cartesian2D { width, height } => pad16(
            seq![0u8] + spec_u32_to_le_bytes(width) + spec_u32_to_le_bytes(height),
        ),
        GridType::Cartesian3D { width, height, depth } => pad16(
            seq![1u8] + spec_u32_to_le_bytes(width) + spec_u32_to_le_bytes(height)
                + spec_u32_to_le_bytes(depth),
        ),
        GridType::Polar2D { r_min, r_depth, theta_divisions } => pad16(
            seq![2u8] + spec_u32_to_le_bytes(r_min) + spec_u16_to_le_bytes(r_depth)
                + spec_u16_to_le_bytes(theta_divisions),
        ),
        GridType::Polar3D { r_min, r_depth, theta_divisions, phi_divisions } => pad16(
            seq![3u8] + spec_u32_to_le_bytes(r_min) + spec_u16_to_le_bytes(r_depth)
                + spec_u16_to_le_bytes(theta_divisions) + spec_u16_to_le_bytes(phi_divisions),
        ),
    }
}

/// Little-endian u32 stored at `off` in `b`.
pub open spec fn le32_at(b: Seq<u8>, off: int) -> u32 {
    spec_u32_from_le_bytes(b.subrange(off, off + 4))
}

/// Little-endian u16 stored at `off` in `b`.
pub open spec fn le16_at(b: Seq<u8>, off: int) -> u16 {
    spec_u16_from_le_bytes(b.subrange(off, off + 2))
}

/// Decoding of a 16-byte grid type header.
pub open spec fn spec_grid_type_from_bytes(b: Seq<u8>) -> Option<GridType> {
    if b[0] == 0 {
        Some(GridType::Cartesian2D { width: le32_at(b, 1), height: le32_at(b, 5) })
    } else if b[0] == 1 {
        Some(
            GridType::Cartesian3D {
                width: le32_at(b, 1),
                height: le32_at(b, 5),
                depth: le32_at(b, 9),
            },
        )
    } else if b[0] == 2 {
        Some(
            GridType::Polar2D {
                r_min: le32_at(b, 1),
                r_depth: le16_at(b, 5),
                theta_divisions: le16_at(b, 7),
            },
        )
    } else if b[0] == 3 {
        Some(
            GridType::Polar3D {
                r_min: le32_at(b, 1),
                r_depth: le16_at(b, 5),
                theta_divisions: le16_at(b, 7),
                phi_divisions: le16_at(b, 9),
            },
        )
    } else {
        None
    }
}

/// Write the bytes of `src` into `dst` starting at `off`.
fn put_bytes(dst: &mut [u8; 16], off: usize, src: &Vec<u8>)
    requires
        off + src@.len() <= 16,
    ensures
        final(dst)@ == old(dst)@.subrange(0, off as int) + src@ + old(dst)@.subrange(
            off + src@.len(),
            16,
        ),
{
    let mut i: usize = 0;
    while i < src.len()
        invariant
            off + src@.len() <= 16,
            i <= src@.len(),
            dst@.len() == 16,
            dst@ == old(dst)@.subrange(0, off as int) + src@.subrange(0, i as int) + old(
                dst,
            )@.subrange(off + i, 16),
        decreases src@.len() - i,
    {
        dst[off + i] = src[i];
        i = i + 1;
        assert(dst@ =~= old(dst)@.subrange(0, off as int) + src@.subrange(0, i as int) + old(
            dst,
        )@.subrange(off + i, 16));
    }
    assert(src@.subrange(0, i as int) =~= src@);
}

impl GridType {
    /// The type identifier for binary serialization.
    pub fn type_id(&self) -> (r: GridTypeId)
        ensures
            r == spec_type_id(*self),
    {
        match self {
            GridType::Cartesian2D { .. } => GridTypeId::Cartesian2D,
            GridType::Cartesian3D { .. } => GridTypeId::Cartesian3D,
            GridType::Polar2D { .. } => GridTypeId::Polar2D,
            GridType::Polar3D { .. } => GridTypeId::Polar3D,
        }
    }

    /// Number of cells in the grid.
    pub fn total_cells(&self) -> (r: usize)
        requires
            spec_total_cells(*self) <= usize::MAX,
        ensures
            r == spec_total_cells(*self),
    {
        match self {
            GridType::Cartesian2D { width, height } => {
                let w = *width as usize;
                let h = *height as usize;
                assert(w * h == (*width as int) * (*height as int));
                let r = w * h;
                assert(r == spec_total_cells(*self));
                r
            },
            GridType::Cartesian3D { width, height, depth } => {
                let w = *width as usize;
                let h = *height as usize;
                let d = *depth as usize;
                if d == 0 {
                    assert(spec_total_cells(*self) == 0) by (nonlinear_arith)
                        requires spec_total_cells(*self) == w * h * d, d == 0;
                    0
                } else {
                    assert(w * h <= usize::MAX) by (nonlinear_arith)
                        requires
                            w * h * d <= usize::MAX,
                            d >= 1,
                            w >= 0,
                            h >= 0,
                    ;
                    let r = w * h * d;
                    assert(r == spec_total_cells(*self));
                    r
                }
            },
            GridType::Polar2D { r_depth, theta_divisions, .. } => {
                let a = *r_depth as usize;
                let b = *theta_divisions as usize;
                assert(a * b <= 0xffff * 0xffff) by (nonlinear_arith)
                    requires a <= 0xffff, b <= 0xffff;
                let r = a * b;
                assert(r == spec_total_cells(*self));
                r
            },
            GridType::Polar3D { r_depth, theta_divisions, phi_divisions, .. } => {
                let a = *r_depth as usize;
                let b = *theta_divisions as usize;
                let c = *phi_divisions as usize;
                assert(a * b <= 0xffff * 0xffff) by (nonlinear_arith)
                    requires a <= 0xffff, b <= 0xffff;
                assert(a * b * c <= 0xffff * 0xffff * 0xffff) by (nonlinear_arith)
                    requires a <= 0xffff, b <= 0xffff, c <= 0xffff;
                let r = a * b * c;
                assert(r == spec_total_cells(*self));
                r
            },
        }
    }

    /// Number of bytes for one frame (one byte per cell).
    pub fn bytes_per_frame(&self) -> (r: usize)
        requires
            spec_total_cells(*self) <= usize::MAX,
        ensures
            r == spec_total_cells(*self),
    {
        self.total_cells()
    }

    /// Whether this is a 2D grid type.
    pub fn is_2d(&self) -> (r: bool)
        ensures
            r == spec_is_2d(*self),
    {
        match self {
            GridType::Cartesian2D { .. } | GridType::Polar2D { .. } => true,
            _ => false,
        }
    }

    /// Whether this is a 3D grid type.
    pub fn is_3d(&self) -> (r: bool)
        ensures
            r == !spec_is_2d(*self),
    {
        match self {
            GridType::Cartesian3D { .. } | GridType::Polar3D { .. } => true,
            _ => false,
        }
    }

    /// Serialize to the fixed 16-byte encoding.
    pub fn to_bytes(&self) -> (r: [u8; 16])
        ensures
            r@ == spec_grid_type_bytes(*self),
    {
        let mut bytes = [0u8; 16];
        assert(bytes@ =~= Seq::new(16, |i: int| 0u8));
        bytes[0] = self.type_id().to_u8();
        match self {
            GridType::Cartesian2D { width, height } => {
                put_bytes(&mut bytes, 1, &u32_to_le_bytes(*width));
                put_bytes(&mut bytes, 5, &u32_to_le_bytes(*height));
            },
            GridType::Cartesian3D { width, height, depth } => {
                put_bytes(&mut bytes, 1, &u32_to_le_bytes(*width));
                put_bytes(&mut bytes, 5, &u32_to_le_bytes(*height));
                put_bytes(&mut bytes, 9, &u32_to_le_bytes(*depth));
            },
            GridType::Polar2D { r_min, r_depth, theta_divisions } => {
                put_bytes(&mut bytes, 1, &u32_to_le_bytes(*r_min));
                put_bytes(&mut bytes, 5, &u16_to_le_bytes(*r_depth));
                put_bytes(&mut bytes, 7, &u16_to_le_bytes(*theta_divisions));
            },
            GridType::Polar3D { r_min, r_depth, theta_divisions, phi_divisions } => {
                put_bytes(&mut bytes, 1, &u32_to_le_bytes(*r_min));
                put_bytes(&mut bytes, 5, &u16_to_le_bytes(*r_depth));
                put_bytes(&mut bytes, 7, &u16_to_le_bytes(*theta_divisions));
                put_bytes(&mut bytes, 9, &u16_to_le_bytes(*phi_divisions));
            },
        }
        assert(bytes@ =~= spec_grid_type_bytes(*self));
        bytes
    }

    /// Deserialize from the fixed 16-byte encoding.
    pub fn from_bytes(bytes: &[u8; 16]) -> (r: Option<Self>)
        ensures
            r == spec_grid_type_from_bytes(bytes@),
    {
        let b = bytes.as_slice();
        let type_id = GridTypeId::from_u8(bytes[0]);
        match type_id {
            None => None,
            Some(GridTypeId::Cartesian2D) => {
                let width = u32_from_le_bytes(slice_range(b, 1, 5).as_slice());
                let height = u32_from_le_bytes(slice_range(b, 5, 9).as_slice());
                Some(GridType::Cartesian2D { width, height })
            },
            Some(GridTypeId::Cartesian3D) => {
                let width = u32_from_le_bytes(slice_range(b, 1, 5).as_slice());
                let height = u32_from_le_bytes(slice_range(b, 5, 9).as_slice());
                let depth = u32_from_le_bytes(slice_range(b, 9, 13).as_slice());
                Some(GridType::Cartesian3D { width, height, depth })
            },
            Some(GridTypeId::Polar2D) => {
                let r_min = u32_from_le_bytes(slice_range(b, 1, 5).as_slice());
                let r_depth = u16_from_le_bytes(slice_range(b, 5, 7).as_slice());
                let theta_divisions = u16_from_le_bytes(slice_range(b, 7, 9).as_slice());
                Some(GridType::Polar2D { r_min, r_depth, theta_divisions })
            },
            Some(GridTypeId::Polar3D) => {
                let r_min = u32_from_le_bytes(slice_range(b, 1, 5).as_slice());
                let r_depth = u16_from_le_bytes(slice_range(b, 5, 7).as_slice());
                let theta_divisions = u16_from_le_bytes(slice_range(b, 7, 9).as_slice());
                let phi_divisions = u16_from_le_bytes(slice_range(b, 9, 11).as_slice());
                Some(GridType::Polar3D { r_min, r_depth, theta_divisions, phi_divisions })
            },
        }
    }
}

/// Copy of the bytes `b[lo..hi]`.
pub fn slice_range(b: &[u8], lo: usize, hi: usize) -> (r: Vec<u8>)
    requires
        lo <= hi <= b@.len(),
    ensures
        r@ == b@.subrange(lo as int, hi as int),
{
    let mut r: Vec<u8> = Vec::new();
    let mut i = lo;
    while i < hi
        invariant
            lo <= i <= hi <= b@.len(),
            r@ == b@.subrange(lo as int, i as int),
        decreases hi - i,
    {
        r.push(b[i]);
        i = i + 1;
        assert(r@ =~= b@.subrange(lo as int, i as int));
    }
    r
}

/// Decoding the encoding of a grid type gives the grid type back.
pub proof fn lemma_grid_type_roundtrip(g: GridType)
    ensures
        spec_grid_type_from_bytes(spec_grid_type_bytes(g)) == Some(g),
{
    lemma_auto_spec_u32_to_from_le_bytes();
    lemma_auto_spec_u16_to_from_le_bytes();
    let b = spec_grid_type_bytes(g);
    match g {
        GridType::Cartesian2D { width, height } => {
            assert(b.subrange(1, 5) =~= spec_u32_to_le_bytes(width));
            assert(b.subrange(5, 9) =~= spec_u32_to_le_bytes(height));
        },
        GridType::Cartesian3D { width, height, depth } => {
            assert(b.subrange(1, 5) =~= spec_u32_to_le_bytes(width));
            assert(b.subrange(5, 9) =~= spec_u32_to_le_bytes(height));
            assert(b.subrange(9, 13) =~= spec_u32_to_le_bytes(depth));
        },
        GridType::Polar2D { r_min, r_depth, theta_divisions } => {
            assert(b.subrange(1, 5) =~= spec_u32_to_le_bytes(r_min));
            assert(b.subrange(5, 7) =~= spec_u16_to_le_bytes(r_depth));
            assert(b.subrange(7, 9) =~= spec_u16_to_le_bytes(theta_divisions));
        },
        GridType::Polar3D { r_min, r_depth, theta_divisions, phi_divisions } => {
            assert(b.subrange(1, 5) =~= spec_u32_to_le_bytes(r_min));
            assert(b.subrange(5, 7) =~= spec_u16_to_le_bytes(r_depth));
            assert(b.subrange(7, 9) =~= spec_u16_to_le_bytes(theta_divisions));
            assert(b.subrange(9, 11) =~= spec_u16_to_le_bytes(phi_divisions));
        },
    }
}

} // verus!
