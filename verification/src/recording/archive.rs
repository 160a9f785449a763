//! The binary archive of a recorded simulation.
//!
//! Layout: a 288-byte header (magic `MJSM`, version 1 as a little-endian `u16`, the
//! 16-byte grid type, the palette length as one byte, the palette padded with zeros to 256
//! bytes, the frame count and the frame size as little-endian `u32`, one reserved zero
//! byte), then the frames one after another.
use vstd::prelude::*;
use vstd::bytes::*;
use vstd::utf8::*;
use crate::recording::grid_type::{
    lemma_grid_type_roundtrip,
    spec_grid_type_bytes,
    spec_grid_type_from_bytes,
    spec_total_cells,
    GridType,
};
use crate::recording::traits::frame_size;

verus! {

/// Size of the header in bytes.
pub const HEADER_SIZE: usize = 288;

/// A recorded simulation: the grid geometry, its palette and the frames.
#[derive(Debug)]
pub struct SimulationArchive {
    /// Geometry and dimensions.
    pub grid_type: GridType,
    /// The palette (value characters).
    pub palette: String,
    /// The frames, one byte per cell each.
    pub frames: Vec<Vec<u8>>,
}

/// Why an archive could not be written or read.
#[derive(Debug, Clone, Copy, PartialEq, Eq)]
pub enum ArchiveError {
    /// The input ended before the header or a frame was complete.
    Truncated,
    /// The input does not start with the archive magic.
    InvalidMagic,
    /// The header carries another format version.
    UnsupportedVersion(u16),
    /// The header's grid type tag is unknown.
    InvalidGridType,
    /// The header's frame size is not the cell count of its grid type.
    FrameSizeMismatch { expected: usize, got: usize },
    /// The palette is longer than 256 bytes.
    PaletteTooLong,
}

/// `n` zero bytes.
pub open spec fn zeros(n: nat) -> Seq<u8> {
    Seq::new(n, |i: int| 0u8)
}

/// The archive magic, `MJSM`.
pub open spec fn magic() -> Seq<u8> {
    seq![77u8, 74u8, 83u8, 77u8]
}

/// The header for grid type `g`, palette bytes `pal`, `fc` frames of `bpf` bytes.
pub open spec fn spec_header(g: GridType, pal: Seq<u8>, fc: u32, bpf: u32) -> Seq<u8> {
    magic() + spec_u16_to_le_bytes(1u16) + spec_grid_type_bytes(g) + seq![pal.len() as u8] + pal + zeros(
        (256 - pal.len()) as nat,
    ) + spec_u32_to_le_bytes(fc) + spec_u32_to_le_bytes(bpf) + zeros(1)
}

/// The frames one after another.
pub open spec fn concat_frames(frames: Seq<Seq<u8>>) -> Seq<u8>
    decreases frames.len(),
{
    if frames.len() == 0 {
        Seq::empty()
    } else {
        concat_frames(frames.drop_last()) + frames.last()
    }
}

/// The bytes of an archive with grid type `g`, palette bytes `pal` and `frames`.
pub open spec fn spec_archive_bytes(g: GridType, pal: Seq<u8>, frames: Seq<Seq<u8>>) -> Seq<u8> {
    spec_header(g, pal, frames.len() as u32, spec_total_cells(g) as u32) + concat_frames(frames)
}

/// The frame size a reader expects for `g`: its cell count (`usize::MAX` when that does
/// not fit).
pub open spec fn expected_frame_size(g: GridType) -> usize {
    if spec_total_cells(g) <= usize::MAX {
        spec_total_cells(g) as usize
    } else {
        usize::MAX
    }
}

/// Reading `b`: the grid type, the palette bytes and the frames, or the first problem met
/// in reading order (trailing bytes are ignored).
pub open spec fn spec_read_archive(b: Seq<u8>) -> Result<(GridType, Seq<u8>, Seq<Seq<u8>>), ArchiveError> {
    if b.len() < 288 {
        Err(ArchiveError::Truncated)
    } else if b.subrange(0, 4) != magic() {
        Err(ArchiveError::InvalidMagic)
    } else if spec_u16_from_le_bytes(b.subrange(4, 6)) != 1 {
        Err(ArchiveError::UnsupportedVersion(spec_u16_from_le_bytes(b.subrange(4, 6))))
    } else {
        match spec_grid_type_from_bytes(b.subrange(6, 22)) {
            None => Err(ArchiveError::InvalidGridType),
            Some(g) => {
                let plen = b[22] as int;
                let pal = b.subrange(23, 23 + plen);
                let fc = spec_u32_from_le_bytes(b.subrange(279, 283)) as int;
                let bpf = spec_u32_from_le_bytes(b.subrange(283, 287)) as int;
                if bpf != expected_frame_size(g) {
                    Err(ArchiveError::FrameSizeMismatch { expected: expected_frame_size(g), got: bpf as usize })
                } else if b.len() < 288 + fc * bpf {
                    Err(ArchiveError::Truncated)
                } else {
                    Ok((g, pal, Seq::new(fc as nat, |k: int| b.subrange(288 + k * bpf, 288 + (k + 1) * bpf))))
                }
            },
        }
    }
}

/// The contents of a list of frames.
pub open spec fn frames_view(frames: Seq<Vec<u8>>) -> Seq<Seq<u8>> {
    Seq::new(frames.len(), |i: int| frames[i]@)
}

/// What `String::from_utf8_lossy` makes of a byte sequence.
pub uninterp spec fn utf8_lossy(bytes: Seq<u8>) -> Seq<char>;

/// `String::from_utf8_lossy`, taken as an owned string: valid UTF-8 is decoded as is
/// (invalid sequences become replacement characters, which is not stated here).
#[verifier::external_body]
fn lossy_string(bytes: &[u8]) -> (r: String)
    ensures
        r@ == utf8_lossy(bytes@),
        valid_utf8(bytes@) ==> r@ == decode_utf8(bytes@),
{
    String::from_utf8_lossy(bytes).into_owned()
}

/// Append `src` to `out`.
fn append(out: &mut Vec<u8>, src: &[u8])
    ensures
        final(out)@ == old(out)@ + src@,
{
    let mut i: usize = 0;
    while i < src.len()
        invariant
            i <= src@.len(),
            out@ == old(out)@ + src@.take(i as int),
        decreases src@.len() - i,
    {
        out.push(src[i]);
        i = i + 1;
        assert(out@ =~= old(out)@ + src@.take(i as int));
    }
    assert(src@.take(src@.len() as int) =~= src@);
}

/// Append `n` zero bytes to `out`.
fn append_zeros(out: &mut Vec<u8>, n: usize)
    ensures
        final(out)@ == old(out)@ + zeros(n as nat),
{
    let mut i: usize = 0;
    while i < n
        invariant
            i <= n,
            out@ == old(out)@ + zeros(i as nat),
        decreases n - i,
    {
        out.push(0);
        i = i + 1;
        assert(out@ =~= old(out)@ + zeros(i as nat));
    }
}

impl SimulationArchive {
    /// An archive of `frames` for `grid_type` and `palette`.
    pub fn new(grid_type: GridType, palette: String, frames: Vec<Vec<u8>>) -> (a: Self)
        ensures
            a.grid_type == grid_type,
            a.palette@ == palette@,
            a.frames@ == frames@,
    {
        SimulationArchive { grid_type, palette, frames }
    }

    /// Number of frames.
    pub fn frame_count(&self) -> (r: usize)
        ensures
            r == self.frames@.len(),
    {
        self.frames.len()
    }

    /// Bytes per frame: the cell count of the grid type.
    pub fn bytes_per_frame(&self) -> (r: usize)
        requires
            spec_total_cells(self.grid_type) <= usize::MAX,
        ensures
            r == spec_total_cells(self.grid_type),
    {
        self.grid_type.bytes_per_frame()
    }

    /// Bytes of all frames: frame count times frame size.
    pub fn total_frame_bytes(&self) -> (r: usize)
        requires
            self.frames@.len() * spec_total_cells(self.grid_type) <= usize::MAX,
            spec_total_cells(self.grid_type) <= usize::MAX,
        ensures
            r == self.frames@.len() * spec_total_cells(self.grid_type),
    {
        self.frames.len() * self.bytes_per_frame()
    }

    /// Frame `index`, if there is one.
    pub fn frame(&self, index: usize) -> (r: Option<&[u8]>)
        ensures
            index < self.frames@.len() ==> (r matches Some(f) && f@ == self.frames@[index as int]@),
            index >= self.frames@.len() ==> r is None,
    {
        if index < self.frames.len() {
            Some(self.frames[index].as_slice())
        } else {
            None
        }
    }

    /// Append the archive's bytes to `out`; refused when the palette is longer than 256
    /// bytes. Frame count and frame size are written as 32-bit values, and a palette of
    /// exactly 256 bytes records its length as 0.
    pub fn write_to(&self, out: &mut Vec<u8>) -> (r: Result<(), ArchiveError>)
        requires
            spec_total_cells(self.grid_type) <= usize::MAX,
        ensures
            r is Err <==> encode_utf8(self.palette@).len() > 256,
            r is Err ==> r == Err::<(), ArchiveError>(ArchiveError::PaletteTooLong) && final(out)@ == old(out)@,
            r is Ok ==> final(out)@ == old(out)@ + spec_archive_bytes(
                self.grid_type,
                encode_utf8(self.palette@),
                frames_view(self.frames@),
            ),
    {
        let pal = self.palette.as_str().as_bytes();
        if pal.len() > 256 {
            return Err(ArchiveError::PaletteTooLong);
        }
        let ghost start = out@;
        let magic_bytes: [u8; 4] = [77, 74, 83, 77];
        append(out, &magic_bytes);
        let version = u16_to_le_bytes(1);
        append(out, version.as_slice());
        let gt = self.grid_type.to_bytes();
        append(out, &gt);
        out.push(#[verifier::truncate] (pal.len() as u8));
        append(out, pal);
        append_zeros(out, 256 - pal.len());
        let fc = u32_to_le_bytes(#[verifier::truncate] (self.frames.len() as u32));
        append(out, fc.as_slice());
        let bpf = u32_to_le_bytes(#[verifier::truncate] (self.bytes_per_frame() as u32));
        append(out, bpf.as_slice());
        append_zeros(out, 1);
        proof {
            assert(magic_bytes@ =~= magic());
            assert(out@ =~= start + spec_header(
                self.grid_type,
                encode_utf8(self.palette@),
                self.frames@.len() as u32,
                spec_total_cells(self.grid_type) as u32,
            ));
        }
        let ghost header_end = out@;
        let mut k: usize = 0;
        while k < self.frames.len()
            invariant
                k <= self.frames@.len(),
                out@ == header_end + concat_frames(frames_view(self.frames@).take(k as int)),
            decreases self.frames@.len() - k,
        {
            append(out, self.frames[k].as_slice());
            proof {
                let fv = frames_view(self.frames@);
                assert(fv.take((k + 1) as int).drop_last() =~= fv.take(k as int));
            }
            k = k + 1;
        }
        proof {
            assert(frames_view(self.frames@).take(self.frames@.len() as int) =~= frames_view(self.frames@));
        }
        Ok(())
    }

    /// Read an archive from the start of `bytes` (trailing bytes are ignored).
    pub fn read_from(bytes: &[u8]) -> (r: Result<Self, ArchiveError>)
        ensures
            r is Ok <==> spec_read_archive(bytes@) is Ok,
            r matches Err(e) ==> spec_read_archive(bytes@) == Err::<(GridType, Seq<u8>, Seq<Seq<u8>>), ArchiveError>(e),
            r matches Ok(a) ==> {
                let t = spec_read_archive(bytes@)->Ok_0;
                &&& a.grid_type == t.0
                &&& a.palette@ == utf8_lossy(t.1)
                &&& (valid_utf8(t.1) ==> a.palette@ == decode_utf8(t.1))
                &&& frames_view(a.frames@) == t.2
            },
    {
        if bytes.len() < HEADER_SIZE {
            return Err(ArchiveError::Truncated);
        }
        let b = bytes;
        let magic_bytes: [u8; 4] = [77, 74, 83, 77];
        proof {
            assert(magic_bytes@ =~= magic());
        }
        let mut i: usize = 0;
        while i < 4
            invariant
                i <= 4,
                b@.len() >= 288,
                b@ == bytes@,
                magic_bytes@ == magic(),
                forall|k: int| 0 <= k < i ==> b@[k] == magic_bytes@[k],
            decreases 4 - i,
        {
            if b[i] != magic_bytes[i] {
                proof {
                    assert(b@.subrange(0, 4)[i as int] != magic()[i as int]);
                    assert(b@.subrange(0, 4) != magic());
                }
                return Err(ArchiveError::InvalidMagic);
            }
            i = i + 1;
        }
        proof {
            assert(b@.subrange(0, 4) =~= magic());
        }
        let vb = crate::recording::grid_type::slice_range(b, 4, 6);
        let version = u16_from_le_bytes(vb.as_slice());
        if version != 1 {
            return Err(ArchiveError::UnsupportedVersion(version));
        }
        let mut gtb: [u8; 16] = [0u8; 16];
        let mut j: usize = 0;
        while j < 16
            invariant
                j <= 16,
                b@.len() >= 288,
                gtb@.len() == 16,
                forall|k: int| 0 <= k < j ==> gtb@[k] == b@[6 + k],
            decreases 16 - j,
        {
            gtb[j] = b[6 + j];
            j = j + 1;
        }
        proof {
            assert(gtb@ =~= b@.subrange(6, 22));
        }
        let grid_type = match GridType::from_bytes(&gtb) {
            Some(g) => g,
            None => {
                return Err(ArchiveError::InvalidGridType);
            },
        };
        let plen = b[22] as usize;
        let pal_bytes = crate::recording::grid_type::slice_range(b, 23, 23 + plen);
        let palette = lossy_string(pal_bytes.as_slice());
        let fcb = crate::recording::grid_type::slice_range(b, 279, 283);
        let fc = u32_from_le_bytes(fcb.as_slice()) as usize;
        let bpb = crate::recording::grid_type::slice_range(b, 283, 287);
        let bpf = u32_from_le_bytes(bpb.as_slice()) as usize;
        let expected = match frame_size(&grid_type) {
            Some(n) => n,
            None => usize::MAX,
        };
        if bpf != expected {
            return Err(ArchiveError::FrameSizeMismatch { expected, got: bpf });
        }
        let ghost fcs = fc as int;
        let ghost bps = bpf as int;
        let ghost outcome = if b@.len() < 288 + fcs * bps {
            Err::<(GridType, Seq<u8>, Seq<Seq<u8>>), ArchiveError>(ArchiveError::Truncated)
        } else {
            Ok((grid_type, pal_bytes@, Seq::new(fcs as nat, |q: int| b@.subrange(288 + q * bps, 288 + (q + 1) * bps))))
        };
        assert(spec_read_archive(bytes@) == outcome);
        let mut frames: Vec<Vec<u8>> = Vec::new();
        let mut off: usize = HEADER_SIZE;
        let mut k: usize = 0;
        while k < fc
            invariant
                k <= fc,
                fcs == fc,
                bps == bpf,
                off == 288 + k * bpf,
                off <= b@.len(),
                b@ == bytes@,
                spec_read_archive(bytes@) == outcome,
                outcome == (if b@.len() < 288 + fcs * bps {
                    Err::<(GridType, Seq<u8>, Seq<Seq<u8>>), ArchiveError>(ArchiveError::Truncated)
                } else {
                    Ok((grid_type, pal_bytes@, Seq::new(fcs as nat, |q: int| b@.subrange(288 + q * bps, 288 + (q + 1) * bps))))
                }),
                frames_view(frames@) == Seq::new(k as nat, |q: int| b@.subrange(288 + q * bps, 288 + (q + 1) * bps)),
            decreases fc - k,
        {
            if b.len() - off < bpf {
                proof {
                    assert(288 + fcs * bps >= 288 + (k + 1) * bps) by (nonlinear_arith)
                        requires
                            k + 1 <= fcs,
                            bps >= 0,
                    ;
                    assert(288 + (k + 1) * bps == off + bps) by (nonlinear_arith)
                        requires
                            off == 288 + k * bps,
                    ;
                }
                return Err(ArchiveError::Truncated);
            }
            let frame = crate::recording::grid_type::slice_range(b, off, off + bpf);
            let ghost before = frames@;
            frames.push(frame);
            proof {
                assert(288 + (k + 1) * bps == off + bps) by (nonlinear_arith)
                    requires
                        off == 288 + k * bps,
                ;
                assert(frames_view(frames@) =~= frames_view(before).push(frame@));
                assert(frames_view(frames@) =~= Seq::new((k + 1) as nat, |q: int| b@.subrange(288 + q * bps, 288 + (q + 1) * bps)));
            }
            off = off + bpf;
            k = k + 1;
        }
        proof {
            assert(off == 288 + fcs * bps);
        }
        Ok(SimulationArchive { grid_type, palette, frames })
    }
}

/// The frames laid one after another: each frame of size `bpf` sits at `k * bpf`.
pub proof fn lemma_concat_frames(frames: Seq<Seq<u8>>, bpf: int)
    requires
        bpf >= 0,
        forall|k: int| 0 <= k < frames.len() ==> (#[trigger] frames[k]).len() == bpf,
    ensures
        concat_frames(frames).len() == frames.len() * bpf,
        forall|k: int| 0 <= k < frames.len() ==> concat_frames(frames).subrange(k * bpf, (k + 1) * bpf) == #[trigger] frames[k],
    decreases frames.len(),
{
    if frames.len() > 0 {
        let init = frames.drop_last();
        lemma_concat_frames(init, bpf);
        let n = frames.len() - 1;
        assert(n * bpf + bpf == frames.len() * bpf) by (nonlinear_arith)
            requires
                n == frames.len() - 1,
        ;
        assert forall|k: int| 0 <= k < frames.len() implies concat_frames(frames).subrange(k * bpf, (k + 1) * bpf)
            == #[trigger] frames[k] by {
            if k < n {
                assert(init[k] == frames[k]);
                assert((k + 1) * bpf <= n * bpf) by (nonlinear_arith)
                    requires
                        k + 1 <= n,
                        bpf >= 0,
                ;
                assert(0 <= k * bpf) by (nonlinear_arith)
                    requires
                        k >= 0,
                        bpf >= 0,
                ;
                assert(k * bpf + bpf == (k + 1) * bpf) by (nonlinear_arith);
                assert(concat_frames(frames).subrange(k * bpf, (k + 1) * bpf) =~= concat_frames(init).subrange(
                    k * bpf,
                    (k + 1) * bpf,
                ));
            } else {
                assert(k == n);
                assert(concat_frames(frames).subrange(k * bpf, (k + 1) * bpf) =~= frames.last());
            }
        }
    }
}

/// Reading the bytes written for an archive gives back its grid type, palette bytes and
/// frames, whatever follows them, when the palette is shorter than 256 bytes, every frame
/// has the grid type's cell count of bytes, and frame count and cell count fit in 32 bits.
pub proof fn lemma_archive_roundtrip(g: GridType, pal: Seq<u8>, frames: Seq<Seq<u8>>, rest: Seq<u8>)
    requires
        pal.len() < 256,
        frames.len() <= u32::MAX,
        spec_total_cells(g) <= u32::MAX,
        forall|k: int| 0 <= k < frames.len() ==> (#[trigger] frames[k]).len() == spec_total_cells(g),
    ensures
        spec_read_archive(spec_archive_bytes(g, pal, frames) + rest) == Ok::<
            (GridType, Seq<u8>, Seq<Seq<u8>>),
            ArchiveError,
        >((g, pal, frames)),
{
    lemma_auto_spec_u32_to_from_le_bytes();
    lemma_auto_spec_u16_to_from_le_bytes();
    lemma_grid_type_roundtrip(g);
    let bpf = spec_total_cells(g);
    match g {
        GridType::Cartesian2D { width, height } => {
            vstd::arithmetic::mul::lemma_mul_nonnegative(width as int, height as int);
        },
        GridType::Cartesian3D { width, height, depth } => {
            vstd::arithmetic::mul::lemma_mul_nonnegative(width as int, height as int);
            vstd::arithmetic::mul::lemma_mul_nonnegative(width * height, depth as int);
        },
        GridType::Polar2D { r_depth, theta_divisions, .. } => {
            vstd::arithmetic::mul::lemma_mul_nonnegative(r_depth as int, theta_divisions as int);
        },
        GridType::Polar3D { r_depth, theta_divisions, phi_divisions, .. } => {
            vstd::arithmetic::mul::lemma_mul_nonnegative(r_depth as int, theta_divisions as int);
            vstd::arithmetic::mul::lemma_mul_nonnegative(r_depth * theta_divisions, phi_divisions as int);
        },
    }
    assert(bpf >= 0);
    lemma_concat_frames(frames, bpf);
    let h = spec_header(g, pal, frames.len() as u32, bpf as u32);
    let body = concat_frames(frames);
    let b = spec_archive_bytes(g, pal, frames) + rest;
    assert(h.len() == 288);
    assert(b =~= h + body + rest);
    assert(b.subrange(0, 4) =~= magic());
    assert(b.subrange(4, 6) =~= spec_u16_to_le_bytes(1u16));
    assert(b.subrange(6, 22) =~= spec_grid_type_bytes(g));
    assert(b[22] == pal.len() as u8);
    assert(b.subrange(23, 23 + pal.len() as int) =~= pal);
    assert(b.subrange(279, 283) =~= spec_u32_to_le_bytes(frames.len() as u32));
    assert(b.subrange(283, 287) =~= spec_u32_to_le_bytes(bpf as u32));
    assert(expected_frame_size(g) == bpf);
    let fc = frames.len() as int;
    assert(b.len() >= 288 + fc * bpf);
    assert forall|i: int| 0 <= i < body.len() implies b[288 + i] == #[trigger] body[i] by {
        assert((h + body + rest)[288 + i] == body[i]);
    }
    assert forall|k: int| 0 <= k < fc implies b.subrange(288 + k * bpf, 288 + (k + 1) * bpf) == frames[k] by {
        assert((k + 1) * bpf <= fc * bpf) by (nonlinear_arith)
            requires
                k + 1 <= fc,
                bpf >= 0,
        ;
        assert(0 <= k * bpf) by (nonlinear_arith)
            requires
                k >= 0,
                bpf >= 0,
        ;
        assert(k * bpf + bpf == (k + 1) * bpf) by (nonlinear_arith);
        assert(body.len() == fc * bpf);
        assert(b.subrange(288 + k * bpf, 288 + (k + 1) * bpf) =~= body.subrange(k * bpf, (k + 1) * bpf));
    }
    assert(Seq::new(fc as nat, |k: int| b.subrange(288 + k * bpf, 288 + (k + 1) * bpf)) =~= frames);
}

/// The palette survives a write and a read: its UTF-8 bytes decode back to it.
pub proof fn lemma_palette_roundtrip(palette: Seq<char>)
    ensures
        valid_utf8(encode_utf8(palette)),
        decode_utf8(encode_utf8(palette)) == palette,
{
    encode_utf8_valid_utf8(palette);
    encode_utf8_decode_utf8(palette);
}

} // verus!
