//! Choosing the frames of a video of an archive, and the exporter's settings.
use vstd::prelude::*;
use crate::recording::archive::SimulationArchive;
use crate::recording::grid_type::{spec_is_2d, GridType};
use crate::recording::traits::{default_color, default_colors_for_palette, grays_fit};

verus! {

/// Renders the frames of an archive into a video.
pub struct VideoExporter {
    /// The archive to render.
    pub archive: SimulationArchive,
    /// Color of each value.
    pub colors: Vec<[u8; 4]>,
    /// Color of the area outside the grid.
    pub background: [u8; 4],
    /// Width and height of the frames in pixels.
    pub image_size: u32,
}

/// Why an archive cannot be made into a video.
#[derive(Debug, Clone, Copy, PartialEq, Eq)]
pub enum ExportRefusal {
    /// The archive has no frames.
    NoFrames,
    /// Only 2D grids can be rendered.
    UnsupportedGridType(GridType),
}

/// Source frame shown at video frame `i` of `target`: `i * source / target`, except that
/// the last video frame shows the last source frame.
pub open spec fn sampled_frame(i: int, source: int, target: int) -> int {
    if i == target - 1 {
        source - 1
    } else {
        i * source / target
    }
}

/// The source frame of each of `target` video frames, spread evenly over `source` frames
/// (repeating frames when there are fewer), the last video frame showing the last frame.
pub fn sample_frame_indices(source: usize, target: usize) -> (r: Vec<usize>)
    requires
        source >= 1,
        target * source <= usize::MAX,
    ensures
        r@.len() == target,
        forall|i: int| 0 <= i < target ==> r@[i] == sampled_frame(i, source as int, target as int),
        forall|i: int| 0 <= i < target ==> r@[i] < source,
{
    let mut r: Vec<usize> = Vec::new();
    let mut i: usize = 0;
    while i < target
        invariant
            i <= target,
            source >= 1,
            target * source <= usize::MAX,
            r@.len() == i,
            forall|k: int| 0 <= k < i ==> r@[k] == (k * source) / (target as int),
            forall|k: int| 0 <= k < i ==> r@[k] < source,
        decreases target - i,
    {
        proof {
            assert(i * source <= target * source) by (nonlinear_arith)
                requires
                    i <= target,
                    source >= 0,
            ;
            assert((i * source) / (target as int) < source) by (nonlinear_arith)
                requires
                    i < target,
                    source >= 1,
                    target > 0,
            ;
        }
        r.push((i * source) / target);
        i = i + 1;
    }
    if target > 0 {
        r.set(target - 1, source - 1);
    }
    r
}

impl VideoExporter {
    /// An exporter of `archive` with `colors`, frames `image_size` pixels wide, on a dark
    /// gray background.
    pub fn new(archive: SimulationArchive, colors: Vec<[u8; 4]>, image_size: u32) -> (r: Self)
        ensures
            r.archive == archive,
            r.colors@ == colors@,
            r.background@ == seq![50u8, 50u8, 50u8, 255u8],
            r.image_size == image_size,
    {
        let background: [u8; 4] = [50, 50, 50, 255];
        assert(background@ =~= seq![50u8, 50u8, 50u8, 255u8]);
        VideoExporter { archive, colors, background, image_size }
    }

    /// An exporter whose colors are the defaults of the archive's palette.
    pub fn with_default_colors(archive: SimulationArchive, image_size: u32) -> (r: Self)
        requires
            grays_fit(archive.palette@),
        ensures
            r.archive == archive,
            r.colors@.len() == archive.palette@.len(),
            forall|i: int| 0 <= i < archive.palette@.len() ==> (#[trigger] r.colors@[i])@ == default_color(archive.palette@[i], i),
            r.background@ == seq![50u8, 50u8, 50u8, 255u8],
            r.image_size == image_size,
    {
        let colors = default_colors_for_palette(archive.palette.as_str());
        VideoExporter::new(archive, colors, image_size)
    }

    /// Set the background color.
    pub fn set_background(&mut self, color: [u8; 4])
        ensures
            final(self).background == color,
            final(self).archive == old(self).archive,
            final(self).colors == old(self).colors,
            final(self).image_size == old(self).image_size,
    {
        self.background = color;
    }

    /// The source frame of each of `target_frames` video frames, or why there is no video:
    /// an archive without frames, or one of a 3D grid.
    pub fn frame_plan(&self, target_frames: usize) -> (r: Result<Vec<usize>, ExportRefusal>)
        requires
            target_frames * self.archive.frames@.len() <= usize::MAX,
        ensures
            self.archive.frames@.len() == 0 ==> r == Err::<Vec<usize>, ExportRefusal>(ExportRefusal::NoFrames),
            self.archive.frames@.len() > 0 && !spec_is_2d(self.archive.grid_type) ==> r == Err::<Vec<usize>, ExportRefusal>(
                ExportRefusal::UnsupportedGridType(self.archive.grid_type),
            ),
            r matches Ok(v) ==> {
                &&& self.archive.frames@.len() > 0 && spec_is_2d(self.archive.grid_type)
                &&& v@.len() == target_frames
                &&& forall|i: int|
                    0 <= i < target_frames ==> v@[i] == sampled_frame(i, self.archive.frames@.len() as int, target_frames as int)
            },
    {
        let n = self.archive.frame_count();
        if n == 0 {
            return Err(ExportRefusal::NoFrames);
        }
        if !self.archive.grid_type.is_2d() {
            return Err(ExportRefusal::UnsupportedGridType(self.archive.grid_type));
        }
        Ok(sample_frame_indices(n, target_frames))
    }
}

} // verus!
