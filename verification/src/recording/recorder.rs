//! Capturing the states of a grid, frame by frame, into an archive.
use vstd::prelude::*;
use crate::recording::archive::{frames_view, SimulationArchive};
use crate::recording::grid_type::GridType;
use crate::recording::traits::RecordableGrid;

verus! {

/// Records the states of a grid as frames.
pub struct SimulationRecorder {
    /// Geometry of the recorded grid.
    pub grid_type: GridType,
    /// Palette of the recorded grid.
    pub palette: String,
    /// The frames recorded so far, in order.
    pub frames: Vec<Vec<u8>>,
    /// Bytes of one frame.
    pub bytes_per_frame: usize,
}

impl SimulationRecorder {
    /// A recorder for `grid`, with no frames yet.
    pub fn new<G: RecordableGrid>(grid: &G) -> (r: Self)
        ensures
            r.grid_type == grid.spec_grid_type(),
            r.palette@ == grid.spec_palette(),
            r.frames@.len() == 0,
    {
        let grid_type = grid.grid_type();
        let palette = grid.palette();
        let bytes_per_frame = grid.bytes_per_frame();
        SimulationRecorder { grid_type, palette, frames: Vec::new(), bytes_per_frame }
    }

    /// A recorder for `grid` with room for `frame_capacity` frames.
    pub fn with_capacity<G: RecordableGrid>(grid: &G, frame_capacity: usize) -> (r: Self)
        ensures
            r.grid_type == grid.spec_grid_type(),
            r.palette@ == grid.spec_palette(),
            r.frames@.len() == 0,
    {
        let grid_type = grid.grid_type();
        let palette = grid.palette();
        let bytes_per_frame = grid.bytes_per_frame();
        SimulationRecorder { grid_type, palette, frames: Vec::with_capacity(frame_capacity), bytes_per_frame }
    }

    /// Record the current state of `grid` as the next frame.
    pub fn record_frame<G: RecordableGrid>(&mut self, grid: &G)
        ensures
            frames_view(final(self).frames@) == frames_view(old(self).frames@).push(grid.spec_state()),
            final(self).grid_type == old(self).grid_type,
            final(self).palette@ == old(self).palette@,
            final(self).bytes_per_frame == old(self).bytes_per_frame,
    {
        let state = grid.state_to_bytes();
        let ghost before = self.frames@;
        self.frames.push(state);
        proof {
            assert(frames_view(self.frames@) =~= frames_view(before).push(grid.spec_state()));
        }
    }

    /// Number of frames recorded.
    pub fn frame_count(&self) -> (r: usize)
        ensures
            r == self.frames@.len(),
    {
        self.frames.len()
    }

    /// Bytes used by the frames: frame count times frame size.
    pub fn total_bytes(&self) -> (r: usize)
        requires
            self.frames@.len() * self.bytes_per_frame <= usize::MAX,
        ensures
            r == self.frames@.len() * self.bytes_per_frame,
    {
        self.frames.len() * self.bytes_per_frame
    }

    /// Geometry of the recorded grid.
    pub fn grid_type(&self) -> (r: GridType)
        ensures
            r == self.grid_type,
    {
        self.grid_type
    }

    /// Palette of the recorded grid.
    pub fn palette(&self) -> (r: &str)
        ensures
            r@ == self.palette@,
    {
        self.palette.as_str()
    }

    /// The archive of the recorded frames.
    pub fn into_archive(self) -> (a: SimulationArchive)
        ensures
            a.grid_type == self.grid_type,
            a.palette@ == self.palette@,
            a.frames@ == self.frames@,
    {
        SimulationArchive::new(self.grid_type, self.palette, self.frames)
    }

    /// Forget the recorded frames, keeping the grid's description.
    pub fn clear(&mut self)
        ensures
            final(self).frames@.len() == 0,
            final(self).grid_type == old(self).grid_type,
            final(self).palette@ == old(self).palette@,
            final(self).bytes_per_frame == old(self).bytes_per_frame,
    {
        self.frames.clear();
    }
}

/// Frames recorded one after another come out in the order they were recorded: after
/// recording state `a` and then state `b`, the frames are the earlier ones followed by `a`
/// and `b`.
pub proof fn lemma_frames_in_order(f0: Seq<Vec<u8>>, f1: Seq<Vec<u8>>, f2: Seq<Vec<u8>>, a: Seq<u8>, b: Seq<u8>)
    requires
        frames_view(f1) == frames_view(f0).push(a),
        frames_view(f2) == frames_view(f1).push(b),
    ensures
        f2.len() == f0.len() + 2,
        f2[f0.len() as int]@ == a,
        f2[f0.len() + 1int]@ == b,
        forall|i: int| 0 <= i < f0.len() ==> (#[trigger] f2[i])@ == f0[i]@,
{
    assert(frames_view(f1).len() == f1.len());
    assert(frames_view(f2).len() == f2.len());
    assert(frames_view(f2)[f0.len() as int] == a);
    assert(frames_view(f2)[f0.len() + 1int] == b);
    assert forall|i: int| 0 <= i < f0.len() implies (#[trigger] f2[i])@ == f0[i]@ by {
        assert(frames_view(f2)[i] == frames_view(f1)[i]);
        assert(frames_view(f1)[i] == frames_view(f0)[i]);
    }
}

/// A whole recording comes out in order: when each recorded frame list is the one before
/// with the next state appended, the last list is the first followed by all the states.
pub proof fn lemma_recording_in_order(fs: Seq<Seq<Vec<u8>>>, states: Seq<Seq<u8>>)
    requires
        fs.len() == states.len() + 1,
        forall|k: int| 0 <= k < states.len() ==> frames_view(#[trigger] fs[k + 1]) == frames_view(fs[k]).push(states[k]),
    ensures
        frames_view(fs.last()) == frames_view(fs[0]) + states,
    decreases states.len(),
{
    if states.len() == 0 {
        assert(frames_view(fs[0]) + states =~= frames_view(fs[0]));
    } else {
        let n = states.len() - 1;
        lemma_recording_in_order(fs.drop_last(), states.drop_last());
        assert(fs.drop_last().last() == fs[n]);
        assert(frames_view(fs[n + 1]) == frames_view(fs[n]).push(states[n]));
        assert(frames_view(fs[0]) + states =~= (frames_view(fs[0]) + states.drop_last()).push(states[n]));
    }
}

/// Recording states one after another into a new recorder and then taking its archive
/// gives an archive whose frames are exactly those states, in order: when `fs[0]` is the
/// empty frame list of a new recorder, each later list is the one before with the next
/// state appended, and the archive holds the last list, frame `j` is state `j`.
pub proof fn lemma_archive_holds_recording(fs: Seq<Seq<Vec<u8>>>, states: Seq<Seq<u8>>, archived: Seq<Vec<u8>>)
    requires
        fs.len() == states.len() + 1,
        fs[0].len() == 0,
        forall|k: int| 0 <= k < states.len() ==> frames_view(#[trigger] fs[k + 1]) == frames_view(fs[k]).push(states[k]),
        archived == fs.last(),
    ensures
        archived.len() == states.len(),
        forall|j: int| 0 <= j < states.len() ==> (#[trigger] archived[j])@ == states[j],
{
    lemma_recording_in_order(fs, states);
    assert(frames_view(fs[0]) =~= Seq::<Seq<u8>>::empty());
    assert(frames_view(archived) =~= states);
    assert forall|j: int| 0 <= j < states.len() implies (#[trigger] archived[j])@ == states[j] by {
        assert(frames_view(archived)[j] == archived[j]@);
    }
}

} // verus!
