//! What a `BGM` file holds.

use std::rc::Rc;

use vstd::prelude::*;

use crate::command;
use crate::command::{CommandSeq, CommandView};

verus! {

/// Something shared, with the position in a file that it was decoded from, if it was.
#[derive(Debug, PartialEq, Eq)]
pub struct TaggedRc<T> {
    pub decoded_pos: Option<u64>,
    pub rc: Rc<T>,
}

/// Trusted: `Rc::clone` makes another pointer to the same value.
#[verifier::external_body]
fn share<T>(rc: &Rc<T>) -> (r: Rc<T>)
    ensures
        r == *rc,
{
    Rc::clone(rc)
}

impl<T> Clone for TaggedRc<T> {
    /// A new reference to what `self` refers to.
    fn clone(&self) -> (r: TaggedRc<T>)
        ensures
            r == *self,
    {
        TaggedRc { decoded_pos: self.decoded_pos, rc: share(&self.rc) }
    }
}

/// A drum.
#[derive(Debug, Clone, Copy, PartialEq, Eq, Structural)]
pub struct Drum {
    pub bank: u8,
    pub patch: u8,
    pub coarse_tune: u8,
    pub fine_tune: u8,
    pub volume: u8,
    pub pan: u8,
    pub reverb: u8,
    pub unk_07: u8,
    pub unk_08: u8,
    pub unk_09: u8,
    pub unk_0a: u8,
    pub unk_0b: u8,
}

/// An instrument.
#[derive(Debug, Clone, Copy, PartialEq, Eq, Structural)]
pub struct Voice {
    pub bank: u8,
    pub patch: u8,
    pub volume: u8,
    pub pan: u8,
    pub reverb: u8,
    pub coarse_tune: u8,
    pub fine_tune: u8,
    pub unk_07: u8,
}

/// A track: the commands that one instrument plays.
#[derive(Debug, PartialEq, Eq)]
pub struct Track {
    pub flags: u16,
    pub commands: CommandSeq,
}

/// What a [`Track`] holds.
pub struct TrackView {
    pub flags: u16,
    pub commands: Seq<CommandView>,
}

impl View for Track {
    type V = TrackView;

    open spec fn view(&self) -> TrackView {
        TrackView { flags: self.flags, commands: self.commands@ }
    }
}

/// The sixteen tracks that play together.
pub type Tracks = TaggedRc<[Track; 16]>;

/// What [`Tracks`] hold, in order.
pub open spec fn tracks_view(tracks: Tracks) -> Seq<TrackView> {
    tracks.rc@.map_values(|track: Track| track@)
}

/// Whether the subroutines of each of the tracks begin and end at markers of that track.
pub open spec fn tracks_hold_markers(tracks: Tracks) -> bool {
    forall|i: int|
        0 <= i < 16 ==> command::holds_markers((#[trigger] tracks.rc@[i]).commands.commands@)
}

/// A part of a segment.
#[derive(Debug, PartialEq, Eq)]
pub enum Subsegment {
    /// Plays tracks. Subsegments that play the same tracks share them.
    Tracks { flags: u8, tracks: Tracks },
    /// Something else, as it was encoded.
    Unknown { flags: u8, data: [u8; 3] },
}

/// What a [`Subsegment`] holds.
pub enum SubsegmentView {
    Tracks { flags: u8, decoded_pos: Option<u64>, tracks: Seq<TrackView> },
    Unknown { flags: u8, data: Seq<u8> },
}

impl View for Subsegment {
    type V = SubsegmentView;

    open spec fn view(&self) -> SubsegmentView {
        match *self {
            Subsegment::Tracks { flags, tracks } => SubsegmentView::Tracks {
                flags,
                decoded_pos: tracks.decoded_pos,
                tracks: tracks_view(tracks),
            },
            Subsegment::Unknown { flags, data } => SubsegmentView::Unknown { flags, data: data@ },
        }
    }
}

/// A segment of a song.
pub type Segment = Vec<Subsegment>;

/// What a slot for a segment holds.
pub open spec fn slot_view(slot: Option<Segment>) -> Option<Seq<SubsegmentView>> {
    match slot {
        Some(segment) => Some(segment@.map_values(|subsegment: Subsegment| subsegment@)),
        None => None,
    }
}

/// The tracks that subsegment `i` of the segment in slot `slot` plays, if it plays any.
pub open spec fn tracks_of(slots: Seq<Option<Segment>>, slot: int, i: int) -> Option<Tracks> {
    if 0 <= slot < slots.len() && slots[slot] is Some && 0 <= i < slots[slot]->0@.len() {
        match slots[slot]->0@[i] {
            Subsegment::Tracks { tracks, .. } => Some(tracks),
            Subsegment::Unknown { .. } => None,
        }
    } else {
        None
    }
}

/// Whether subsegments play one and the same value exactly where their tracks were decoded from the
/// same position, in whichever segments they are.
pub open spec fn shares_tracks(slots: Seq<Option<Segment>>) -> bool {
    forall|slot_a: int, a: int, slot_b: int, b: int|
        match (#[trigger] tracks_of(slots, slot_a, a), #[trigger] tracks_of(slots, slot_b, b)) {
            (Some(x), Some(y)) => x.decoded_pos == y.decoded_pos <==> x == y,
            _ => true,
        }
}

/// Whether the subroutines of all tracks begin and end at markers of their track.
pub open spec fn holds_markers(slots: Seq<Option<Segment>>) -> bool {
    forall|slot: int, i: int|
        (#[trigger] tracks_of(slots, slot, i)) matches Some(tracks) ==> tracks_hold_markers(tracks)
}

/// A song.
#[derive(Debug, PartialEq, Eq)]
pub struct Bgm {
    /// The name of the song: four ASCII characters.
    pub index: String,
    pub segments: [Option<Segment>; 4],
    pub drums: Vec<Drum>,
    pub voices: Vec<Voice>,
}

/// What a [`Bgm`] holds.
pub struct BgmView {
    pub index: Seq<char>,
    pub segments: Seq<Option<Seq<SubsegmentView>>>,
    pub drums: Seq<Drum>,
    pub voices: Seq<Voice>,
}

impl View for Bgm {
    type V = BgmView;

    open spec fn view(&self) -> BgmView {
        BgmView {
            index: self.index@,
            segments: self.segments@.map_values(|slot: Option<Segment>| slot_view(slot)),
            drums: self.drums@,
            voices: self.voices@,
        }
    }
}

} // verus!
