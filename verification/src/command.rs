//! Commands, and the sequences of them that a track plays.

use std::rc::{Rc, Weak};

use vstd::prelude::*;

verus! {

/// A place in a sequence of commands.
#[derive(Debug, Clone, Copy, PartialEq, Eq, Structural)]
pub struct Marker;

/// A pointer that keeps a marker alive. To contracts a pointer is nothing but the marker that it is
/// on: two pointers are equal where they are on the same one.
#[verifier::external_body]
#[derive(Debug)]
pub struct MarkerRc {
    inner: Rc<Marker>,
}

/// A pointer to a marker that does not keep it alive.
#[verifier::external_body]
#[derive(Debug)]
pub struct MarkerWeak {
    inner: Weak<Marker>,
}

/// The marker that a [`MarkerWeak`] was made for, by the pointer that keeps it alive.
pub uninterp spec fn marker_of(weak: MarkerWeak) -> MarkerRc;

/// Trusted: `Rc::new` makes a pointer to a new marker. That it is none of the markers there were is
/// not stated.
#[verifier::external_body]
fn rc_new(marker: Marker) -> (r: MarkerRc) {
    MarkerRc { inner: Rc::new(marker) }
}

/// Trusted: `Rc::downgrade` makes a weak pointer to the same marker.
#[verifier::external_body]
fn rc_downgrade(rc: &MarkerRc) -> (r: MarkerWeak)
    ensures
        marker_of(r) == *rc,
{
    MarkerWeak { inner: Rc::downgrade(&rc.inner) }
}

/// Trusted: `Weak::ptr_eq` tells whether two weak pointers are to the same marker.
#[verifier::external_body]
fn weak_ptr_eq(a: &MarkerWeak, b: &MarkerWeak) -> (r: bool)
    ensures
        r == (marker_of(*a) == marker_of(*b)),
{
    a.inner.ptr_eq(&b.inner)
}

/// A marker of a sequence, and where it stands. `==` goes by where.
#[derive(Debug)]
pub struct PlacedMarker {
    /// How many bytes into the encoded sequence the marker stands.
    pub offset: usize,
    pub rc: MarkerRc,
}

/// A handle on a marker of a sequence, which does not keep it alive. `==` goes by where the marker
/// stands, and [`MarkerRef::ptr_eq`] by which marker it is.
#[derive(Debug)]
pub struct MarkerRef {
    /// How many bytes into the encoded sequence the marker stands.
    pub offset: usize,
    pub weak: MarkerWeak,
}

/// Where in the encoded sequence a marker stands.
pub struct MarkerView {
    pub offset: usize,
}

impl View for PlacedMarker {
    type V = MarkerView;

    open spec fn view(&self) -> MarkerView {
        MarkerView { offset: self.offset }
    }
}

impl View for MarkerRef {
    type V = MarkerView;

    open spec fn view(&self) -> MarkerView {
        MarkerView { offset: self.offset }
    }
}

impl PlacedMarker {
    /// A new marker at `offset`.
    pub fn new(offset: usize, marker: Marker) -> (r: PlacedMarker)
        ensures
            r.offset == offset,
    {
        PlacedMarker { offset, rc: rc_new(marker) }
    }

    /// A handle on the marker.
    pub fn downgrade(&self) -> (r: MarkerRef)
        ensures
            r.is_on(*self),
    {
        MarkerRef { offset: self.offset, weak: rc_downgrade(&self.rc) }
    }
}

impl MarkerRef {
    /// Whether this is a handle on `marker`.
    pub open spec fn is_on(self, marker: PlacedMarker) -> bool {
        &&& self.offset == marker.offset
        &&& marker_of(self.weak) == marker.rc
    }

    /// Whether two handles are on the same marker.
    pub fn ptr_eq(a: &MarkerRef, b: &MarkerRef) -> (r: bool)
        ensures
            r == (marker_of(a.weak) == marker_of(b.weak)),
    {
        weak_ptr_eq(&a.weak, &b.weak)
    }
}

impl PartialEq for PlacedMarker {
    fn eq(&self, other: &PlacedMarker) -> (r: bool) {
        self.offset == other.offset
    }
}

impl vstd::std_specs::cmp::PartialEqSpecImpl for PlacedMarker {
    open spec fn obeys_eq_spec() -> bool {
        true
    }

    open spec fn eq_spec(&self, other: &PlacedMarker) -> bool {
        self.offset == other.offset
    }
}

impl Eq for PlacedMarker {

}

impl PartialEq for MarkerRef {
    fn eq(&self, other: &MarkerRef) -> (r: bool) {
        self.offset == other.offset
    }
}

impl vstd::std_specs::cmp::PartialEqSpecImpl for MarkerRef {
    open spec fn obeys_eq_spec() -> bool {
        true
    }

    open spec fn eq_spec(&self, other: &MarkerRef) -> bool {
        self.offset == other.offset
    }
}

impl Eq for MarkerRef {

}

/// A named run of commands, from one marker to another.
#[derive(Debug, PartialEq, Eq)]
pub struct CommandRange {
    pub name: String,
    pub start: MarkerRef,
    pub end: MarkerRef,
}

/// What a [`CommandRange`] holds.
pub struct CommandRangeView {
    pub name: Seq<char>,
    pub start: MarkerView,
    pub end: MarkerView,
}

impl View for CommandRange {
    type V = CommandRangeView;

    open spec fn view(&self) -> CommandRangeView {
        CommandRangeView { name: self.name@, start: self.start@, end: self.end@ }
    }
}

/// The bytes of a command whose meaning is not known. Up to four of them are held inline.
#[verifier::external_body]
#[derive(Debug, PartialEq, Eq)]
pub struct UnknownBytes {
    inner: smallvec::SmallVec<[u8; 4]>,
}

/// The bytes that the `SmallVec` of an [`UnknownBytes`] holds, in order.
pub uninterp spec fn unknown_bytes(v: UnknownBytes) -> Seq<u8>;

impl View for UnknownBytes {
    type V = Seq<u8>;

    open spec fn view(&self) -> Seq<u8> {
        unknown_bytes(*self)
    }
}

/// Trusted: `smallvec::SmallVec::from_slice` copies the bytes of the slice, in order, into a new
/// vector.
#[verifier::external_body]
fn small_vec_from_slice(bytes: &[u8]) -> (r: UnknownBytes)
    ensures
        unknown_bytes(r) == bytes@,
{
    UnknownBytes { inner: smallvec::SmallVec::from_slice(bytes) }
}

/// Trusted: `smallvec::SmallVec::as_slice` is a slice of all that the vector holds, in order.
#[verifier::external_body]
fn small_vec_as_slice(v: &UnknownBytes) -> (r: &[u8])
    ensures
        r@ == unknown_bytes(*v),
{
    v.inner.as_slice()
}

impl UnknownBytes {
    /// Holds a copy of `bytes`.
    pub fn from_slice(bytes: &[u8]) -> (r: UnknownBytes)
        ensures
            r@ == bytes@,
    {
        small_vec_from_slice(bytes)
    }

    /// The bytes.
    pub fn as_slice(&self) -> (r: &[u8])
        ensures
            r@ == self@,
    {
        small_vec_as_slice(self)
    }
}

/// A command of a track.
#[derive(Debug, PartialEq, Eq)]
pub enum Command {
    /// Ends the sequence, or a subroutine that follows it.
    End,
    /// Waits for a number of ticks.
    Delay(u8),
    Note { pitch: u8, flag: bool, velocity: u8, length: u16 },
    MasterTempo(u16),
    MasterVolume(u8),
    MasterTranspose(i8),
    MasterTempoFade { time: u16, bpm: u16 },
    MasterVolumeFade { time: u16, volume: u8 },
    MasterEffect(u8),
    TrackOverridePatch { bank: u8, patch: u8 },
    SubTrackVolume(u8),
    SubTrackPan(u8),
    SubTrackReverb(u8),
    SegTrackVolume(u8),
    SubTrackCoarseTune(u8),
    SubTrackFineTune(u8),
    SegTrackTune { coarse: u8, fine: u8 },
    TrackTremolo { amount: u8, speed: u8, unknown: u8 },
    TrackTremoloStop,
    TrackVoice(u8),
    TrackVolumeFade { time: u16, volume: u8 },
    SubTrackReverbType(u8),
    /// Plays the commands between two markers.
    Subroutine(CommandRange),
    /// A command whose meaning is not known, as it was encoded.
    Unknown(UnknownBytes),
    /// A place that a subroutine begins or ends at. Takes up no space when encoded.
    Marker(PlacedMarker),
}

/// What a [`Command`] holds.
pub enum CommandView {
    End,
    Delay(u8),
    Note { pitch: u8, flag: bool, velocity: u8, length: u16 },
    MasterTempo(u16),
    MasterVolume(u8),
    MasterTranspose(i8),
    MasterTempoFade { time: u16, bpm: u16 },
    MasterVolumeFade { time: u16, volume: u8 },
    MasterEffect(u8),
    TrackOverridePatch { bank: u8, patch: u8 },
    SubTrackVolume(u8),
    SubTrackPan(u8),
    SubTrackReverb(u8),
    SegTrackVolume(u8),
    SubTrackCoarseTune(u8),
    SubTrackFineTune(u8),
    SegTrackTune { coarse: u8, fine: u8 },
    TrackTremolo { amount: u8, speed: u8, unknown: u8 },
    TrackTremoloStop,
    TrackVoice(u8),
    TrackVolumeFade { time: u16, volume: u8 },
    SubTrackReverbType(u8),
    Subroutine(CommandRangeView),
    Unknown(Seq<u8>),
    Marker(MarkerView),
}

impl View for Command {
    type V = CommandView;

    open spec fn view(&self) -> CommandView {
        match *self {
            Command::End => CommandView::End,
            Command::Delay(ticks) => CommandView::Delay(ticks),
            Command::Note { pitch, flag, velocity, length } => CommandView::Note {
                pitch,
                flag,
                velocity,
                length,
            },
            Command::MasterTempo(bpm) => CommandView::MasterTempo(bpm),
            Command::MasterVolume(volume) => CommandView::MasterVolume(volume),
            Command::MasterTranspose(amount) => CommandView::MasterTranspose(amount),
            Command::MasterTempoFade { time, bpm } => CommandView::MasterTempoFade { time, bpm },
            Command::MasterVolumeFade { time, volume } => CommandView::MasterVolumeFade {
                time,
                volume,
            },
            Command::MasterEffect(effect) => CommandView::MasterEffect(effect),
            Command::TrackOverridePatch { bank, patch } => CommandView::TrackOverridePatch {
                bank,
                patch,
            },
            Command::SubTrackVolume(volume) => CommandView::SubTrackVolume(volume),
            Command::SubTrackPan(pan) => CommandView::SubTrackPan(pan),
            Command::SubTrackReverb(amount) => CommandView::SubTrackReverb(amount),
            Command::SegTrackVolume(volume) => CommandView::SegTrackVolume(volume),
            Command::SubTrackCoarseTune(tune) => CommandView::SubTrackCoarseTune(tune),
            Command::SubTrackFineTune(tune) => CommandView::SubTrackFineTune(tune),
            Command::SegTrackTune { coarse, fine } => CommandView::SegTrackTune { coarse, fine },
            Command::TrackTremolo { amount, speed, unknown } => CommandView::TrackTremolo {
                amount,
                speed,
                unknown,
            },
            Command::TrackTremoloStop => CommandView::TrackTremoloStop,
            Command::TrackVoice(voice) => CommandView::TrackVoice(voice),
            Command::TrackVolumeFade { time, volume } => CommandView::TrackVolumeFade {
                time,
                volume,
            },
            Command::SubTrackReverbType(kind) => CommandView::SubTrackReverbType(kind),
            Command::Subroutine(range) => CommandView::Subroutine(range@),
            Command::Unknown(bytes) => CommandView::Unknown(bytes@),
            Command::Marker(marker) => CommandView::Marker(marker@),
        }
    }
}

/// The ticks that a command waits for.
pub open spec fn delay_of(command: CommandView) -> nat {
    match command {
        CommandView::Delay(ticks) => ticks as nat,
        _ => 0,
    }
}

/// The ticks that a run of commands takes.
pub open spec fn duration(commands: Seq<CommandView>) -> nat
    decreases commands.len(),
{
    if commands.len() == 0 {
        0
    } else {
        duration(commands.drop_last()) + delay_of(commands.last())
    }
}

/// The commands that come up exactly `time` ticks into `commands`, in order. A delay is among
/// those of the time at which it begins.
pub open spec fn commands_at_time(commands: Seq<CommandView>, time: nat) -> Seq<CommandView>
    decreases commands.len(),
{
    if commands.len() == 0 {
        Seq::empty()
    } else {
        let earlier = commands_at_time(commands.drop_last(), time);
        if duration(commands.drop_last()) == time {
            earlier.push(commands.last())
        } else {
            earlier
        }
    }
}

/// A sequence of commands.
#[derive(Debug, PartialEq, Eq)]
pub struct CommandSeq {
    pub commands: Vec<Command>,
}

impl View for CommandSeq {
    type V = Seq<CommandView>;

    open spec fn view(&self) -> Seq<CommandView> {
        self.commands@.map_values(|command: Command| command@)
    }
}

/// Whether one of `commands` is the marker that `handle` is on, and every marker that stands where
/// the handle says is that one.
pub open spec fn has_marker(commands: Seq<Command>, handle: MarkerRef) -> bool {
    &&& exists|i: int|
        0 <= i < commands.len() && ((#[trigger] commands[i]) matches Command::Marker(marker)
            && handle.is_on(marker))
    &&& forall|i: int|
        0 <= i < commands.len() ==> ((#[trigger] commands[i]) matches Command::Marker(marker)
            ==> marker.offset == handle.offset ==> handle.is_on(marker))
}

/// Whether the subroutines among `commands` begin and end at markers that are among them.
pub open spec fn holds_markers(commands: Seq<Command>) -> bool {
    forall|i: int|
        0 <= i < commands.len() ==> ((#[trigger] commands[i]) matches Command::Subroutine(range)
            ==> has_marker(commands, range.start) && has_marker(commands, range.end))
}

impl CommandSeq {
    /// An empty sequence with room for `capacity` commands.
    pub fn with_capacity(capacity: usize) -> (r: CommandSeq)
        ensures
            r@ == Seq::<CommandView>::empty(),
    {
        let r = CommandSeq { commands: Vec::with_capacity(capacity) };
        assert(r@ =~= Seq::<CommandView>::empty());
        r
    }

    /// The number of commands.
    pub fn len(&self) -> (r: usize)
        ensures
            r == self@.len(),
    {
        self.commands.len()
    }

    /// The commands that come up `time` ticks into the sequence, in order.
    pub fn at_time(&self, time: usize) -> (r: Vec<&Command>)
        ensures
            r@.map_values(|command: &Command| command@) == commands_at_time(self@, time as nat),
    {
        let mut found: Vec<&Command> = Vec::new();
        let mut now: u128 = 0;
        let mut i: usize = 0;
        assert(self@.take(0) =~= Seq::<CommandView>::empty());
        assert(found@.map_values(|command: &Command| command@) =~= Seq::<CommandView>::empty());
        while i < self.commands.len()
            invariant
                i <= self.commands@.len(),
                now == duration(self@.take(i as int)),
                now <= i * 0xff,
                found@.map_values(|command: &Command| command@) == commands_at_time(
                    self@.take(i as int),
                    time as nat,
                ),
            decreases self.commands.len() - i,
        {
            let command = &self.commands[i];
            let ghost before = found@;
            assert(self@.take(i + 1).drop_last() =~= self@.take(i as int));
            assert(self@.take(i + 1).last() == command@);
            if now == time as u128 {
                found.push(command);
                assert(found@.map_values(|command: &Command| command@) =~= before.map_values(
                    |command: &Command| command@,
                ).push(command@));
            }
            if let Command::Delay(ticks) = command {
                now = now + *ticks as u128;
            }
            i += 1;
        }
        assert(self@.take(self@.len() as int) =~= self@);
        found
    }
}

} // verus!
