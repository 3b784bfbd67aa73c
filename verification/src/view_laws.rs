//! What the values that are handed out hold, in terms of the values themselves.

use vstd::prelude::*;

use crate::basic_laws;
use crate::bgm;
use crate::bgm::{Bgm, BgmView, Segment, Subsegment, SubsegmentView};
use crate::command;
use crate::command::{Command, CommandSeq, CommandView, MarkerRef, PlacedMarker};
use crate::de;
use crate::de::Decoded;
use crate::offset_map::OffsetCommandMap;

verus! {

// Views

/// The view of a command holds all its fields as they are.
pub proof fn law_command_views_keep_fields(c: Command)
    ensures
        match (c, c@) {
            (Command::End, CommandView::End) => true,
            (Command::Delay(a), CommandView::Delay(b)) => a == b,
            (
                Command::Note { pitch, flag, velocity, length },
                CommandView::Note { pitch: p, flag: f, velocity: v, length: l },
            ) => pitch == p && flag == f && velocity == v && length == l,
            (Command::MasterTempo(a), CommandView::MasterTempo(b)) => a == b,
            (Command::MasterVolume(a), CommandView::MasterVolume(b)) => a == b,
            (Command::MasterTranspose(a), CommandView::MasterTranspose(b)) => a == b,
            (
                Command::MasterTempoFade { time, bpm },
                CommandView::MasterTempoFade { time: t, bpm: b },
            ) => time == t && bpm == b,
            (
                Command::MasterVolumeFade { time, volume },
                CommandView::MasterVolumeFade { time: t, volume: v },
            ) => time == t && volume == v,
            (Command::MasterEffect(a), CommandView::MasterEffect(b)) => a == b,
            (
                Command::TrackOverridePatch { bank, patch },
                CommandView::TrackOverridePatch { bank: b, patch: p },
            ) => bank == b && patch == p,
            (Command::SubTrackVolume(a), CommandView::SubTrackVolume(b)) => a == b,
            (Command::SubTrackPan(a), CommandView::SubTrackPan(b)) => a == b,
            (Command::SubTrackReverb(a), CommandView::SubTrackReverb(b)) => a == b,
            (Command::SegTrackVolume(a), CommandView::SegTrackVolume(b)) => a == b,
            (Command::SubTrackCoarseTune(a), CommandView::SubTrackCoarseTune(b)) => a == b,
            (Command::SubTrackFineTune(a), CommandView::SubTrackFineTune(b)) => a == b,
            (
                Command::SegTrackTune { coarse, fine },
                CommandView::SegTrackTune { coarse: c, fine: f },
            ) => coarse == c && fine == f,
            (
                Command::TrackTremolo { amount, speed, unknown },
                CommandView::TrackTremolo { amount: a, speed: s, unknown: u },
            ) => amount == a && speed == s && unknown == u,
            (Command::TrackTremoloStop, CommandView::TrackTremoloStop) => true,
            (Command::TrackVoice(a), CommandView::TrackVoice(b)) => a == b,
            (
                Command::TrackVolumeFade { time, volume },
                CommandView::TrackVolumeFade { time: t, volume: v },
            ) => time == t && volume == v,
            (Command::SubTrackReverbType(a), CommandView::SubTrackReverbType(b)) => a == b,
            (Command::Subroutine(a), CommandView::Subroutine(b)) => {
                &&& a.name@ == b.name
                &&& a.start.offset == b.start.offset
                &&& a.end.offset == b.end.offset
            },
            (Command::Unknown(a), CommandView::Unknown(b)) => command::unknown_bytes(a) == b,
            (Command::Marker(a), CommandView::Marker(b)) => a.offset == b.offset,
            _ => false,
        },
{
}

/// The view of a sequence holds its commands, in order.
pub proof fn law_sequence_views_keep_commands(seq: CommandSeq, i: int)
    ensures
        seq@.len() == seq.commands@.len(),
        0 <= i < seq@.len() ==> seq@[i] == seq.commands@[i]@,
{
}

/// The view of a song holds its name, its segments, drums and voices, in order.
pub proof fn law_song_views_keep_fields(song: Bgm, i: int)
    ensures
        song@.index == song.index@,
        song@.drums == song.drums@,
        song@.voices == song.voices@,
        song@.segments.len() == song.segments@.len(),
        0 <= i < song@.segments.len() ==> match (song.segments@[i], song@.segments[i]) {
            (Some(segment), Some(view)) => {
                &&& view.len() == segment@.len()
                &&& forall|a: int|
                    0 <= a < view.len() ==> #[trigger] view[a] == segment@[a]@
            },
            (None, None) => true,
            _ => false,
        },
{
}

/// The view of a subsegment holds its fields; of its tracks, in order, the flags and commands.
pub proof fn law_subsegment_views_keep_fields(subsegment: Subsegment, k: int)
    ensures
        match (subsegment, subsegment@) {
            (
                Subsegment::Tracks { flags, tracks },
                SubsegmentView::Tracks { flags: f, decoded_pos, tracks: view },
            ) => {
                &&& flags == f
                &&& tracks.decoded_pos == decoded_pos
                &&& view.len() == 16
                &&& 0 <= k < 16 ==> {
                    &&& view[k].flags == tracks.rc@[k].flags
                    &&& view[k].commands == tracks.rc@[k].commands@
                }
            },
            (
                Subsegment::Unknown { flags, data },
                SubsegmentView::Unknown { flags: f, data: view },
            ) => flags == f && data@ == view,
            _ => false,
        },
{
}

// Handles

/// Handles on one marker are on the same one, and so are handles that a map holds at one offset.
pub proof fn law_handles_at_one_offset_are_on_one_marker(
    map: OffsetCommandMap,
    marker: PlacedMarker,
    a: MarkerRef,
    b: MarkerRef,
)
    ensures
        a.is_on(marker) ==> a.offset == marker.offset && command::marker_of(a.weak) == marker.rc,
        map.holds(a) && map.holds(b) && a.offset == b.offset ==> command::marker_of(a.weak)
            == command::marker_of(b.weak),
        map.holds(a) && map.held(a.offset as nat) == Some(marker) ==> command::marker_of(a.weak)
            == marker.rc,
{
}

/// Where commands hold their markers, the ends of a subroutine among them are at markers among
/// them, and are handles on all that stand at their offsets.
pub proof fn law_ends_of_subroutines_are_markers(commands: Seq<Command>, i: int, j: int) -> (r: (
    int,
    int,
))
    requires
        command::holds_markers(commands),
        0 <= i < commands.len(),
        0 <= j < commands.len(),
        commands[i] is Subroutine,
    ensures
        ({
            let range = commands[i]->Subroutine_0;
            &&& 0 <= r.0 < commands.len() && 0 <= r.1 < commands.len()
            &&& commands[r.0] matches Command::Marker(m) && command::marker_of(range.start.weak)
                == m.rc
            &&& commands[r.1] matches Command::Marker(m) && command::marker_of(range.end.weak)
                == m.rc
            &&& commands[j] matches Command::Marker(m) ==> {
                &&& m.offset == range.start.offset ==> command::marker_of(range.start.weak) == m.rc
                &&& m.offset == range.end.offset ==> command::marker_of(range.end.weak) == m.rc
            }
        }),
{
    let range = commands[i]->Subroutine_0;
    assert(command::has_marker(commands, range.start) && command::has_marker(commands, range.end));
    let a = choose|a: int|
        0 <= a < commands.len() && ((#[trigger] commands[a]) matches Command::Marker(marker)
            && range.start.is_on(marker));
    let b = choose|b: int|
        0 <= b < commands.len() && ((#[trigger] commands[b]) matches Command::Marker(marker)
            && range.end.is_on(marker));
    (a, b)
}

// Sharing

/// Where segments share their tracks, two subsegments with the same position play the same value.
pub proof fn law_shared_tracks_are_one_value(
    slots: Seq<Option<Segment>>,
    i: int,
    a: int,
    j: int,
    b: int,
)
    requires
        bgm::shares_tracks(slots),
        0 <= i < slots.len(),
        0 <= j < slots.len(),
        slots[i] is Some,
        slots[j] is Some,
        0 <= a < slots[i]->0@.len(),
        0 <= b < slots[j]->0@.len(),
    ensures
        match (slots[i]->0@[a], slots[j]->0@[b]) {
            (Subsegment::Tracks { tracks: x, .. }, Subsegment::Tracks { tracks: y, .. }) => {
                x.decoded_pos == y.decoded_pos <==> x == y
            },
            _ => true,
        },
{
    assert(match (bgm::tracks_of(slots, i, a), bgm::tracks_of(slots, j, b)) {
        (Some(x), Some(y)) => x.decoded_pos == y.decoded_pos <==> x == y,
        _ => true,
    });
}

/// Where segments hold their markers, each track that is played does.
pub proof fn law_tracks_that_are_played_hold_markers(
    slots: Seq<Option<Segment>>,
    i: int,
    a: int,
    k: int,
)
    requires
        bgm::holds_markers(slots),
        0 <= i < slots.len(),
        slots[i] is Some,
        0 <= a < slots[i]->0@.len(),
        0 <= k < 16,
    ensures
        match slots[i]->0@[a] {
            Subsegment::Tracks { tracks, .. } => command::holds_markers(
                tracks.rc@[k].commands.commands@,
            ),
            Subsegment::Unknown { .. } => true,
        },
{
    assert(bgm::tracks_of(slots, i, a) matches Some(tracks) ==> bgm::tracks_hold_markers(tracks));
    if let Subsegment::Tracks { tracks, .. } = slots[i]->0@[a] {
        assert(bgm::tracks_of(slots, i, a) == Some(tracks));
        assert(command::holds_markers(tracks.rc@[k].commands.commands@));
    }
}

// Files

/// What is decoded is the song, which shares its tracks and holds its markers. Data is unused
/// exactly where more than padding to sixteen bytes follows the tracks, and begins where these end.
pub proof fn law_decoded_is_the_song(decoded: Decoded, song: BgmView, reach: nat, len: nat)
    requires
        de::is_decoded(decoded, song, reach, len),
        reach <= len <= u32::MAX,
    ensures
        decoded.bgm@ == song,
        bgm::shares_tracks(decoded.bgm.segments@),
        bgm::holds_markers(decoded.bgm.segments@),
        match decoded.unused_data {
            Some(pos) => pos == reach && exists|q: int| reach <= #[trigger] (q * 16) < len,
            None => forall|q: int| reach <= #[trigger] (q * 16) ==> len <= q * 16,
        },
{
    basic_laws::law_unused_data_is_more_than_padding(reach, len);
}

} // verus!
