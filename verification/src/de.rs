//! Decoding a `BGM` file.

use std::collections::HashMap;
use std::rc::Rc;

use vstd::prelude::*;

use crate::bgm;
use crate::bgm::{
    Bgm, BgmView, Drum, Segment, Subsegment, SubsegmentView, TaggedRc, Track, TrackView, Tracks,
    Voice,
};
use crate::collect;
use crate::command;
use crate::command::CommandSeq;
use crate::cursor;
use crate::cursor::Cursor;
use crate::error;
use crate::error::{Error, Failure};
use crate::laws;
use crate::name;
use crate::sequence;

verus! {

/// The signature at the start of a file, `BGM ` in ASCII.
pub const MAGIC: u32 = 0x4247_4D20;

/// The least multiple of `alignment` that is not below `value`.
pub open spec fn aligned(value: nat, alignment: nat) -> nat {
    if value % alignment == 0 {
        value
    } else {
        (value + (alignment - value % alignment)) as nat
    }
}

/// Rounds `value` up to a multiple of `alignment`.
pub fn align(value: u32, alignment: u32) -> (r: u64)
    requires
        alignment > 0,
    ensures
        r == aligned(value as nat, alignment as nat),
{
    let remainder = value % alignment;
    if remainder == 0 {
        value as u64
    } else {
        value as u64 + (alignment - remainder) as u64
    }
}

/// The low 32 bits of `n`.
pub open spec fn low_bits(n: nat) -> u32 {
    (n % 0x1_0000_0000) as u32
}

fn truncate(n: u64) -> (r: u32)
    ensures
        r == low_bits(n as nat),
{
    assert(#[verifier::truncate] (n as u32) == n % 0x1_0000_0000) by (bit_vector);
    #[verifier::truncate]
    (n as u32)
}

/// The greater of two positions.
pub open spec fn further(a: nat, b: nat) -> nat {
    if a < b {
        b
    } else {
        a
    }
}

// Drums and voices

/// The drum at `pos`.
pub open spec fn drum_at(s: Seq<u8>, pos: int) -> Drum {
    Drum {
        bank: s[pos],
        patch: s[pos + 1],
        coarse_tune: s[pos + 2],
        fine_tune: s[pos + 3],
        volume: s[pos + 4],
        pan: s[pos + 5],
        reverb: s[pos + 6],
        unk_07: s[pos + 7],
        unk_08: s[pos + 8],
        unk_09: s[pos + 9],
        unk_0a: s[pos + 10],
        unk_0b: s[pos + 11],
    }
}

/// The voice at `pos`.
pub open spec fn voice_at(s: Seq<u8>, pos: int) -> Voice {
    Voice {
        bank: s[pos],
        patch: s[pos + 1],
        volume: s[pos + 2],
        pan: s[pos + 3],
        reverb: s[pos + 4],
        coarse_tune: s[pos + 5],
        fine_tune: s[pos + 6],
        unk_07: s[pos + 7],
    }
}

impl Drum {
    /// Decodes the drum at the position of `f`, and leaves `f` after it, or at the end of the data if
    /// the drum is cut off.
    pub fn decode(f: &mut Cursor) -> (r: Result<Drum, Error>)
        ensures
            final(f).bytes() == old(f).bytes(),
            match r {
                Ok(drum) => {
                    &&& old(f).at() + 12 <= old(f).bytes().len()
                    &&& drum == drum_at(old(f).bytes(), old(f).at() as int)
                    &&& final(f).at() == old(f).at() + 12
                },
                Err(e) => {
                    &&& old(f).at() + 12 > old(f).bytes().len()
                    &&& e == error::eof()
                    &&& final(f).at() == cursor::stopped_at(old(f).bytes(), old(f).at() as int)
                },
            },
    {
        Ok(
            Drum {
                bank: f.read_u8()?,
                patch: f.read_u8()?,
                coarse_tune: f.read_u8()?,
                fine_tune: f.read_u8()?,
                volume: f.read_u8()?,
                pan: f.read_u8()?,
                reverb: f.read_u8()?,
                unk_07: f.read_u8()?,
                unk_08: f.read_u8()?,
                unk_09: f.read_u8()?,
                unk_0a: f.read_u8()?,
                unk_0b: f.read_u8()?,
            },
        )
    }
}

impl Voice {
    /// Decodes the voice at the position of `f`, and leaves `f` after it, or at the end of the data if
    /// the voice is cut off.
    pub fn decode(f: &mut Cursor) -> (r: Result<Voice, Error>)
        ensures
            final(f).bytes() == old(f).bytes(),
            match r {
                Ok(voice) => {
                    &&& old(f).at() + 8 <= old(f).bytes().len()
                    &&& voice == voice_at(old(f).bytes(), old(f).at() as int)
                    &&& final(f).at() == old(f).at() + 8
                },
                Err(e) => {
                    &&& old(f).at() + 8 > old(f).bytes().len()
                    &&& e == error::eof()
                    &&& final(f).at() == cursor::stopped_at(old(f).bytes(), old(f).at() as int)
                },
            },
    {
        Ok(
            Voice {
                bank: f.read_u8()?,
                patch: f.read_u8()?,
                volume: f.read_u8()?,
                pan: f.read_u8()?,
                reverb: f.read_u8()?,
                coarse_tune: f.read_u8()?,
                fine_tune: f.read_u8()?,
                unk_07: f.read_u8()?,
            },
        )
    }
}

/// The `count` drums at `offset`; none if there is no offset.
pub open spec fn drums_at(s: Seq<u8>, offset: int, count: nat) -> Result<Seq<Drum>, Error> {
    if offset == 0 {
        Ok(Seq::empty())
    } else if count > 0 && offset + 12 * count > s.len() {
        Err(error::eof())
    } else {
        Ok(Seq::new(count, |i: int| drum_at(s, offset + 12 * i)))
    }
}

/// The `count` voices at `offset`; none if there is no offset.
pub open spec fn voices_at(s: Seq<u8>, offset: int, count: nat) -> Result<Seq<Voice>, Error> {
    if offset == 0 {
        Ok(Seq::empty())
    } else if count > 0 && offset + 8 * count > s.len() {
        Err(error::eof())
    } else {
        Ok(Seq::new(count, |i: int| voice_at(s, offset + 8 * i)))
    }
}

fn decode_drums(f: &mut Cursor, offset: u64, count: u16) -> (r: Result<Vec<Drum>, Error>)
    requires
        offset <= 0x3_FFFC,
    ensures
        final(f).bytes() == old(f).bytes(),
        match (r, drums_at(old(f).bytes(), offset as int, count as nat)) {
            (Ok(drums), Ok(expected)) => drums@ == expected,
            (Err(e), Err(expected)) => e == expected,
            _ => false,
        },
{
    let mut drums: Vec<Drum> = Vec::new();
    if offset != 0 {
        f.seek_start(offset);
        let mut i: u16 = 0;
        while i < count
            invariant
                i <= count,
                0 < offset <= 0x3_FFFC,
                f.bytes() == old(f).bytes(),
                f.at() == offset + 12 * i,
                i > 0 ==> f.at() <= f.bytes().len(),
                drums@ == Seq::new(i as nat, |j: int| drum_at(f.bytes(), offset + 12 * j)),
            decreases count - i,
        {
            let drum = Drum::decode(f)?;
            drums.push(drum);
            i += 1;
        }
    }
    Ok(drums)
}

fn decode_voices(f: &mut Cursor, offset: u64, count: u16) -> (r: Result<Vec<Voice>, Error>)
    requires
        offset <= 0x3_FFFC,
    ensures
        final(f).bytes() == old(f).bytes(),
        match (r, voices_at(old(f).bytes(), offset as int, count as nat)) {
            (Ok(voices), Ok(expected)) => voices@ == expected,
            (Err(e), Err(expected)) => e == expected,
            _ => false,
        },
{
    let mut voices: Vec<Voice> = Vec::new();
    if offset != 0 {
        f.seek_start(offset);
        let mut i: u16 = 0;
        while i < count
            invariant
                i <= count,
                0 < offset <= 0x3_FFFC,
                f.bytes() == old(f).bytes(),
                f.at() == offset + 8 * i,
                i > 0 ==> f.at() <= f.bytes().len(),
                voices@ == Seq::new(i as nat, |j: int| voice_at(f.bytes(), offset + 8 * j)),
            decreases count - i,
        {
            let voice = Voice::decode(f)?;
            voices.push(voice);
            i += 1;
        }
    }
    Ok(voices)
}

// Tracks

/// The track whose entry in the table at `tracks_start` is at `pos`, and where reading it ends.
pub open spec fn track_at(s: Seq<u8>, tracks_start: int, pos: int) -> Result<
    (TrackView, nat),
    Failure,
> {
    if pos + 4 > s.len() {
        Err(Failure::Rejected(error::eof()))
    } else {
        let commands_offset = cursor::u16_at(s, pos);
        let flags = cursor::u16_at(s, pos + 2);
        if commands_offset == 0 {
            Ok((TrackView { flags, commands: Seq::empty() }, (pos + 4) as nat))
        } else {
            match sequence::sequence_at(s, tracks_start + commands_offset) {
                Ok((commands, end)) => Ok((TrackView { flags, commands }, end as nat)),
                Err(e) => Err(e),
            }
        }
    }
}

/// The first `n` tracks of the table at `tracks_start`, and the furthest that reading one of them
/// ends.
pub open spec fn tracks_at(s: Seq<u8>, tracks_start: int, n: nat) -> Result<
    (Seq<TrackView>, nat),
    Failure,
>
    decreases n,
{
    if n == 0 {
        Ok((Seq::empty(), 0))
    } else {
        match tracks_at(s, tracks_start, (n - 1) as nat) {
            Ok((tracks, reach)) => match track_at(s, tracks_start, tracks_start + 4 * (n - 1)) {
                Ok((track, end)) => Ok((tracks.push(track), further(reach, end))),
                Err(e) => Err(e),
            },
            Err(e) => Err(e),
        }
    }
}

impl Track {
    /// Decodes the track whose entry is at the position of `f`, in the table at `segment_start`.
    pub(crate) fn try_decode(f: &mut Cursor, segment_start: u64) -> (r: Result<Track, Failure>)
        requires
            segment_start + 0xFFFF <= u64::MAX,
        ensures
            final(f).bytes() == old(f).bytes(),
            match (r, track_at(old(f).bytes(), segment_start as int, old(f).at() as int)) {
                (Ok(track), Ok((expected, end))) => {
                    &&& track@ == expected
                    &&& command::holds_markers(track.commands.commands@)
                    &&& final(f).at() == end
                },
                (Err(e), Err(expected)) => e == expected,
                _ => false,
            },
    {
        let commands_offset = error::reject(f.read_u16_be())?;
        let flags = error::reject(f.read_u16_be())?;
        let commands = if commands_offset == 0 {
            let seq = CommandSeq::with_capacity(0);
            assert(seq@.len() == seq.commands@.len());
            seq
        } else {
            f.seek_start(segment_start + commands_offset as u64);
            let seq = CommandSeq::try_decode(f)?;
            proof {
                laws::law_sequence_has_end(f.bytes(), segment_start + commands_offset);
            }
            assert(seq@.len() > 0);
            seq
        };
        Ok(Track { flags, commands })
    }
}

/// The tracks that were decoded so far, by position.
type TracksMap = HashMap<u64, Tracks>;

/// Whether `map` holds tracks of `s`, none of which reach past `furthest`.
pub open spec fn holds_tracks(map: Map<u64, Tracks>, s: Seq<u8>, furthest: nat) -> bool {
    forall|pos: u64| #[trigger]
        map.contains_key(pos) ==> map[pos].decoded_pos == Some(pos) && match tracks_at(
            s,
            pos as int,
            16,
        ) {
            Ok((tracks, reach)) => {
                &&& bgm::tracks_view(map[pos]) == tracks
                &&& bgm::tracks_hold_markers(map[pos])
                &&& reach <= furthest
            },
            Err(_) => false,
        }
}

/// A track that fails to decode fails all the tables it is in.
proof fn lemma_tracks_err(s: Seq<u8>, tracks_start: int, n: nat, m: nat)
    requires
        n <= m,
        tracks_at(s, tracks_start, n) is Err,
    ensures
        tracks_at(s, tracks_start, m) == tracks_at(s, tracks_start, n),
    decreases m,
{
    if n < m {
        lemma_tracks_err(s, tracks_start, n, (m - 1) as nat);
    }
}

/// Whether `items` are the results of decoding the first tracks of the table at `tracks_start`, up
/// to one that fails, which took the furthest position from `before` to `furthest`.
spec fn are_tracks(
    items: Seq<Result<Track, Failure>>,
    s: Seq<u8>,
    tracks_start: int,
    before: nat,
    furthest: nat,
) -> bool {
    match tracks_at(s, tracks_start, items.len()) {
        Ok((tracks, reach)) => {
            &&& tracks.len() == items.len()
            &&& forall|i: int|
                0 <= i < items.len() ==> match #[trigger] items[i] {
                    Ok(track) => {
                        &&& track@ == tracks[i]
                        &&& command::holds_markers(track.commands.commands@)
                    },
                    Err(_) => false,
                }
            &&& furthest == further(before, reach)
        },
        Err(e) => {
            &&& items.len() > 0
            &&& items.last() == Err::<Track, Failure>(e)
            &&& forall|i: int| 0 <= i < items.len() - 1 ==> (#[trigger] items[i]) is Ok
        },
    }
}

/// Where reading the table of tracks at `tracks_start` ends: with its last track.
pub open spec fn table_end(s: Seq<u8>, tracks_start: int) -> nat {
    track_at(s, tracks_start, tracks_start + 60)->Ok_0.1
}

/// Decodes the table of tracks at `tracks_start`, and leaves `f` where reading it ends. Where that
/// fails, the position of `f` is unspecified.
fn decode_tracks(f: &mut Cursor, tracks_start: u64, furthest_read_pos: &mut u64) -> (r: Result<
    Tracks,
    Failure,
>)
    requires
        tracks_start + 0xFFFF <= u64::MAX,
    ensures
        final(f).bytes() == old(f).bytes(),
        match (r, tracks_at(old(f).bytes(), tracks_start as int, 16)) {
            (Ok(tracks), Ok((expected, reach))) => {
                &&& tracks.decoded_pos == Some(tracks_start)
                &&& bgm::tracks_view(tracks) == expected
                &&& bgm::tracks_hold_markers(tracks)
                &&& *final(furthest_read_pos) == further(*old(furthest_read_pos) as nat, reach)
                &&& final(f).at() == table_end(old(f).bytes(), tracks_start as int)
            },
            (Err(e), Err(expected)) => {
                &&& e == expected
                &&& *final(furthest_read_pos) >= *old(furthest_read_pos)
            },
            _ => false,
        },
{
    let ghost s = f.bytes();
    let mut items: Vec<Result<Track, Failure>> = Vec::new();
    let mut track_no: u64 = 0;
    let mut failed = false;
    while track_no < 16 && !failed
        invariant
            track_no <= 16,
            tracks_start + 0xFFFF <= u64::MAX,
            s == old(f).bytes(),
            f.bytes() == s,
            items@.len() == track_no,
            *furthest_read_pos >= *old(furthest_read_pos),
            track_no == 16 && !failed ==> f.at() == table_end(s, tracks_start as int),
            failed == (tracks_at(s, tracks_start as int, track_no as nat) is Err),
            are_tracks(
                items@,
                s,
                tracks_start as int,
                *old(furthest_read_pos) as nat,
                *furthest_read_pos as nat,
            ),
        decreases 16 - track_no,
    {
        f.seek_start(tracks_start + track_no * 4);
        let track = Track::try_decode(f, tracks_start);
        let pos = f.pos();
        if pos > *furthest_read_pos {
            *furthest_read_pos = pos;
        }
        failed = track.is_err();
        items.push(track);
        track_no += 1;
    }
    proof {
        if failed {
            lemma_tracks_err(s, tracks_start as int, track_no as nat, 16);
            assert(items@[items@.len() - 1] is Err);
        }
    }
    let ghost given = items@;
    match collect::collect_array_pedantic(items) {
        Ok(tracks) => {
            let tagged = TaggedRc { decoded_pos: Some(tracks_start), rc: Rc::new(tracks) };
            proof {
                assert forall|i: int| 0 <= i < 16 implies (#[trigger] given[i]) is Ok by {
                    assert(given[i] == Ok::<Track, Failure>(tracks@[i]));
                }
                let expected = tracks_at(s, tracks_start as int, 16)->Ok_0.0;
                assert forall|i: int| 0 <= i < 16 implies bgm::tracks_view(tagged)[i]
                    == expected[i] by {
                    assert(given[i] == Ok::<Track, Failure>(tracks@[i]));
                }
                assert(bgm::tracks_view(tagged) =~= expected);
            }
            Ok(tagged)
        },
        Err(e) => Err(e),
    }
}

// Segments

/// Whether a subsegment with these flags plays tracks.
pub open spec fn plays_tracks(flags: u8) -> bool {
    flags / 0x10 % 8 == 1
}

/// The subsegment at `pos` of the segment at `start`, and the furthest that reading its tracks
/// ends.
pub open spec fn subsegment_at(s: Seq<u8>, start: int, pos: int) -> Result<
    (SubsegmentView, nat),
    Failure,
> {
    if pos >= s.len() {
        Err(Failure::Rejected(error::eof()))
    } else if plays_tracks(s[pos]) {
        match cursor::padding_at(s, pos + 1, 1) {
            Ok(()) => if pos + 4 > s.len() {
                Err(Failure::Rejected(error::eof()))
            } else {
                let tracks_start = start + cursor::u16_at(s, pos + 2) * 4;
                match tracks_at(s, tracks_start, 16) {
                    Ok((tracks, reach)) => Ok(
                        (
                            SubsegmentView::Tracks {
                                flags: s[pos],
                                decoded_pos: Some(tracks_start as u64),
                                tracks,
                            },
                            reach,
                        ),
                    ),
                    Err(e) => Err(e),
                }
            },
            Err(e) => Err(Failure::Rejected(e)),
        }
    } else if pos + 4 > s.len() {
        Err(Failure::Rejected(error::eof()))
    } else {
        Ok(
            (
                SubsegmentView::Unknown { flags: s[pos], data: s.subrange(pos + 1, pos + 4) },
                0,
            ),
        )
    }
}

/// Whether the data holds a whole subsegment at `pos` that plays tracks and is valid itself, so that
/// its table of tracks is read.
pub open spec fn reads_table(s: Seq<u8>, pos: int) -> bool {
    pos + 4 <= s.len() && plays_tracks(s[pos]) && s[pos + 1] == 0
}

impl Subsegment {
    /// Decodes the subsegment at the position of `f`, of the segment at `start`. Tracks that are in
    /// `tracks_map` are shared, and others are added to it. Leaves `f` where reading the tracks
    /// ends; where there are none, after the subsegment. Where decoding fails, nothing is added, and
    /// the position of `f` is unspecified.
    pub(crate) fn try_decode(
        f: &mut Cursor,
        start: u64,
        tracks_map: &mut TracksMap,
        furthest_read_pos: &mut u64,
    ) -> (r: Result<Subsegment, Failure>)
        requires
            start + 0x3_FFFC + 0xFFFF <= u64::MAX,
            holds_tracks(old(tracks_map)@, old(f).bytes(), *old(furthest_read_pos) as nat),
        ensures
            final(f).bytes() == old(f).bytes(),
            match (r, subsegment_at(old(f).bytes(), start as int, old(f).at() as int)) {
                (Ok(subsegment), Ok((expected, reach))) => {
                    &&& subsegment@ == expected
                    &&& match subsegment {
                        Subsegment::Tracks { tracks, .. } => {
                            let pos = tracks.decoded_pos->0;
                            &&& final(f).at() == table_end(old(f).bytes(), pos as int)
                            &&& if old(tracks_map)@.contains_key(pos) {
                                &&& tracks == old(tracks_map)@[pos]
                                &&& final(tracks_map)@ == old(tracks_map)@
                            } else {
                                final(tracks_map)@ == old(tracks_map)@.insert(pos, tracks)
                            }
                        },
                        Subsegment::Unknown { .. } => {
                            &&& final(f).at() == old(f).at() + 4
                            &&& final(tracks_map)@ == old(tracks_map)@
                        },
                    }
                    &&& *final(furthest_read_pos) == further(
                        *old(furthest_read_pos) as nat,
                        reach,
                    )
                    &&& holds_tracks(
                        final(tracks_map)@,
                        old(f).bytes(),
                        *final(furthest_read_pos) as nat,
                    )
                },
                (Err(e), Err(expected)) => {
                    &&& e == expected
                    &&& final(tracks_map)@ == old(tracks_map)@
                    &&& *final(furthest_read_pos) >= *old(furthest_read_pos)
                    &&& !reads_table(old(f).bytes(), old(f).at() as int)
                        ==> *final(furthest_read_pos) == *old(furthest_read_pos)
                },
                _ => false,
            },
    {
        let flags = error::reject(f.read_u8())?;
        assert((flags & 0x70 == 0x10) == (flags / 0x10 % 8 == 1)) by (bit_vector);
        if flags & 0x70 == 0x10 {
            error::reject(f.read_padding(1))?;
            let offset = error::reject(f.read_u16_be())? as u64 * 4;
            let tracks_start = start + offset;
            // Tracks that are shared are read all the same, so that `f` ends up in the same place
            let tracks = decode_tracks(f, tracks_start, furthest_read_pos)?;
            if let Some(shared) = tracks_map.get(&tracks_start) {
                // New reference
                return Ok(Subsegment::Tracks { flags, tracks: shared.clone() });
            }
            tracks_map.insert(tracks_start, tracks.clone());
            Ok(Subsegment::Tracks { flags, tracks })
        } else {
            let mut data: [u8; 3] = [0, 0, 0];
            error::reject(f.read_exact(&mut data))?;
            Ok(Subsegment::Unknown { flags, data })
        }
    }
}

/// The rest of the segment at `start`, from `pos` on, after `subsegments`. A segment ends with four
/// zero bytes.
pub open spec fn subsegments_from(
    s: Seq<u8>,
    start: int,
    subsegments: Seq<SubsegmentView>,
    reach: nat,
    pos: int,
) -> Result<(Seq<SubsegmentView>, nat), Failure>
    decreases s.len() - pos,
{
    if pos + 4 > s.len() {
        Err(Failure::Rejected(error::eof()))
    } else if cursor::u32_at(s, pos) == 0 {
        Ok((subsegments, reach))
    } else {
        match subsegment_at(s, start, pos) {
            Ok((subsegment, end)) => subsegments_from(
                s,
                start,
                subsegments.push(subsegment),
                further(reach, end),
                pos + 4,
            ),
            Err(e) => Err(e),
        }
    }
}

/// The segment at `offset`, if it is not zero, and the furthest that reading its tracks ends.
pub open spec fn slot_at(s: Seq<u8>, offset: u16) -> Result<
    (Option<Seq<SubsegmentView>>, nat),
    Failure,
> {
    if offset == 0 {
        Ok((None, 0))
    } else {
        match subsegments_from(s, offset as int, Seq::empty(), 0, offset as int) {
            Ok((subsegments, reach)) => Ok((Some(subsegments), reach)),
            Err(e) => Err(e),
        }
    }
}

/// Whether `map` holds the tracks that `subsegment` plays, if it plays any.
spec fn is_held(map: Map<u64, Tracks>, subsegment: Subsegment) -> bool {
    match subsegment {
        Subsegment::Tracks { tracks, .. } => {
            &&& map.contains_key(tracks.decoded_pos->0)
            &&& map[tracks.decoded_pos->0] == tracks
        },
        Subsegment::Unknown { .. } => true,
    }
}

/// Decodes the segment at `pos`, if it is not zero. The tracks that it plays are in `tracks_map`
/// afterwards.
fn decode_slot(
    f: &mut Cursor,
    pos: u16,
    tracks_map: &mut TracksMap,
    furthest_read_pos: &mut u64,
) -> (r: Result<Option<Segment>, Failure>)
    requires
        holds_tracks(old(tracks_map)@, old(f).bytes(), *old(furthest_read_pos) as nat),
    ensures
        final(f).bytes() == old(f).bytes(),
        old(tracks_map)@.submap_of(final(tracks_map)@),
        *final(furthest_read_pos) >= *old(furthest_read_pos),
        r matches Ok(Some(segment)) ==> forall|i: int|
            0 <= i < segment@.len() ==> is_held(final(tracks_map)@, #[trigger] segment@[i]),
        match (r, slot_at(old(f).bytes(), pos)) {
            (Ok(slot), Ok((expected, reach))) => {
                &&& bgm::slot_view(slot) == expected
                &&& *final(furthest_read_pos) == further(*old(furthest_read_pos) as nat, reach)
                &&& holds_tracks(
                    final(tracks_map)@,
                    old(f).bytes(),
                    *final(furthest_read_pos) as nat,
                )
            },
            (Err(e), Err(expected)) => e == expected,
            _ => false,
        },
{
    if pos == 0 {
        // Null (no segments)
        return Ok(None);
    }
    // Decode the segment(s) at the offset
    let start = pos as u64;
    let ghost s = f.bytes();
    let ghost mut reach: nat = 0;
    let mut segment: Segment = Vec::new();
    let mut next: u64 = start;
    assert(segment@.map_values(|subsegment: Subsegment| subsegment@) =~= Seq::<
        SubsegmentView,
    >::empty());
    loop
        invariant
            start == pos,
            pos != 0,
            next >= start,
            next == start || next <= s.len(),
            s == old(f).bytes(),
            f.bytes() == s,
            holds_tracks(tracks_map@, s, *furthest_read_pos as nat),
            old(tracks_map)@.submap_of(tracks_map@),
            forall|i: int|
                0 <= i < segment@.len() ==> is_held(tracks_map@, #[trigger] segment@[i]),
            *furthest_read_pos == further(*old(furthest_read_pos) as nat, reach),
            subsegments_from(s, start as int, Seq::empty(), 0, start as int) == subsegments_from(
                s,
                start as int,
                segment@.map_values(|subsegment: Subsegment| subsegment@),
                reach,
                next as int,
            ),
        decreases s.len() - next,
    {
        f.seek_start(next);
        // Peek for null terminator
        let word = error::reject(f.read_u32_be())?;
        if word == 0 {
            return Ok(Some(segment));
        }
        f.seek_start(next);
        let subsegment = Subsegment::try_decode(f, start, tracks_map, furthest_read_pos)?;
        proof {
            let (expected, end) = subsegment_at(s, start as int, next as int)->Ok_0;
            reach = further(reach, end);
        }
        let ghost before = segment@.map_values(|subsegment: Subsegment| subsegment@);
        segment.push(subsegment);
        assert(segment@.map_values(|subsegment: Subsegment| subsegment@) =~= before.push(
            subsegment@,
        ));
        next = next + 4;
    }
}

/// The segments at the first `n` of `offsets`, and the furthest that reading their tracks ends.
pub open spec fn slots_at(s: Seq<u8>, offsets: Seq<u16>, n: nat) -> Result<
    (Seq<Option<Seq<SubsegmentView>>>, nat),
    Failure,
>
    decreases n,
{
    if n == 0 {
        Ok((Seq::empty(), 0))
    } else {
        match slots_at(s, offsets, (n - 1) as nat) {
            Ok((slots, reach)) => match slot_at(s, offsets[n - 1]) {
                Ok((slot, end)) => Ok((slots.push(slot), further(reach, end))),
                Err(e) => Err(e),
            },
            Err(e) => Err(e),
        }
    }
}

/// A segment that fails to decode fails all of them.
proof fn lemma_slots_err(s: Seq<u8>, offsets: Seq<u16>, n: nat, m: nat)
    requires
        n <= m,
        slots_at(s, offsets, n) is Err,
    ensures
        slots_at(s, offsets, m) == slots_at(s, offsets, n),
    decreases m,
{
    if n < m {
        lemma_slots_err(s, offsets, n, (m - 1) as nat);
    }
}

/// Whether `items` are the results of decoding the segments at the first of `offsets`, up to one
/// that fails, which took the furthest position to `furthest`.
spec fn are_slots(
    items: Seq<Result<Option<Segment>, Failure>>,
    s: Seq<u8>,
    offsets: Seq<u16>,
    furthest: nat,
) -> bool {
    match slots_at(s, offsets, items.len()) {
        Ok((slots, reach)) => {
            &&& slots.len() == items.len()
            &&& forall|i: int|
                0 <= i < items.len() ==> match #[trigger] items[i] {
                    Ok(slot) => bgm::slot_view(slot) == slots[i],
                    Err(_) => false,
                }
            &&& furthest == reach
        },
        Err(e) => {
            &&& items.len() > 0
            &&& items.last() == Err::<Option<Segment>, Failure>(e)
            &&& forall|i: int| 0 <= i < items.len() - 1 ==> (#[trigger] items[i]) is Ok
        },
    }
}

/// Whether `map` holds the tracks that a segment plays.
spec fn is_slot_held(map: Map<u64, Tracks>, slot: Result<Option<Segment>, Failure>) -> bool {
    match slot {
        Ok(Some(segment)) => forall|i: int|
            0 <= i < segment@.len() ==> is_held(map, #[trigger] segment@[i]),
        _ => true,
    }
}

/// Tracks that are held are still held after others are added.
proof fn lemma_held_extends(
    map: Map<u64, Tracks>,
    larger: Map<u64, Tracks>,
    slot: Result<Option<Segment>, Failure>,
)
    requires
        map.submap_of(larger),
        is_slot_held(map, slot),
    ensures
        is_slot_held(larger, slot),
{
    if let Ok(Some(segment)) = slot {
        assert forall|i: int| 0 <= i < segment@.len() implies is_held(
            larger,
            #[trigger] segment@[i],
        ) by {
            assert(is_held(map, segment@[i]));
        }
    }
}

/// What one map holds is shared, and what holds of all tracks in it holds of all that are played.
proof fn lemma_held_is_shared(
    map: Map<u64, Tracks>,
    slots: Seq<Option<Segment>>,
    s: Seq<u8>,
    furthest: nat,
)
    requires
        holds_tracks(map, s, furthest),
        forall|i: int|
            0 <= i < slots.len() ==> is_slot_held(
                map,
                Ok::<Option<Segment>, Failure>(#[trigger] slots[i]),
            ),
    ensures
        bgm::shares_tracks(slots),
        bgm::holds_markers(slots),
{
    assert forall|slot: int, i: int|
        (#[trigger] bgm::tracks_of(slots, slot, i)) matches Some(tracks)
            ==> bgm::tracks_hold_markers(tracks) by {
        if bgm::tracks_of(slots, slot, i) is Some {
            assert(is_held(map, slots[slot]->0@[i]));
        }
    }
    assert forall|slot_a: int, a: int, slot_b: int, b: int|
        match (
            #[trigger] bgm::tracks_of(slots, slot_a, a),
            #[trigger] bgm::tracks_of(slots, slot_b, b),
        ) {
            (Some(x), Some(y)) => x.decoded_pos == y.decoded_pos <==> x == y,
            _ => true,
        } by {
        if bgm::tracks_of(slots, slot_a, a) is Some && bgm::tracks_of(slots, slot_b, b) is Some {
            assert(is_held(map, slots[slot_a]->0@[a]));
            assert(is_held(map, slots[slot_b]->0@[b]));
        }
    }
}

/// Decodes the segments at `offsets`, which share their tracks. Also returns the furthest that
/// reading these ends.
fn decode_slots(f: &mut Cursor, offsets: &[u16; 4]) -> (r: Result<
    ([Option<Segment>; 4], u64),
    Failure,
>)
    ensures
        final(f).bytes() == old(f).bytes(),
        match (r, slots_at(old(f).bytes(), offsets@, 4)) {
            (Ok((slots, furthest)), Ok((expected, reach))) => {
                &&& slots@.map_values(|slot: Option<Segment>| bgm::slot_view(slot)) == expected
                &&& bgm::shares_tracks(slots@)
                &&& bgm::holds_markers(slots@)
                &&& furthest == reach
            },
            (Err(e), Err(expected)) => e == expected,
            _ => false,
        },
{
    let ghost s = f.bytes();
    let mut tracks_map: TracksMap = HashMap::new();
    let mut furthest_read_pos: u64 = 0;
    let mut items: Vec<Result<Option<Segment>, Failure>> = Vec::new();
    let mut i: usize = 0;
    let mut failed = false;
    while i < 4 && !failed
        invariant
            i <= 4,
            s == old(f).bytes(),
            f.bytes() == s,
            items@.len() == i,
            failed == (slots_at(s, offsets@, i as nat) is Err),
            !failed ==> holds_tracks(tracks_map@, s, furthest_read_pos as nat),
            are_slots(items@, s, offsets@, furthest_read_pos as nat),
            forall|k: int|
                0 <= k < items@.len() ==> is_slot_held(tracks_map@, #[trigger] items@[k]),
        decreases 4 - i,
    {
        let ghost before = tracks_map@;
        let ghost earlier = items@;
        let slot = decode_slot(f, offsets[i], &mut tracks_map, &mut furthest_read_pos);
        failed = slot.is_err();
        items.push(slot);
        i += 1;
        proof {
            assert forall|k: int| 0 <= k < items@.len() implies is_slot_held(
                tracks_map@,
                #[trigger] items@[k],
            ) by {
                if k < earlier.len() {
                    assert(items@[k] == earlier[k]);
                    lemma_held_extends(before, tracks_map@, earlier[k]);
                }
            }
        }
    }
    proof {
        if failed {
            lemma_slots_err(s, offsets@, i as nat, 4);
            assert(items@[items@.len() - 1] is Err);
        }
    }
    let ghost given = items@;
    match collect::collect_array_pedantic(items) {
        Ok(slots) => {
            proof {
                assert forall|i: int| 0 <= i < 4 implies (#[trigger] given[i]) is Ok by {
                    assert(given[i] == Ok::<Option<Segment>, Failure>(slots@[i]));
                }
                let expected = slots_at(s, offsets@, 4)->Ok_0.0;
                let view = slots@.map_values(|slot: Option<Segment>| bgm::slot_view(slot));
                assert forall|i: int| 0 <= i < 4 implies view[i] == expected[i] by {
                    assert(given[i] == Ok::<Option<Segment>, Failure>(slots@[i]));
                }
                assert(view =~= expected);
                assert forall|i: int| 0 <= i < slots@.len() implies is_slot_held(
                    tracks_map@,
                    Ok::<Option<Segment>, Failure>(#[trigger] slots@[i]),
                ) by {
                    assert(given[i] == Ok::<Option<Segment>, Failure>(slots@[i]));
                }
                lemma_held_is_shared(tracks_map@, slots@, s, furthest_read_pos as nat);
            }
            Ok((slots, furthest_read_pos))
        },
        Err(e) => Err(e),
    }
}

// The file

/// What the header of a file holds.
pub struct HeaderView {
    pub index: Seq<char>,
    pub segment_offsets: Seq<u16>,
    pub drums_offset: int,
    pub drums_count: nat,
    pub voices_offset: int,
    pub voices_count: nat,
}

struct Header {
    index: String,
    segment_offsets: [u16; 4],
    drums_offset: u64,
    drums_count: u16,
    voices_offset: u64,
    voices_count: u16,
}

impl View for Header {
    type V = HeaderView;

    closed spec fn view(&self) -> HeaderView {
        HeaderView {
            index: self.index@,
            segment_offsets: self.segment_offsets@,
            drums_offset: self.drums_offset as int,
            drums_count: self.drums_count as nat,
            voices_offset: self.voices_offset as int,
            voices_count: self.voices_count as nat,
        }
    }
}

/// Whether the size that a file gives is right: that of the file, or one that padding with zeros to
/// a multiple of sixteen bytes makes that of the file.
pub open spec fn size_check(s: Seq<u8>) -> Result<(), Error> {
    let internal_size = cursor::u32_at(s, 4);
    let true_size = low_bits(s.len());
    if internal_size == true_size {
        Ok(())
    } else if aligned(internal_size as nat, 16) == true_size {
        cursor::padding_at(s, internal_size as int, true_size - internal_size)
    } else {
        Err(Error::SizeMismatch { true_size, internal_size })
    }
}

/// The offset that the header gives for the segment in slot `i`. Offsets are counted in words, and
/// only their low 16 bits matter.
pub open spec fn segment_offset(s: Seq<u8>, i: int) -> u16 {
    (cursor::u16_at(s, 0x14 + 2 * i) * 4 % 0x1_0000) as u16
}

/// The header of a file.
pub open spec fn header_at(s: Seq<u8>) -> Result<HeaderView, Error> {
    if s.len() < 4 {
        Err(error::eof())
    } else if cursor::u32_at(s, 0) != MAGIC {
        Err(Error::InvalidMagic)
    } else if s.len() < 8 {
        Err(error::eof())
    } else {
        match size_check(s) {
            Ok(()) => if s.len() < 12 {
                Err(error::eof())
            } else {
                match name::name_of(s.subrange(8, 12)) {
                    Ok(index) => match cursor::padding_at(s, 12, 4) {
                        Ok(()) => if s.len() <= 0x10 {
                            Err(error::eof())
                        } else if s[0x10] != 4 {
                            Err(Error::InvalidNumSegments(s[0x10]))
                        } else {
                            match cursor::padding_at(s, 0x11, 3) {
                                Ok(()) => if s.len() < 0x24 {
                                    Err(error::eof())
                                } else {
                                    Ok(
                                        HeaderView {
                                            index,
                                            segment_offsets: Seq::new(
                                                4,
                                                |i: int| segment_offset(s, i),
                                            ),
                                            drums_offset: cursor::u16_at(s, 0x1C) * 4,
                                            drums_count: cursor::u16_at(s, 0x1E) as nat,
                                            voices_offset: cursor::u16_at(s, 0x20) * 4,
                                            voices_count: cursor::u16_at(s, 0x22) as nat,
                                        },
                                    )
                                },
                                Err(e) => Err(e),
                            }
                        },
                        Err(e) => Err(e),
                    },
                    Err(e) => Err(Error::InvalidName(e)),
                }
            },
            Err(e) => Err(e),
        }
    }
}

/// Reads the offsets of the four segments.
fn decode_segment_offsets(f: &mut Cursor) -> (r: Result<[u16; 4], Error>)
    requires
        old(f).at() == 0x14,
    ensures
        final(f).bytes() == old(f).bytes(),
        match r {
            Ok(offsets) => {
                &&& old(f).bytes().len() >= 0x1C
                &&& offsets@ == Seq::new(4, |i: int| segment_offset(old(f).bytes(), i))
                &&& final(f).at() == 0x1C
            },
            Err(e) => old(f).bytes().len() < 0x1C && e == error::eof(),
        },
{
    let ghost s = f.bytes();
    let mut items: Vec<Result<u16, Error>> = Vec::new();
    let mut failed = false;
    while items.len() < 4 && !failed
        invariant
            items@.len() <= 4,
            s == old(f).bytes(),
            f.bytes() == s,
            !failed ==> f.at() == 0x14 + 2 * items@.len(),
            !failed ==> items@.len() > 0 ==> f.at() <= s.len(),
            forall|i: int|
                0 <= i < items@.len() - (if failed { 1int } else { 0int }) ==> #[trigger] items@[i]
                    == Ok::<u16, Error>(segment_offset(s, i)),
            failed ==> {
                &&& s.len() < 0x1C
                &&& items@.len() > 0
                &&& items@[items@.len() - 1] == Err::<u16, Error>(error::eof())
            },
        decreases 4 - items.len(),
    {
        // Four contiguous offsets
        match f.read_u16_be() {
            Ok(offset) => {
                assert(offset << 2 == offset * 4 % 0x1_0000) by (bit_vector);
                items.push(Ok(offset << 2));
            },
            Err(e) => {
                failed = true;
                items.push(Err(e));
            },
        }
    }
    let ghost given = items@;
    match collect::collect_array(items) {
        Ok(offsets) => {
            assert(!failed) by {
                if failed {
                    let last = given.len() - 1;
                    assert(given[last] == Ok::<u16, Error>(offsets@[last]));
                }
            }
            assert forall|i: int| 0 <= i < 4 implies offsets@[i] == segment_offset(s, i) by {
                assert(given[i] == Ok::<u16, Error>(offsets@[i]));
            }
            assert(offsets@ =~= Seq::new(4, |i: int| segment_offset(s, i)));
            Ok(offsets)
        },
        Err(e) => Err(e),
    }
}

/// Reads the header of a file, which has to be the first thing in it.
fn decode_header(f: &mut Cursor) -> (r: Result<Header, Error>)
    ensures
        final(f).bytes() == old(f).bytes(),
        match (r, header_at(old(f).bytes())) {
            (Ok(header), Ok(expected)) => header@ == expected,
            (Err(e), Err(expected)) => e == expected,
            _ => false,
        },
{
    let ghost s = f.bytes();
    f.seek_start(0);
    let magic = f.read_u32_be()?;
    if magic != MAGIC {
        return Err(Error::InvalidMagic);
    }
    let internal_size = f.read_u32_be()?;
    let true_size = truncate(f.seek_end());
    if internal_size == true_size {
        // Ok
    } else if align(internal_size, 16) == true_size as u64 {
        // Make sure the trailing bytes are all zero
        f.seek_start(internal_size as u64);
        f.read_padding(true_size - internal_size)?;
    } else {
        return Err(Error::SizeMismatch { true_size, internal_size });
    }
    f.seek_start(0x08);
    let mut index: [u8; 4] = [0, 0, 0, 0];
    f.read_exact(&mut index)?;
    let index = match name::tiny_str(index.as_slice()) {
        Ok(index) => index,
        Err(source) => return Err(Error::InvalidName(source)),
    };
    f.read_padding(4)?;
    let num_segments = f.read_u8()?;
    if num_segments != 4 {
        return Err(Error::InvalidNumSegments(num_segments));
    }
    f.read_padding(3)?;
    // We need to obtain all offsets before seeking to any
    let segment_offsets = decode_segment_offsets(f)?;
    let drums_offset = f.read_u16_be()? as u64 * 4;
    let drums_count = f.read_u16_be()?;
    let voices_offset = f.read_u16_be()? as u64 * 4;
    let voices_count = f.read_u16_be()?;
    Ok(
        Header {
            index,
            segment_offsets,
            drums_offset,
            drums_count,
            voices_offset,
            voices_count,
        },
    )
}

/// The song in a file, and the furthest that reading its tracks ends.
pub open spec fn bgm_at(s: Seq<u8>) -> Result<(BgmView, nat), Failure> {
    match header_at(s) {
        Ok(header) => match slots_at(s, header.segment_offsets, 4) {
            Ok((segments, reach)) => match drums_at(s, header.drums_offset, header.drums_count) {
                Ok(drums) => match voices_at(s, header.voices_offset, header.voices_count) {
                    Ok(voices) => Ok(
                        (BgmView { index: header.index, segments, drums, voices }, reach),
                    ),
                    Err(e) => Err(Failure::Rejected(e)),
                },
                Err(e) => Err(Failure::Rejected(e)),
            },
            Err(e) => Err(e),
        },
        Err(e) => Err(Failure::Rejected(e)),
    }
}

/// Where the data that no track reaches begins, in a file of `len` bytes whose tracks reach to
/// `reach`, if there is more of it than padding.
pub open spec fn unused_from(reach: nat, len: nat) -> Option<nat> {
    if aligned(low_bits(reach) as nat, 16) < low_bits(len) {
        Some(reach)
    } else {
        None
    }
}

/// A song, and what there is to say about the file that it was in.
#[derive(Debug, PartialEq, Eq)]
pub struct Decoded {
    pub bgm: Bgm,
    /// Where the data that no track reaches begins, if there is more of it than padding. Drums and
    /// voices are not counted.
    pub unused_data: Option<u64>,
}

/// Whether `decoded` is what a file of `len` bytes holds, given its song and how far its tracks
/// reach.
pub open spec fn is_decoded(decoded: Decoded, song: BgmView, reach: nat, len: nat) -> bool {
    &&& decoded.bgm@ == song
    &&& bgm::shares_tracks(decoded.bgm.segments@)
    &&& bgm::holds_markers(decoded.bgm.segments@)
    &&& match (decoded.unused_data, unused_from(reach, len)) {
        (Some(pos), Some(expected)) => pos == expected,
        (None, None) => true,
        _ => false,
    }
}

impl Bgm {
    /// Decodes the file that `f` holds, from its start whatever the position of `f`, and leaves `f`
    /// at its end. Where that fails, the position of `f` is unspecified.
    pub fn try_decode(f: &mut Cursor) -> (r: Result<Decoded, Failure>)
        ensures
            final(f).bytes() == old(f).bytes(),
            match (r, bgm_at(old(f).bytes())) {
                (Ok(decoded), Ok((song, reach))) => {
                    &&& is_decoded(decoded, song, reach, old(f).bytes().len())
                    &&& final(f).at() == old(f).bytes().len()
                },
                (Err(e), Err(expected)) => e == expected,
                _ => false,
            },
    {
        let header = error::reject(decode_header(f))?;
        let (segments, furthest_read_pos) = decode_slots(f, &header.segment_offsets)?;
        let drums = error::reject(decode_drums(f, header.drums_offset, header.drums_count))?;
        let voices = error::reject(decode_voices(f, header.voices_offset, header.voices_count))?;
        let bgm = Bgm { index: header.index, segments, drums, voices };
        let eof_pos = f.seek_end();
        let unused_data = if align(truncate(furthest_read_pos), 16) < truncate(eof_pos) as u64 {
            Some(furthest_read_pos)
        } else {
            None
        };
        Ok(Decoded { bgm, unused_data })
    }

    /// Decodes a file.
    pub fn try_from_bytes(f: &[u8]) -> (r: Result<Decoded, Failure>)
        ensures
            match (r, bgm_at(f@)) {
                (Ok(decoded), Ok((song, reach))) => is_decoded(decoded, song, reach, f@.len()),
                (Err(e), Err(expected)) => e == expected,
                _ => false,
            },
    {
        Self::try_decode(&mut Cursor::new(f))
    }

    /// Decodes the file that `f` holds, which has to be one that is supported, from its start
    /// whatever the position of `f`, and leaves `f` at its end. Where that fails, the position of `f`
    /// is unspecified. [`Bgm::try_decode`] takes any file.
    pub fn decode(f: &mut Cursor) -> (r: Result<Bgm, Error>)
        requires
            error::is_supported(bgm_at(old(f).bytes())),
        ensures
            final(f).bytes() == old(f).bytes(),
            match (r, bgm_at(old(f).bytes())) {
                (Ok(bgm), Ok((song, _))) => {
                    &&& bgm@ == song
                    &&& bgm::shares_tracks(bgm.segments@)
                    &&& bgm::holds_markers(bgm.segments@)
                    &&& final(f).at() == old(f).bytes().len()
                },
                (Err(e), Err(expected)) => expected == Failure::Rejected(e),
                _ => false,
            },
    {
        match Self::try_decode(f) {
            Ok(decoded) => Ok(decoded.bgm),
            Err(failure) => Err(failure.into_error()),
        }
    }

    /// Decodes a file, which has to be one that is supported. [`Bgm::try_from_bytes`] takes any
    /// file.
    pub fn from_bytes(f: &[u8]) -> (r: Result<Bgm, Error>)
        requires
            error::is_supported(bgm_at(f@)),
        ensures
            match (r, bgm_at(f@)) {
                (Ok(bgm), Ok((song, _))) => {
                    &&& bgm@ == song
                    &&& bgm::shares_tracks(bgm.segments@)
                    &&& bgm::holds_markers(bgm.segments@)
                },
                (Err(e), Err(expected)) => expected == Failure::Rejected(e),
                _ => false,
            },
    {
        Self::decode(&mut Cursor::new(f))
    }
}

} // verus!
