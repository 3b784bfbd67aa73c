//! What a song that was decoded says of the bytes of its file, and which files are decoded.

use vstd::prelude::*;

use crate::bgm::{BgmView, SubsegmentView};
use crate::cursor;
use crate::de;
use crate::encoding;
use crate::error::{Error, Failure, IoError, NameError};
use crate::laws;
use crate::name;
use crate::sequence;

verus! {

// Segments

proof fn lemma_slot(s: Seq<u8>, offsets: Seq<u16>, n: nat, i: int)
    requires
        de::slots_at(s, offsets, n) is Ok,
        0 <= i < n,
    ensures
        ({
            let (slots, reach) = de::slots_at(s, offsets, n)->Ok_0;
            &&& slots.len() == n
            &&& de::slot_at(s, offsets[i]) matches Ok((slot, end)) && slot == slots[i] && end
                <= reach
        }),
    decreases n,
{
    if n > 1 && i < n - 1 {
        lemma_slot(s, offsets, (n - 1) as nat, i);
    } else if n > 1 {
        lemma_slot(s, offsets, (n - 1) as nat, 0);
    }
}

proof fn lemma_subsegments(
    s: Seq<u8>,
    start: int,
    before: Seq<SubsegmentView>,
    reach: nat,
    pos: int,
)
    requires
        de::subsegments_from(s, start, before, reach, pos) is Ok,
    ensures
        ({
            let (all, furthest) = de::subsegments_from(s, start, before, reach, pos)->Ok_0;
            let end = pos + 4 * (all.len() - before.len());
            &&& all.len() >= before.len()
            &&& furthest >= reach
            &&& end + 4 <= s.len()
            &&& cursor::u32_at(s, end) == 0
        }),
    decreases s.len() - pos,
{
    if cursor::u32_at(s, pos) != 0 {
        let (subsegment, end) = de::subsegment_at(s, start, pos)->Ok_0;
        lemma_subsegments(
            s,
            start,
            before.push(subsegment),
            de::further(reach, end),
            pos + 4,
        );
    }
}

proof fn lemma_subsegment_from(
    s: Seq<u8>,
    start: int,
    before: Seq<SubsegmentView>,
    reach: nat,
    pos: int,
    a: int,
)
    requires
        de::subsegments_from(s, start, before, reach, pos) is Ok,
        0 <= a < de::subsegments_from(s, start, before, reach, pos)->Ok_0.0.len(),
    ensures
        ({
            let (all, furthest) = de::subsegments_from(s, start, before, reach, pos)->Ok_0;
            let p = pos + 4 * (a - before.len());
            &&& a < before.len() ==> all[a] == before[a]
            &&& a >= before.len() ==> {
                &&& p + 4 <= s.len()
                &&& cursor::u32_at(s, p) != 0
                &&& de::subsegment_at(s, start, p) matches Ok((subsegment, end)) && subsegment
                    == all[a] && end <= furthest
            }
        }),
    decreases s.len() - pos,
{
    if cursor::u32_at(s, pos) != 0 {
        let (subsegment, end) = de::subsegment_at(s, start, pos)->Ok_0;
        let longer = before.push(subsegment);
        lemma_subsegment_from(s, start, longer, de::further(reach, end), pos + 4, a);
        if a == before.len() {
            lemma_subsegments(s, start, longer, de::further(reach, end), pos + 4);
        } else if a > before.len() {
            assert(pos + 4 + 4 * (a - longer.len()) == pos + 4 * (a - before.len()));
        }
    }
}

/// What the header says of slot `i`, and where its segment lies.
proof fn lemma_segment(s: Seq<u8>, i: int)
    requires
        de::bgm_at(s) is Ok,
        0 <= i < 4,
    ensures
        ({
            let (song, reach) = de::bgm_at(s)->Ok_0;
            let base = (s[0x14 + 2 * i] * 0x100 + s[0x15 + 2 * i]) * 4 % 0x1_0000;
            &&& s.len() >= 0x24
            &&& song.segments.len() == 4
            &&& base == 0 ==> song.segments[i] is None
            &&& base != 0 ==> {
                &&& song.segments[i] is Some
                &&& de::subsegments_from(s, base, Seq::empty(), 0, base) matches Ok((all, end))
                    && all == song.segments[i]->0 && end <= reach
            }
        }),
{
    let header = de::header_at(s)->Ok_0;
    lemma_slot(s, header.segment_offsets, 4, i);
}

/// Where subsegment `a` of slot `i` lies.
proof fn lemma_subsegment(s: Seq<u8>, i: int, a: int)
    requires
        de::bgm_at(s) is Ok,
        0 <= i < 4,
        de::bgm_at(s)->Ok_0.0.segments[i] is Some,
        0 <= a < de::bgm_at(s)->Ok_0.0.segments[i]->0.len(),
    ensures
        ({
            let (song, reach) = de::bgm_at(s)->Ok_0;
            let base = (s[0x14 + 2 * i] * 0x100 + s[0x15 + 2 * i]) * 4 % 0x1_0000;
            let p = base + 4 * a;
            &&& base != 0
            &&& p + 4 <= s.len()
            &&& cursor::u32_at(s, p) != 0
            &&& de::subsegment_at(s, base, p) matches Ok((subsegment, end)) && subsegment
                == song.segments[i]->0[a] && end <= reach
        }),
{
    lemma_segment(s, i);
    let base = (s[0x14 + 2 * i] * 0x100 + s[0x15 + 2 * i]) * 4 % 0x1_0000;
    lemma_subsegment_from(s, base, Seq::empty(), 0, base, a);
}

/// Where the segment in slot `i` ends.
proof fn lemma_segment_end(s: Seq<u8>, i: int)
    requires
        de::bgm_at(s) is Ok,
        0 <= i < 4,
        de::bgm_at(s)->Ok_0.0.segments[i] is Some,
    ensures
        ({
            let base = (s[0x14 + 2 * i] * 0x100 + s[0x15 + 2 * i]) * 4 % 0x1_0000;
            let end = base + 4 * de::bgm_at(s)->Ok_0.0.segments[i]->0.len();
            &&& base != 0
            &&& end + 4 <= s.len()
            &&& cursor::u32_at(s, end) == 0
        }),
{
    lemma_segment(s, i);
    let base = (s[0x14 + 2 * i] * 0x100 + s[0x15 + 2 * i]) * 4 % 0x1_0000;
    lemma_subsegments(s, base, Seq::empty(), 0, base);
}

proof fn lemma_zeros(s: Seq<u8>, p: int)
    requires
        0 <= p,
        p + 4 <= s.len(),
    ensures
        cursor::u32_at(s, p) == 0 <==> s[p] == 0 && s[p + 1] == 0 && s[p + 2] == 0 && s[p + 3] == 0,
{
}

/// What a subsegment says of its bytes.
proof fn lemma_subsegment_bytes(s: Seq<u8>, base: int, p: int)
    requires
        0 <= base <= 0xFFFF,
        0 <= p,
        p + 4 <= s.len(),
        de::subsegment_at(s, base, p) is Ok,
    ensures
        match de::subsegment_at(s, base, p)->Ok_0.0 {
            SubsegmentView::Tracks { flags, decoded_pos, tracks } => {
                &&& flags == s[p]
                &&& s[p] & 0x70 == 0x10
                &&& s[p + 1] == 0
                &&& decoded_pos is Some
                &&& decoded_pos->0 == base + 4 * (s[p + 2] * 0x100 + s[p + 3])
                &&& de::tracks_at(s, decoded_pos->0 as int, 16) == Ok::<_, Failure>(
                    (tracks, de::subsegment_at(s, base, p)->Ok_0.1),
                )
            },
            SubsegmentView::Unknown { flags, data } => {
                &&& flags == s[p]
                &&& s[p] & 0x70 != 0x10
                &&& data == seq![s[p + 1], s[p + 2], s[p + 3]]
            },
        },
{
    let flags = s[p];
    assert((flags & 0x70 == 0x10) == (flags / 0x10 % 8 == 1)) by (bit_vector);
    if flags & 0x70 == 0x10 {
        assert(s[p + 1] == 0) by {
            if s[p + 1] != 0 {
                assert(p + 1 <= p + 1 < p + 2 && p + 1 < s.len() && s[p + 1] != 0);
            }
        }
    } else {
        assert(s.subrange(p + 1, p + 4) =~= seq![s[p + 1], s[p + 2], s[p + 3]]);
    }
}

/// A slot is empty exactly where the offset that the header gives for it is zero.
pub proof fn law_slots_without_offset_are_empty(s: Seq<u8>, i: int)
    requires
        de::bgm_at(s) is Ok,
        0 <= i < 4,
    ensures
        de::bgm_at(s)->Ok_0.0.segments.len() == 4,
        de::bgm_at(s)->Ok_0.0.segments[i] is None <==> (s[0x14 + 2 * i] * 0x100 + s[0x15 + 2 * i])
            * 4 % 0x1_0000 == 0,
{
    lemma_segment(s, i);
}

/// A segment has a subsegment for every four bytes before the first four that are all zero.
pub proof fn law_segments_end_at_zeros(s: Seq<u8>, i: int, a: int)
    requires
        de::bgm_at(s) is Ok,
        0 <= i < 4,
        de::bgm_at(s)->Ok_0.0.segments[i] is Some,
        0 <= a <= de::bgm_at(s)->Ok_0.0.segments[i]->0.len(),
    ensures
        ({
            let base = (s[0x14 + 2 * i] * 0x100 + s[0x15 + 2 * i]) * 4 % 0x1_0000;
            let p = base + 4 * a;
            &&& p + 4 <= s.len()
            &&& a == de::bgm_at(s)->Ok_0.0.segments[i]->0.len() <==> s[p] == 0 && s[p + 1] == 0
                && s[p + 2] == 0 && s[p + 3] == 0
        }),
{
    let base = (s[0x14 + 2 * i] * 0x100 + s[0x15 + 2 * i]) * 4 % 0x1_0000;
    lemma_segment_end(s, i);
    if a < de::bgm_at(s)->Ok_0.0.segments[i]->0.len() {
        lemma_subsegment(s, i, a);
    }
    lemma_zeros(s, base + 4 * a);
}

/// A subsegment keeps its first byte. It plays tracks exactly where bits 4 to 6 of that are 001:
/// then the second byte is zero, and the others say how many words after the segment the tracks
/// are. Any other subsegment keeps its three other bytes.
pub proof fn law_subsegments_keep_their_bytes(s: Seq<u8>, i: int, a: int)
    requires
        de::bgm_at(s) is Ok,
        0 <= i < 4,
        de::bgm_at(s)->Ok_0.0.segments[i] is Some,
        0 <= a < de::bgm_at(s)->Ok_0.0.segments[i]->0.len(),
    ensures
        ({
            let segment = de::bgm_at(s)->Ok_0.0.segments[i]->0;
            let base = (s[0x14 + 2 * i] * 0x100 + s[0x15 + 2 * i]) * 4 % 0x1_0000;
            let p = base + 4 * a;
            match segment[a] {
                SubsegmentView::Tracks { flags, decoded_pos, tracks } => {
                    &&& flags == s[p]
                    &&& s[p] & 0x70 == 0x10
                    &&& s[p + 1] == 0
                    &&& decoded_pos is Some
                    &&& decoded_pos->0 == base + 4 * (s[p + 2] * 0x100 + s[p + 3])
                    &&& tracks.len() == 16
                },
                SubsegmentView::Unknown { flags, data } => {
                    &&& flags == s[p]
                    &&& s[p] & 0x70 != 0x10
                    &&& data == seq![s[p + 1], s[p + 2], s[p + 3]]
                },
            }
        }),
{
    let base = (s[0x14 + 2 * i] * 0x100 + s[0x15 + 2 * i]) * 4 % 0x1_0000;
    lemma_subsegment(s, i, a);
    lemma_subsegment_bytes(s, base, base + 4 * a);
    if let SubsegmentView::Tracks { decoded_pos, .. } = de::bgm_at(s)->Ok_0.0.segments[i]->0[a] {
        lemma_track(s, decoded_pos->0 as int, 16, 0);
    }
}

// Tracks

proof fn lemma_track(s: Seq<u8>, tracks_start: int, n: nat, k: int)
    requires
        de::tracks_at(s, tracks_start, n) is Ok,
        0 <= k < n,
    ensures
        ({
            let (tracks, reach) = de::tracks_at(s, tracks_start, n)->Ok_0;
            &&& tracks.len() == n
            &&& de::track_at(s, tracks_start, tracks_start + 4 * k) matches Ok((track, end)) && track
                == tracks[k] && end <= reach
        }),
    decreases n,
{
    if n > 1 && k < n - 1 {
        lemma_track(s, tracks_start, (n - 1) as nat, k);
    } else if n > 1 {
        lemma_track(s, tracks_start, (n - 1) as nat, 0);
    }
}

/// What a track says of its entry.
proof fn lemma_track_bytes(s: Seq<u8>, table: int, k: int)
    requires
        0 <= table,
        0 <= k < 16,
        de::tracks_at(s, table, 16) is Ok,
    ensures
        ({
            let (tracks, reach) = de::tracks_at(s, table, 16)->Ok_0;
            let entry = table + 4 * k;
            let offset = s[entry] * 0x100 + s[entry + 1];
            &&& tracks.len() == 16
            &&& entry + 4 <= s.len()
            &&& tracks[k].flags == s[entry + 2] * 0x100 + s[entry + 3]
            &&& offset == 0 ==> tracks[k].commands.len() == 0 && entry + 4 <= reach
            &&& offset != 0 ==> (sequence::sequence_at(s, table + offset) matches Ok((commands, end))
                && tracks[k].commands == commands && end <= reach)
        }),
{
    lemma_track(s, table, 16, k);
    let offset = s[table + 4 * k] * 0x100 + s[table + 4 * k + 1];
    if offset != 0 {
        laws::law_sequence_has_end(s, table + offset);
        laws::law_markers_are_within_sequence(s, table + offset, 0);
    }
}

/// Track `k` of the table at a position is what entry `k` of that table says: its last two bytes
/// are the flags, and its first two say how far after the start of the table the commands are,
/// unless both are zero: then there are none.
pub proof fn law_tracks_are_what_their_table_says(s: Seq<u8>, i: int, a: int, k: int)
    requires
        de::bgm_at(s) is Ok,
        0 <= i < 4,
        de::bgm_at(s)->Ok_0.0.segments[i] is Some,
        0 <= a < de::bgm_at(s)->Ok_0.0.segments[i]->0.len(),
        0 <= k < 16,
    ensures
        match de::bgm_at(s)->Ok_0.0.segments[i]->0[a] {
            SubsegmentView::Tracks { decoded_pos, tracks, .. } => {
                let table = decoded_pos->0;
                let entry = table + 4 * k;
                let offset = s[entry] * 0x100 + s[entry + 1];
                let reach = de::bgm_at(s)->Ok_0.1;
                &&& tracks.len() == 16
                &&& entry + 4 <= s.len()
                &&& tracks[k].flags == s[entry + 2] * 0x100 + s[entry + 3]
                &&& offset == 0 ==> tracks[k].commands.len() == 0 && entry + 4 <= reach
                &&& offset != 0 ==> (sequence::sequence_at(s, table + offset) matches Ok(
                    (commands, end),
                ) && tracks[k].commands == commands && end <= reach)
            },
            SubsegmentView::Unknown { .. } => true,
        },
{
    let base = (s[0x14 + 2 * i] * 0x100 + s[0x15 + 2 * i]) * 4 % 0x1_0000;
    lemma_subsegment(s, i, a);
    lemma_subsegment_bytes(s, base, base + 4 * a);
    if let SubsegmentView::Tracks { decoded_pos, .. } = de::bgm_at(s)->Ok_0.0.segments[i]->0[a] {
        lemma_track_bytes(s, decoded_pos->0 as int, k);
    }
}

/// Entries of one table that give the same offset play the same commands.
pub proof fn law_same_offset_same_commands(s: Seq<u8>, i: int, a: int, k: int, l: int)
    requires
        de::bgm_at(s) is Ok,
        0 <= i < 4,
        de::bgm_at(s)->Ok_0.0.segments[i] is Some,
        0 <= a < de::bgm_at(s)->Ok_0.0.segments[i]->0.len(),
        0 <= k < 16,
        0 <= l < 16,
    ensures
        match de::bgm_at(s)->Ok_0.0.segments[i]->0[a] {
            SubsegmentView::Tracks { decoded_pos, tracks, .. } => {
                let x = decoded_pos->0 + 4 * k;
                let y = decoded_pos->0 + 4 * l;
                s[x] == s[y] && s[x + 1] == s[y + 1] ==> tracks[k].commands == tracks[l].commands
            },
            SubsegmentView::Unknown { .. } => true,
        },
{
    law_tracks_are_what_their_table_says(s, i, a, k);
    law_tracks_are_what_their_table_says(s, i, a, l);
    if let SubsegmentView::Tracks { tracks, .. } = de::bgm_at(s)->Ok_0.0.segments[i]->0[a] {
        if tracks[k].commands.len() == 0 && tracks[l].commands.len() == 0 {
            assert(tracks[k].commands =~= tracks[l].commands);
        }
    }
}

proof fn lemma_tracks_attain(s: Seq<u8>, tracks_start: int, n: nat) -> (k: int)
    requires
        0 <= tracks_start,
        n > 0,
        de::tracks_at(s, tracks_start, n) is Ok,
    ensures
        0 <= k < n,
        de::track_at(s, tracks_start, tracks_start + 4 * k) matches Ok((_, end)) && end
            == de::tracks_at(s, tracks_start, n)->Ok_0.1,
    decreases n,
{
    let last = (n - 1) as nat;
    let (_, end) = de::track_at(s, tracks_start, tracks_start + 4 * last)->Ok_0;
    if n == 1 || end >= de::tracks_at(s, tracks_start, last)->Ok_0.1 {
        last as int
    } else {
        lemma_tracks_attain(s, tracks_start, last)
    }
}

proof fn lemma_subsegments_attain(
    s: Seq<u8>,
    start: int,
    before: Seq<SubsegmentView>,
    reach: nat,
    pos: int,
) -> (a: int)
    requires
        de::subsegments_from(s, start, before, reach, pos) is Ok,
        de::subsegments_from(s, start, before, reach, pos)->Ok_0.1 > reach,
    ensures
        before.len() <= a < de::subsegments_from(s, start, before, reach, pos)->Ok_0.0.len(),
        de::subsegment_at(s, start, pos + 4 * (a - before.len())) matches Ok((_, end)) && end
            == de::subsegments_from(s, start, before, reach, pos)->Ok_0.1,
    decreases s.len() - pos,
{
    let (subsegment, end) = de::subsegment_at(s, start, pos)->Ok_0;
    let longer = before.push(subsegment);
    let furthest = de::subsegments_from(s, start, before, reach, pos)->Ok_0.1;
    lemma_subsegments(s, start, longer, de::further(reach, end), pos + 4);
    if furthest == end {
        before.len() as int
    } else {
        let a = lemma_subsegments_attain(s, start, longer, de::further(reach, end), pos + 4);
        assert(pos + 4 + 4 * (a - longer.len()) == pos + 4 * (a - before.len()));
        a
    }
}

proof fn lemma_slots_attain(s: Seq<u8>, offsets: Seq<u16>, n: nat) -> (i: int)
    requires
        de::slots_at(s, offsets, n) is Ok,
        de::slots_at(s, offsets, n)->Ok_0.1 > 0,
    ensures
        0 <= i < n,
        de::slot_at(s, offsets[i]) matches Ok((_, end)) && end == de::slots_at(
            s,
            offsets,
            n,
        )->Ok_0.1,
    decreases n,
{
    let last = (n - 1) as nat;
    let (_, end) = de::slot_at(s, offsets[last as int])->Ok_0;
    if end >= de::slots_at(s, offsets, last)->Ok_0.1 {
        last as int
    } else {
        lemma_slots_attain(s, offsets, last)
    }
}

/// Where reading a track ends.
proof fn lemma_track_end(s: Seq<u8>, table: int, k: int)
    requires
        0 <= table,
        0 <= k,
        de::track_at(s, table, table + 4 * k) is Ok,
    ensures
        ({
            let entry = table + 4 * k;
            let offset = s[entry] * 0x100 + s[entry + 1];
            let end = de::track_at(s, table, entry)->Ok_0.1;
            &&& offset == 0 ==> end == entry + 4
            &&& offset != 0 ==> (sequence::sequence_at(s, table + offset) matches Ok((_, reached))
                && reached == end)
        }),
{
    let offset = s[table + 4 * k] * 0x100 + s[table + 4 * k + 1];
    if offset != 0 {
        laws::law_sequence_has_end(s, table + offset);
        laws::law_markers_are_within_sequence(s, table + offset, 0);
    }
}

/// The furthest that reading the tracks of a file ends is where reading one of them ends: after its
/// entry if it has no commands, and after its commands if it has.
pub proof fn law_reach_is_the_end_of_a_track(s: Seq<u8>) -> (r: (int, int, int))
    requires
        de::bgm_at(s) is Ok,
        de::bgm_at(s)->Ok_0.1 > 0,
    ensures
        ({
            let (song, reach) = de::bgm_at(s)->Ok_0;
            let (i, a, k) = r;
            &&& 0 <= i < 4
            &&& song.segments[i] is Some
            &&& 0 <= a < song.segments[i]->0.len()
            &&& 0 <= k < 16
            &&& match song.segments[i]->0[a] {
                SubsegmentView::Tracks { decoded_pos, .. } => {
                    let table = decoded_pos->0;
                    let entry = table + 4 * k;
                    let offset = s[entry] * 0x100 + s[entry + 1];
                    &&& offset == 0 ==> reach == entry + 4
                    &&& offset != 0 ==> (sequence::sequence_at(s, table + offset) matches Ok(
                        (_, end),
                    ) && reach == end)
                },
                SubsegmentView::Unknown { .. } => false,
            }
        }),
{
    let header = de::header_at(s)->Ok_0;
    let i = lemma_slots_attain(s, header.segment_offsets, 4);
    let base = (s[0x14 + 2 * i] * 0x100 + s[0x15 + 2 * i]) * 4 % 0x1_0000;
    lemma_segment(s, i);
    let a = lemma_subsegments_attain(s, base, Seq::empty(), 0, base);
    let p = base + 4 * a;
    lemma_subsegment_from(s, base, Seq::empty(), 0, base, a);
    lemma_subsegment_bytes(s, base, p);
    let table = base + 4 * (s[p + 2] * 0x100 + s[p + 3]);
    let k = lemma_tracks_attain(s, table, 16);
    lemma_track_end(s, table, k);
    (i, a, k)
}

// Drums and voices

proof fn lemma_header_says_where(s: Seq<u8>)
    requires
        de::header_at(s) is Ok,
    ensures
        ({
            let header = de::header_at(s)->Ok_0;
            &&& s.len() >= 0x24
            &&& header.drums_offset == (s[0x1C] * 0x100 + s[0x1D]) * 4
            &&& header.drums_count == s[0x1E] * 0x100 + s[0x1F]
            &&& header.voices_offset == (s[0x20] * 0x100 + s[0x21]) * 4
            &&& header.voices_count == s[0x22] * 0x100 + s[0x23]
        }),
{
}

proof fn lemma_drum_bytes(s: Seq<u8>, offset: int, count: nat, i: int)
    requires
        0 <= offset,
        de::drums_at(s, offset, count) is Ok,
        0 <= i < de::drums_at(s, offset, count)->Ok_0.len(),
    ensures
        ({
            let drums = de::drums_at(s, offset, count)->Ok_0;
            let drum = drums[i];
            let p = offset + 12 * i;
            &&& offset != 0
            &&& drums.len() == count
            &&& p + 12 <= s.len()
            &&& s.subrange(p, p + 12) == seq![
                drum.bank,
                drum.patch,
                drum.coarse_tune,
                drum.fine_tune,
                drum.volume,
                drum.pan,
                drum.reverb,
                drum.unk_07,
                drum.unk_08,
                drum.unk_09,
                drum.unk_0a,
                drum.unk_0b,
            ]
        }),
{
    let drum = de::drums_at(s, offset, count)->Ok_0[i];
    let p = offset + 12 * i;
    assert(s.subrange(p, p + 12) =~= seq![
        drum.bank,
        drum.patch,
        drum.coarse_tune,
        drum.fine_tune,
        drum.volume,
        drum.pan,
        drum.reverb,
        drum.unk_07,
        drum.unk_08,
        drum.unk_09,
        drum.unk_0a,
        drum.unk_0b,
    ]);
}

/// The fields of drum `i` are the bytes of the file from where the header says the drums are, one
/// after the other, after twelve for each drum before it.
pub proof fn law_drums_are_their_bytes(s: Seq<u8>, i: int)
    requires
        de::bgm_at(s) is Ok,
        0 <= i < de::bgm_at(s)->Ok_0.0.drums.len(),
    ensures
        ({
            let drums = de::bgm_at(s)->Ok_0.0.drums;
            let p = (s[0x1C] * 0x100 + s[0x1D]) * 4 + 12 * i;
            let drum = drums[i];
            &&& s[0x1C] != 0 || s[0x1D] != 0
            &&& drums.len() == s[0x1E] * 0x100 + s[0x1F]
            &&& p + 12 <= s.len()
            &&& s.subrange(p, p + 12) == seq![
                drum.bank,
                drum.patch,
                drum.coarse_tune,
                drum.fine_tune,
                drum.volume,
                drum.pan,
                drum.reverb,
                drum.unk_07,
                drum.unk_08,
                drum.unk_09,
                drum.unk_0a,
                drum.unk_0b,
            ]
        }),
{
    let header = de::header_at(s)->Ok_0;
    lemma_header_says_where(s);
    lemma_drum_bytes(s, header.drums_offset, header.drums_count, i);
}

proof fn lemma_voice_bytes(s: Seq<u8>, offset: int, count: nat, i: int)
    requires
        0 <= offset,
        de::voices_at(s, offset, count) is Ok,
        0 <= i < de::voices_at(s, offset, count)->Ok_0.len(),
    ensures
        ({
            let voices = de::voices_at(s, offset, count)->Ok_0;
            let voice = voices[i];
            let p = offset + 8 * i;
            &&& offset != 0
            &&& voices.len() == count
            &&& p + 8 <= s.len()
            &&& s.subrange(p, p + 8) == seq![
                voice.bank,
                voice.patch,
                voice.volume,
                voice.pan,
                voice.reverb,
                voice.coarse_tune,
                voice.fine_tune,
                voice.unk_07,
            ]
        }),
{
    let voice = de::voices_at(s, offset, count)->Ok_0[i];
    let p = offset + 8 * i;
    assert(s.subrange(p, p + 8) =~= seq![
        voice.bank,
        voice.patch,
        voice.volume,
        voice.pan,
        voice.reverb,
        voice.coarse_tune,
        voice.fine_tune,
        voice.unk_07,
    ]);
}

/// The fields of voice `i` are the bytes of the file from where the header says the voices are, one
/// after the other, after eight for each voice before it.
pub proof fn law_voices_are_their_bytes(s: Seq<u8>, i: int)
    requires
        de::bgm_at(s) is Ok,
        0 <= i < de::bgm_at(s)->Ok_0.0.voices.len(),
    ensures
        ({
            let voices = de::bgm_at(s)->Ok_0.0.voices;
            let p = (s[0x20] * 0x100 + s[0x21]) * 4 + 8 * i;
            let voice = voices[i];
            &&& s[0x20] != 0 || s[0x21] != 0
            &&& voices.len() == s[0x22] * 0x100 + s[0x23]
            &&& p + 8 <= s.len()
            &&& s.subrange(p, p + 8) == seq![
                voice.bank,
                voice.patch,
                voice.volume,
                voice.pan,
                voice.reverb,
                voice.coarse_tune,
                voice.fine_tune,
                voice.unk_07,
            ]
        }),
{
    let header = de::header_at(s)->Ok_0;
    lemma_header_says_where(s);
    lemma_voice_bytes(s, header.voices_offset, header.voices_count, i);
}

/// A drum that is read by itself keeps its bytes, in order.
pub proof fn law_drum_is_its_bytes(s: Seq<u8>, pos: int)
    requires
        0 <= pos,
        pos + 12 <= s.len(),
    ensures
        ({
            let drum = de::drum_at(s, pos);
            s.subrange(pos, pos + 12) == seq![
                drum.bank,
                drum.patch,
                drum.coarse_tune,
                drum.fine_tune,
                drum.volume,
                drum.pan,
                drum.reverb,
                drum.unk_07,
                drum.unk_08,
                drum.unk_09,
                drum.unk_0a,
                drum.unk_0b,
            ]
        }),
{
}

/// A voice that is read by itself keeps its bytes, in order.
pub proof fn law_voice_is_its_bytes(s: Seq<u8>, pos: int)
    requires
        0 <= pos,
        pos + 8 <= s.len(),
    ensures
        ({
            let voice = de::voice_at(s, pos);
            s.subrange(pos, pos + 8) == seq![
                voice.bank,
                voice.patch,
                voice.volume,
                voice.pan,
                voice.reverb,
                voice.coarse_tune,
                voice.fine_tune,
                voice.unk_07,
            ]
        }),
{
}

// Which files are decoded

/// Whether entry `k` of the table at `table` is in the file, and so are its commands, if it has
/// any.
pub open spec fn is_valid_entry(s: Seq<u8>, table: int, k: int) -> bool {
    let entry = table + 4 * k;
    let offset = s[entry] * 0x100 + s[entry + 1];
    entry + 4 <= s.len() && (offset == 0 || sequence::sequence_at(s, table + offset) is Ok)
}

/// Whether the four bytes at `p` are a subsegment of the segment at `base`: anything that is not
/// all zero and does not play tracks, or something that plays tracks which are in the file.
pub open spec fn is_valid_subsegment(s: Seq<u8>, base: int, p: int) -> bool {
    &&& s[p] != 0 || s[p + 1] != 0 || s[p + 2] != 0 || s[p + 3] != 0
    &&& s[p] & 0x70 == 0x10 ==> {
        &&& s[p + 1] == 0
        &&& forall|k: int|
            0 <= k < 16 ==> #[trigger] is_valid_entry(
                s,
                base + 4 * (s[p + 2] * 0x100 + s[p + 3]),
                k,
            )
    }
}

/// Whether there is a segment of `n` subsegments at `base`.
pub open spec fn is_valid_segment(s: Seq<u8>, base: int, n: nat) -> bool {
    let end = base + 4 * n;
    &&& end + 4 <= s.len()
    &&& s[end] == 0 && s[end + 1] == 0 && s[end + 2] == 0 && s[end + 3] == 0
    &&& forall|a: int| 0 <= a < n ==> is_valid_subsegment(s, base, base + #[trigger] (4 * a))
}

proof fn lemma_tracks_decode(s: Seq<u8>, table: int, n: nat)
    requires
        0 <= table,
        forall|k: int| 0 <= k < n ==> #[trigger] is_valid_entry(s, table, k),
    ensures
        de::tracks_at(s, table, n) is Ok,
    decreases n,
{
    if n > 0 {
        lemma_tracks_decode(s, table, (n - 1) as nat);
        assert(is_valid_entry(s, table, n - 1));
    }
}

proof fn lemma_subsegment_decodes(s: Seq<u8>, base: int, p: int)
    requires
        0 <= base <= 0xFFFF,
        0 <= p,
        p + 4 <= s.len(),
        is_valid_subsegment(s, base, p),
    ensures
        de::subsegment_at(s, base, p) is Ok,
        cursor::u32_at(s, p) != 0,
{
    let flags = s[p];
    assert((flags & 0x70 == 0x10) == (flags / 0x10 % 8 == 1)) by (bit_vector);
    if flags & 0x70 == 0x10 {
        lemma_tracks_decode(s, base + 4 * (s[p + 2] * 0x100 + s[p + 3]), 16);
    }
}

proof fn lemma_segment_decodes(
    s: Seq<u8>,
    base: int,
    n: nat,
    before: Seq<SubsegmentView>,
    reach: nat,
    a: nat,
)
    requires
        0 <= base <= 0xFFFF,
        a <= n,
        is_valid_segment(s, base, n),
    ensures
        de::subsegments_from(s, base, before, reach, base + 4 * a) is Ok,
    decreases n - a,
{
    lemma_zeros(s, base + 4 * a);
    if a < n {
        assert(is_valid_subsegment(s, base, base + 4 * (a as int)));
        lemma_subsegment_decodes(s, base, base + 4 * a);
        let (subsegment, end) = de::subsegment_at(s, base, base + 4 * a)->Ok_0;
        lemma_segment_decodes(
            s,
            base,
            n,
            before.push(subsegment),
            de::further(reach, end),
            a + 1,
        );
    }
}

proof fn lemma_slots_decode(s: Seq<u8>, offsets: Seq<u16>, lens: Seq<nat>, n: nat)
    requires
        forall|i: int|
            0 <= i < n ==> #[trigger] offsets[i] == 0 || is_valid_segment(
                s,
                offsets[i] as int,
                lens[i],
            ),
    ensures
        de::slots_at(s, offsets, n) is Ok,
    decreases n,
{
    if n > 0 {
        lemma_slots_decode(s, offsets, lens, (n - 1) as nat);
        let base = offsets[n - 1];
        if base != 0 {
            lemma_segment_decodes(s, base as int, lens[n - 1], Seq::empty(), 0, 0);
        }
    }
}

proof fn lemma_header_decodes(s: Seq<u8>)
    requires
        0x24 <= s.len() <= u32::MAX,
        s[0] == 0x42 && s[1] == 0x47 && s[2] == 0x4D && s[3] == 0x20,
        s[4] * 0x100_0000 + s[5] * 0x1_0000 + s[6] * 0x100 + s[7] == s.len(),
        forall|i: int| 8 <= i < 12 ==> 0 < #[trigger] s[i] < 0x80,
        forall|i: int| 12 <= i < 16 ==> #[trigger] s[i] == 0,
        s[0x10] == 4,
        forall|i: int| 0x11 <= i < 0x14 ==> #[trigger] s[i] == 0,
    ensures
        de::header_at(s) is Ok,
{
    assert(de::low_bits(s.len()) == s.len());
    assert(de::size_check(s) is Ok);
    let bytes = s.subrange(8, 12);
    assert(forall|i: int| 0 <= i < 4 ==> #[trigger] bytes[i] == s[8 + i]);
    assert(name::name_of(bytes) is Ok);
    assert(cursor::padding_at(s, 12, 4) is Ok);
    assert(cursor::padding_at(s, 0x11, 3) is Ok);
}

/// A valid file is decoded: one that begins with the signature and its own size, a name of four
/// ASCII characters, zeros where there is padding, and four slots, whose segments, drums and voices
/// are all in the file.
pub proof fn law_valid_file_is_decoded(s: Seq<u8>, lens: Seq<nat>)
    requires
        0x24 <= s.len() <= u32::MAX,
        s[0] == 0x42 && s[1] == 0x47 && s[2] == 0x4D && s[3] == 0x20,
        s[4] * 0x100_0000 + s[5] * 0x1_0000 + s[6] * 0x100 + s[7] == s.len(),
        forall|i: int| 8 <= i < 12 ==> 0 < #[trigger] s[i] < 0x80,
        forall|i: int| 12 <= i < 16 ==> #[trigger] s[i] == 0,
        s[0x10] == 4,
        forall|i: int| 0x11 <= i < 0x14 ==> #[trigger] s[i] == 0,
        forall|i: int|
            0 <= i < 4 ==> {
                let base = (s[0x14 + 2 * i] * 0x100 + s[0x15 + 2 * i]) * 4 % 0x1_0000;
                base == 0 || is_valid_segment(s, base, #[trigger] lens[i])
            },
        ({
            let drums = (s[0x1C] * 0x100 + s[0x1D]) * 4;
            let count = s[0x1E] * 0x100 + s[0x1F];
            drums == 0 || count == 0 || drums + 12 * count <= s.len()
        }),
        ({
            let voices = (s[0x20] * 0x100 + s[0x21]) * 4;
            let count = s[0x22] * 0x100 + s[0x23];
            voices == 0 || count == 0 || voices + 8 * count <= s.len()
        }),
    ensures
        de::bgm_at(s) is Ok,
{
    lemma_header_decodes(s);
    let header = de::header_at(s)->Ok_0;
    let offsets = header.segment_offsets;
    assert forall|i: int| 0 <= i < 4 implies #[trigger] offsets[i] == 0 || is_valid_segment(
        s,
        offsets[i] as int,
        lens[i],
    ) by {
        let base = (s[0x14 + 2 * i] * 0x100 + s[0x15 + 2 * i]) * 4 % 0x1_0000;
        assert(lens[i] == lens[i]);
        assert(offsets[i] == base);
    }
    lemma_slots_decode(s, offsets, lens, 4);
    assert(de::drums_at(s, header.drums_offset, header.drums_count) is Ok);
    assert(de::voices_at(s, header.voices_offset, header.voices_count) is Ok);
}

// Which files are rejected

/// Whether a failure is one that what comes after a header can have.
spec fn is_late(failure: Failure) -> bool {
    match failure {
        Failure::Rejected(e) => e == Error::NonZeroPadding || e == Error::Io(
            IoError::UnexpectedEof,
        ),
        Failure::Unsupported(_) => true,
    }
}

proof fn lemma_sequence_failure(s: Seq<u8>, start: int)
    requires
        0 <= start,
    ensures
        sequence::sequence_at(s, start) matches Err(e) ==> is_late(e),
{
    if sequence::sequence_at(s, start) is Err {
        let (entries, pos) = encoding::law_sequence_fails_at_a_command(s, start);
        encoding::law_command_is_what_its_bytes_say(s, start, pos);
    }
}

proof fn lemma_tracks_failure(s: Seq<u8>, table: int, n: nat)
    requires
        0 <= table,
    ensures
        de::tracks_at(s, table, n) matches Err(e) ==> is_late(e),
    decreases n,
{
    if n > 0 {
        lemma_tracks_failure(s, table, (n - 1) as nat);
        lemma_sequence_failure(s, table + cursor::u16_at(s, table + 4 * (n - 1)));
    }
}

proof fn lemma_segment_failure(
    s: Seq<u8>,
    base: int,
    before: Seq<SubsegmentView>,
    reach: nat,
    pos: int,
)
    requires
        0 <= base,
    ensures
        de::subsegments_from(s, base, before, reach, pos) matches Err(e) ==> is_late(e),
    decreases s.len() - pos,
{
    if pos + 4 <= s.len() && cursor::u32_at(s, pos) != 0 {
        lemma_tracks_failure(s, base + cursor::u16_at(s, pos + 2) * 4, 16);
        if let Ok((subsegment, end)) = de::subsegment_at(s, base, pos) {
            lemma_segment_failure(
                s,
                base,
                before.push(subsegment),
                de::further(reach, end),
                pos + 4,
            );
        }
    }
}

proof fn lemma_slots_failure(s: Seq<u8>, offsets: Seq<u16>, n: nat)
    ensures
        de::slots_at(s, offsets, n) matches Err(e) ==> is_late(e),
    decreases n,
{
    if n > 0 {
        lemma_slots_failure(s, offsets, (n - 1) as nat);
        lemma_segment_failure(s, offsets[n - 1] as int, Seq::empty(), 0, offsets[n - 1] as int);
    }
}

/// An error that only a header can have is that of the header.
proof fn lemma_header_error(s: Seq<u8>, e: Error)
    requires
        e != Error::NonZeroPadding,
        e != Error::Io(IoError::UnexpectedEof),
    ensures
        de::bgm_at(s) == Err::<(BgmView, nat), Failure>(Failure::Rejected(e))
            <==> de::header_at(s) == Err::<de::HeaderView, Error>(e),
{
    if let Ok(header) = de::header_at(s) {
        lemma_slots_failure(s, header.segment_offsets, 4);
    }
}

/// Data is rejected for its signature exactly where its first four bytes are not `BGM `.
pub proof fn law_signature_is_checked(s: Seq<u8>)
    ensures
        de::bgm_at(s) == Err::<(BgmView, nat), Failure>(Failure::Rejected(Error::InvalidMagic))
            <==> s.len() >= 4 && !(s[0] == 0x42 && s[1] == 0x47 && s[2] == 0x4D && s[3] == 0x20),
{
    lemma_header_error(s, Error::InvalidMagic);
    if s.len() >= 4 {
        assert(cursor::u32_at(s, 0) == de::MAGIC <==> s[0] == 0x42 && s[1] == 0x47 && s[2] == 0x4D
            && s[3] == 0x20);
    }
}

proof fn lemma_size_error(s: Seq<u8>, true_size: u32, internal_size: u32)
    requires
        s.len() <= u32::MAX,
    ensures
        de::header_at(s) == Err::<de::HeaderView, Error>(
            Error::SizeMismatch { true_size, internal_size },
        ) <==> {
            &&& s.len() >= 8
            &&& s[0] == 0x42 && s[1] == 0x47 && s[2] == 0x4D && s[3] == 0x20
            &&& true_size == s.len()
            &&& internal_size == s[4] * 0x100_0000 + s[5] * 0x1_0000 + s[6] * 0x100 + s[7]
            &&& internal_size != true_size
            &&& !(internal_size < true_size < internal_size + 16 && true_size % 16 == 0)
        },
{
    assert(de::low_bits(s.len()) == s.len());
    if s.len() >= 8 {
        assert(cursor::u32_at(s, 0) == de::MAGIC <==> s[0] == 0x42 && s[1] == 0x47 && s[2] == 0x4D
            && s[3] == 0x20);
        let size = cursor::u32_at(s, 4);
        assert(de::aligned(size as nat, 16) == s.len() && size != s.len() <==> size < s.len() < size
            + 16 && s.len() % 16 == 0);
    }
}

/// A file is rejected for its size exactly where the size that it gives is neither its own nor one
/// that padding to a multiple of sixteen bytes makes its own. The error holds both sizes.
pub proof fn law_size_is_checked(s: Seq<u8>, true_size: u32, internal_size: u32)
    requires
        s.len() <= u32::MAX,
    ensures
        de::bgm_at(s) == Err::<(BgmView, nat), Failure>(
            Failure::Rejected(Error::SizeMismatch { true_size, internal_size }),
        ) <==> {
            &&& s.len() >= 8
            &&& s[0] == 0x42 && s[1] == 0x47 && s[2] == 0x4D && s[3] == 0x20
            &&& true_size == s.len()
            &&& internal_size == s[4] * 0x100_0000 + s[5] * 0x1_0000 + s[6] * 0x100 + s[7]
            &&& internal_size != true_size
            &&& !(internal_size < true_size < internal_size + 16 && true_size % 16 == 0)
        },
{
    lemma_header_error(s, Error::SizeMismatch { true_size, internal_size });
    lemma_size_error(s, true_size, internal_size);
}

proof fn lemma_name_error(s: Seq<u8>)
    requires
        12 <= s.len() <= u32::MAX,
        s[0] == 0x42 && s[1] == 0x47 && s[2] == 0x4D && s[3] == 0x20,
        s[4] * 0x100_0000 + s[5] * 0x1_0000 + s[6] * 0x100 + s[7] == s.len(),
    ensures
        de::header_at(s) == Err::<de::HeaderView, Error>(Error::InvalidName(NameError::NonAscii))
            <==> exists|i: int| 8 <= i < 12 && #[trigger] s[i] >= 0x80,
        de::header_at(s) == Err::<de::HeaderView, Error>(Error::InvalidName(NameError::InvalidNull))
            <==> {
            &&& forall|i: int| 8 <= i < 12 ==> #[trigger] s[i] < 0x80
            &&& exists|i: int| 8 <= i < 12 && #[trigger] s[i] == 0
        },
{
    assert(de::low_bits(s.len()) == s.len());
    assert(de::size_check(s) is Ok);
    let bytes = s.subrange(8, 12);
    assert(forall|i: int| 8 <= i < 12 ==> #[trigger] s[i] == bytes[i - 8]);
    assert(forall|i: int| 0 <= i < 4 ==> #[trigger] bytes[i] == s[8 + i]);
}

/// The name of a file whose size is right is rejected where one of its four bytes is not ASCII, or
/// else where one is zero.
pub proof fn law_name_is_checked(s: Seq<u8>)
    requires
        12 <= s.len() <= u32::MAX,
        s[0] == 0x42 && s[1] == 0x47 && s[2] == 0x4D && s[3] == 0x20,
        s[4] * 0x100_0000 + s[5] * 0x1_0000 + s[6] * 0x100 + s[7] == s.len(),
    ensures
        de::bgm_at(s) == Err::<(BgmView, nat), Failure>(
            Failure::Rejected(Error::InvalidName(NameError::NonAscii)),
        ) <==> exists|i: int| 8 <= i < 12 && #[trigger] s[i] >= 0x80,
        de::bgm_at(s) == Err::<(BgmView, nat), Failure>(
            Failure::Rejected(Error::InvalidName(NameError::InvalidNull)),
        ) <==> {
            &&& forall|i: int| 8 <= i < 12 ==> #[trigger] s[i] < 0x80
            &&& exists|i: int| 8 <= i < 12 && #[trigger] s[i] == 0
        },
{
    lemma_header_error(s, Error::InvalidName(NameError::NonAscii));
    lemma_header_error(s, Error::InvalidName(NameError::InvalidNull));
    lemma_name_error(s);
}

proof fn lemma_number_of_slots_error(s: Seq<u8>, n: u8)
    requires
        0x11 <= s.len() <= u32::MAX,
        s[0] == 0x42 && s[1] == 0x47 && s[2] == 0x4D && s[3] == 0x20,
        s[4] * 0x100_0000 + s[5] * 0x1_0000 + s[6] * 0x100 + s[7] == s.len(),
        forall|i: int| 8 <= i < 12 ==> 0 < #[trigger] s[i] < 0x80,
        forall|i: int| 12 <= i < 16 ==> #[trigger] s[i] == 0,
    ensures
        de::header_at(s) == Err::<de::HeaderView, Error>(Error::InvalidNumSegments(n)) <==> s[0x10]
            == n && n != 4,
{
    assert(de::low_bits(s.len()) == s.len());
    assert(de::size_check(s) is Ok);
    let bytes = s.subrange(8, 12);
    assert(forall|i: int| 0 <= i < 4 ==> #[trigger] bytes[i] == s[8 + i]);
    assert(name::name_of(bytes) is Ok);
    assert(cursor::padding_at(s, 12, 4) is Ok);
}

/// The number of slots of a file that is right up to there is rejected where it is not four. The
/// error holds the number.
pub proof fn law_number_of_slots_is_checked(s: Seq<u8>, n: u8)
    requires
        0x11 <= s.len() <= u32::MAX,
        s[0] == 0x42 && s[1] == 0x47 && s[2] == 0x4D && s[3] == 0x20,
        s[4] * 0x100_0000 + s[5] * 0x1_0000 + s[6] * 0x100 + s[7] == s.len(),
        forall|i: int| 8 <= i < 12 ==> 0 < #[trigger] s[i] < 0x80,
        forall|i: int| 12 <= i < 16 ==> #[trigger] s[i] == 0,
    ensures
        de::bgm_at(s) == Err::<(BgmView, nat), Failure>(
            Failure::Rejected(Error::InvalidNumSegments(n)),
        ) <==> s[0x10] == n && n != 4,
{
    lemma_header_error(s, Error::InvalidNumSegments(n));
    lemma_number_of_slots_error(s, n);
}

/// A file that is right up to its padding is rejected where a byte of that is not zero.
pub proof fn law_padding_is_checked(s: Seq<u8>, i: int)
    requires
        0x14 <= s.len() <= u32::MAX,
        s[0] == 0x42 && s[1] == 0x47 && s[2] == 0x4D && s[3] == 0x20,
        s[4] * 0x100_0000 + s[5] * 0x1_0000 + s[6] * 0x100 + s[7] == s.len(),
        forall|j: int| 8 <= j < 12 ==> 0 < #[trigger] s[j] < 0x80,
        s[0x10] == 4,
        12 <= i < 16 || 0x11 <= i < 0x14,
        s[i] != 0,
    ensures
        de::bgm_at(s) == Err::<(BgmView, nat), Failure>(Failure::Rejected(Error::NonZeroPadding)),
{
    assert(de::low_bits(s.len()) == s.len());
    assert(de::size_check(s) is Ok);
    let bytes = s.subrange(8, 12);
    assert(forall|j: int| 0 <= j < 4 ==> #[trigger] bytes[j] == s[8 + j]);
    assert(name::name_of(bytes) is Ok);
    assert(s[i] != 0);
    if !(12 <= i < 16) {
        assert(0x11 <= i < 0x11 + 3 && i < s.len() && s[i] != 0);
        assert(cursor::padding_at(s, 0x11, 3) is Err);
    }
}

proof fn lemma_trailing_padding_error(s: Seq<u8>, i: int)
    requires
        8 <= s.len() <= u32::MAX,
        s[0] == 0x42 && s[1] == 0x47 && s[2] == 0x4D && s[3] == 0x20,
        s.len() % 16 == 0,
        s[4] * 0x100_0000 + s[5] * 0x1_0000 + s[6] * 0x100 + s[7] <= i < s.len(),
        s.len() < s[4] * 0x100_0000 + s[5] * 0x1_0000 + s[6] * 0x100 + s[7] + 16,
        s[i] != 0,
    ensures
        de::header_at(s) == Err::<de::HeaderView, Error>(Error::NonZeroPadding),
{
    assert(de::low_bits(s.len()) == s.len());
    let size = cursor::u32_at(s, 4);
    assert(de::aligned(size as nat, 16) == s.len());
    assert(size <= i < size + (s.len() - size) && i < s.len() && s[i] != 0);
    assert(de::size_check(s) == Err::<(), Error>(Error::NonZeroPadding));
}

/// A file that is padded to a multiple of sixteen bytes is rejected where a byte of that is not
/// zero.
pub proof fn law_trailing_padding_is_checked(s: Seq<u8>, i: int)
    requires
        8 <= s.len() <= u32::MAX,
        s[0] == 0x42 && s[1] == 0x47 && s[2] == 0x4D && s[3] == 0x20,
        s.len() % 16 == 0,
        s[4] * 0x100_0000 + s[5] * 0x1_0000 + s[6] * 0x100 + s[7] <= i < s.len(),
        s.len() < s[4] * 0x100_0000 + s[5] * 0x1_0000 + s[6] * 0x100 + s[7] + 16,
        s[i] != 0,
    ensures
        de::bgm_at(s) == Err::<(BgmView, nat), Failure>(Failure::Rejected(Error::NonZeroPadding)),
{
    lemma_trailing_padding_error(s, i);
}

proof fn lemma_cut_header_error(s: Seq<u8>)
    requires
        8 <= s.len() < 0x24,
        s[0] == 0x42 && s[1] == 0x47 && s[2] == 0x4D && s[3] == 0x20,
        s[4] * 0x100_0000 + s[5] * 0x1_0000 + s[6] * 0x100 + s[7] == s.len(),
        forall|i: int| 8 <= i < 12 && i < s.len() ==> 0 < #[trigger] s[i] < 0x80,
        forall|i: int| 12 <= i < 16 && i < s.len() ==> #[trigger] s[i] == 0,
        s.len() > 0x10 ==> s[0x10] == 4,
        forall|i: int| 0x11 <= i < 0x14 && i < s.len() ==> #[trigger] s[i] == 0,
    ensures
        de::header_at(s) == Err::<de::HeaderView, Error>(Error::Io(IoError::UnexpectedEof)),
{
    assert(de::low_bits(s.len()) == s.len());
    assert(de::size_check(s) is Ok);
    if s.len() >= 12 {
        let bytes = s.subrange(8, 12);
        assert(forall|i: int| 0 <= i < 4 ==> #[trigger] bytes[i] == s[8 + i]);
        assert(name::name_of(bytes) is Ok);
    }
}

/// A file that is right as far as it goes is rejected for its end where that is within the header.
pub proof fn law_cut_header_is_rejected(s: Seq<u8>)
    requires
        8 <= s.len() < 0x24,
        s[0] == 0x42 && s[1] == 0x47 && s[2] == 0x4D && s[3] == 0x20,
        s[4] * 0x100_0000 + s[5] * 0x1_0000 + s[6] * 0x100 + s[7] == s.len(),
        forall|i: int| 8 <= i < 12 && i < s.len() ==> 0 < #[trigger] s[i] < 0x80,
        forall|i: int| 12 <= i < 16 && i < s.len() ==> #[trigger] s[i] == 0,
        s.len() > 0x10 ==> s[0x10] == 4,
        forall|i: int| 0x11 <= i < 0x14 && i < s.len() ==> #[trigger] s[i] == 0,
    ensures
        de::bgm_at(s) == Err::<(BgmView, nat), Failure>(
            Failure::Rejected(Error::Io(IoError::UnexpectedEof)),
        ),
{
    lemma_cut_header_error(s);
}

/// Whether the first thing that is wrong at four bytes of a segment is `failure`: they are cut off;
/// they play tracks, and their second byte is not zero; or they do, and the first entry of the
/// table that is not valid is cut off, or has commands that are not decoded.
pub open spec fn fails_at(s: Seq<u8>, base: int, p: int, failure: Failure) -> bool {
    let table = base + 4 * (s[p + 2] * 0x100 + s[p + 3]);
    if p + 4 > s.len() {
        failure == Failure::Rejected(Error::Io(IoError::UnexpectedEof))
    } else {
        &&& s[p] & 0x70 == 0x10
        &&& if s[p + 1] != 0 {
            failure == Failure::Rejected(Error::NonZeroPadding)
        } else {
            exists|k: int| 0 <= k < 16 && #[trigger] entry_fails(s, table, k, failure)
        }
    }
}

/// Whether entry `k` of the table at `table` is the first that is not valid, for `failure`.
pub open spec fn entry_fails(s: Seq<u8>, table: int, k: int, failure: Failure) -> bool {
    let entry = table + 4 * k;
    let offset = s[entry] * 0x100 + s[entry + 1];
    &&& forall|l: int| 0 <= l < k ==> #[trigger] is_valid_entry(s, table, l)
    &&& if entry + 4 > s.len() {
        failure == Failure::Rejected(Error::Io(IoError::UnexpectedEof))
    } else {
        offset != 0 && (sequence::sequence_at(s, table + offset) matches Err(e) && e == failure)
    }
}

proof fn lemma_entry_fails(s: Seq<u8>, table: int, k: int, failure: Failure, n: nat)
    requires
        0 <= table,
        0 <= k < n,
        entry_fails(s, table, k, failure),
    ensures
        de::tracks_at(s, table, n) matches Err(e) && e == failure,
    decreases n,
{
    let last = (n - 1) as nat;
    if k < last {
        lemma_entry_fails(s, table, k, failure, last);
    } else {
        lemma_tracks_decode(s, table, last);
    }
}

proof fn lemma_subsegment_fails(s: Seq<u8>, base: int, p: int, failure: Failure)
    requires
        0 <= base <= 0xFFFF,
        0 <= p,
        p + 4 <= s.len(),
        fails_at(s, base, p, failure),
    ensures
        de::subsegment_at(s, base, p) matches Err(e) && e == failure,
        cursor::u32_at(s, p) != 0,
{
    let flags = s[p];
    assert((flags & 0x70 == 0x10) == (flags / 0x10 % 8 == 1)) by (bit_vector);
    assert(flags != 0) by {
        assert(flags & 0x70 == 0x10 ==> flags != 0) by (bit_vector);
    }
    if s[p + 1] != 0 {
        assert(p + 1 <= p + 1 < p + 2 && p + 1 < s.len() && s[p + 1] != 0);
    } else {
        let table = base + 4 * (s[p + 2] * 0x100 + s[p + 3]);
        let k = choose|k: int| 0 <= k < 16 && #[trigger] entry_fails(s, table, k, failure);
        lemma_entry_fails(s, table, k, failure, 16);
    }
}

proof fn lemma_segment_fails(
    s: Seq<u8>,
    base: int,
    n: nat,
    failure: Failure,
    before: Seq<SubsegmentView>,
    reach: nat,
    a: nat,
)
    requires
        0 <= base <= 0xFFFF,
        a <= n,
        forall|b: int| 0 <= b < n ==> is_valid_subsegment(s, base, base + #[trigger] (4 * b)),
        n > 0 ==> base + 4 * n <= s.len(),
        fails_at(s, base, base + 4 * n, failure),
    ensures
        de::subsegments_from(s, base, before, reach, base + 4 * a) matches Err(e) && e == failure,
    decreases n - a,
{
    let p = base + 4 * a;
    if a < n {
        assert(is_valid_subsegment(s, base, base + 4 * (a as int)));
        lemma_subsegment_decodes(s, base, p);
        let (subsegment, end) = de::subsegment_at(s, base, p)->Ok_0;
        lemma_segment_fails(
            s,
            base,
            n,
            failure,
            before.push(subsegment),
            de::further(reach, end),
            a + 1,
        );
    } else if p + 4 <= s.len() {
        lemma_subsegment_fails(s, base, p, failure);
    }
}

proof fn lemma_slots_fail(
    s: Seq<u8>,
    offsets: Seq<u16>,
    lens: Seq<nat>,
    i: int,
    a: nat,
    failure: Failure,
    n: nat,
)
    requires
        0 <= i < n,
        forall|j: int|
            0 <= j < i ==> #[trigger] offsets[j] == 0 || is_valid_segment(
                s,
                offsets[j] as int,
                lens[j],
            ),
        offsets[i] != 0,
        forall|b: int|
            0 <= b < a ==> is_valid_subsegment(
                s,
                offsets[i] as int,
                offsets[i] + #[trigger] (4 * b),
            ),
        a > 0 ==> offsets[i] + 4 * a <= s.len(),
        fails_at(s, offsets[i] as int, offsets[i] + 4 * a, failure),
    ensures
        de::slots_at(s, offsets, n) matches Err(e) && e == failure,
    decreases n,
{
    let last = (n - 1) as nat;
    if i < last {
        lemma_slots_fail(s, offsets, lens, i, a, failure, last);
    } else {
        lemma_slots_decode(s, offsets, lens, last);
        lemma_segment_fails(s, offsets[i] as int, a, failure, Seq::empty(), 0, 0);
    }
}

/// A file with a valid header is rejected for the first thing that is wrong with its segments: slot
/// by slot, subsegment by subsegment, entry by entry.
pub proof fn law_first_failure_of_segments_is_reported(
    s: Seq<u8>,
    lens: Seq<nat>,
    i: int,
    a: nat,
    failure: Failure,
)
    requires
        0x24 <= s.len() <= u32::MAX,
        s[0] == 0x42 && s[1] == 0x47 && s[2] == 0x4D && s[3] == 0x20,
        s[4] * 0x100_0000 + s[5] * 0x1_0000 + s[6] * 0x100 + s[7] == s.len(),
        forall|j: int| 8 <= j < 12 ==> 0 < #[trigger] s[j] < 0x80,
        forall|j: int| 12 <= j < 16 ==> #[trigger] s[j] == 0,
        s[0x10] == 4,
        forall|j: int| 0x11 <= j < 0x14 ==> #[trigger] s[j] == 0,
        0 <= i < 4,
        forall|j: int|
            0 <= j < i ==> {
                let base = (s[0x14 + 2 * j] * 0x100 + s[0x15 + 2 * j]) * 4 % 0x1_0000;
                base == 0 || is_valid_segment(s, base, #[trigger] lens[j])
            },
        ({
            let base = (s[0x14 + 2 * i] * 0x100 + s[0x15 + 2 * i]) * 4 % 0x1_0000;
            &&& base != 0
            &&& forall|b: int| 0 <= b < a ==> is_valid_subsegment(s, base, base + #[trigger] (4 * b))
            &&& a > 0 ==> base + 4 * a <= s.len()
            &&& fails_at(s, base, base + 4 * a, failure)
        }),
    ensures
        de::bgm_at(s) == Err::<(BgmView, nat), Failure>(failure),
{
    lemma_header_decodes(s);
    let offsets = de::header_at(s)->Ok_0.segment_offsets;
    assert forall|j: int| 0 <= j < i implies #[trigger] offsets[j] == 0 || is_valid_segment(
        s,
        offsets[j] as int,
        lens[j],
    ) by {
        let base = (s[0x14 + 2 * j] * 0x100 + s[0x15 + 2 * j]) * 4 % 0x1_0000;
        assert(lens[j] == lens[j]);
        assert(offsets[j] == base);
    }
    lemma_slots_fail(s, offsets, lens, i, a, failure, 4);
}

/// A file whose header and segments are valid is rejected where its drums or voices go on past its
/// end.
pub proof fn law_cut_drums_and_voices_are_rejected(s: Seq<u8>, lens: Seq<nat>)
    requires
        0x24 <= s.len() <= u32::MAX,
        s[0] == 0x42 && s[1] == 0x47 && s[2] == 0x4D && s[3] == 0x20,
        s[4] * 0x100_0000 + s[5] * 0x1_0000 + s[6] * 0x100 + s[7] == s.len(),
        forall|i: int| 8 <= i < 12 ==> 0 < #[trigger] s[i] < 0x80,
        forall|i: int| 12 <= i < 16 ==> #[trigger] s[i] == 0,
        s[0x10] == 4,
        forall|i: int| 0x11 <= i < 0x14 ==> #[trigger] s[i] == 0,
        forall|i: int|
            0 <= i < 4 ==> {
                let base = (s[0x14 + 2 * i] * 0x100 + s[0x15 + 2 * i]) * 4 % 0x1_0000;
                base == 0 || is_valid_segment(s, base, #[trigger] lens[i])
            },
        ({
            let drums = (s[0x1C] * 0x100 + s[0x1D]) * 4;
            let drums_count = s[0x1E] * 0x100 + s[0x1F];
            let voices = (s[0x20] * 0x100 + s[0x21]) * 4;
            let voices_count = s[0x22] * 0x100 + s[0x23];
            ||| drums != 0 && drums_count > 0 && drums + 12 * drums_count > s.len()
            ||| voices != 0 && voices_count > 0 && voices + 8 * voices_count > s.len()
        }),
    ensures
        de::bgm_at(s) == Err::<(BgmView, nat), Failure>(
            Failure::Rejected(Error::Io(IoError::UnexpectedEof)),
        ),
{
    lemma_header_decodes(s);
    lemma_header_says_where(s);
    let header = de::header_at(s)->Ok_0;
    let offsets = header.segment_offsets;
    assert forall|i: int| 0 <= i < 4 implies #[trigger] offsets[i] == 0 || is_valid_segment(
        s,
        offsets[i] as int,
        lens[i],
    ) by {
        let base = (s[0x14 + 2 * i] * 0x100 + s[0x15 + 2 * i]) * 4 % 0x1_0000;
        assert(lens[i] == lens[i]);
        assert(offsets[i] == base);
    }
    lemma_slots_decode(s, offsets, lens, 4);
}

} // verus!
