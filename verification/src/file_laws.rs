//! What holds of whole files.

use vstd::prelude::*;

use crate::bgm::{BgmView, SubsegmentView};
use crate::cursor;
use crate::de;
use crate::error;
use crate::error::{Error, Failure};
use crate::laws;
use crate::name;
use crate::sequence;
use crate::sequence::Entry;

verus! {

// Rejection

/// Data that does not begin with the signature is rejected.
pub proof fn law_garbage_is_rejected(s: Seq<u8>)
    requires
        s.len() < 4 || cursor::u32_at(s, 0) != de::MAGIC,
    ensures
        de::bgm_at(s) == Err::<(BgmView, nat), Failure>(
            Failure::Rejected(
                if s.len() < 4 {
                    error::eof()
                } else {
                    Error::InvalidMagic
                },
            ),
        ),
{
}

proof fn lemma_size(s: Seq<u8>)
    requires
        8 <= s.len() <= u32::MAX,
        de::size_check(s) is Ok,
    ensures
        ({
            let size = cursor::u32_at(s, 4);
            &&& size <= s.len() < size + 16
            &&& size < s.len() ==> s.len() % 16 == 0
            &&& forall|i: int| size <= i < s.len() ==> s[i] == 0
        }),
{
    let size = cursor::u32_at(s, 4);
    assert(de::low_bits(s.len()) == s.len());
    if size != s.len() {
        assert(cursor::padding_at(s, size as int, s.len() - size) is Ok);
        assert forall|i: int| size <= i < s.len() implies s[i] == 0 by {
            if s[i] != 0 {
                assert(size <= i < size + (s.len() - size) && i < s.len() && s[i] != 0);
            }
        }
    }
}

proof fn lemma_name(bytes: Seq<u8>)
    requires
        name::name_of(bytes) is Ok,
    ensures
        name::name_of(bytes)->Ok_0.len() == bytes.len(),
        forall|i: int|
            0 <= i < bytes.len() ==> {
                &&& 0 < #[trigger] bytes[i] < 0x80
                &&& name::name_of(bytes)->Ok_0[i] == bytes[i] as char
            },
{
}

proof fn lemma_slots_len(s: Seq<u8>, offsets: Seq<u16>, n: nat)
    ensures
        de::slots_at(s, offsets, n) matches Ok((slots, _)) ==> slots.len() == n,
    decreases n,
{
    if n > 0 {
        lemma_slots_len(s, offsets, (n - 1) as nat);
    }
}

/// What a file that is decoded looks like: it begins with the signature; the size it gives is its
/// own, or falls short of it by less than sixteen zero bytes; its name is four ASCII characters; and
/// there are four slots for segments, and as many drums and voices as it says, if it says where they
/// are.
pub proof fn law_decoded_file_is_valid(s: Seq<u8>)
    requires
        s.len() <= u32::MAX,
        de::bgm_at(s) is Ok,
    ensures
        ({
            let song = de::bgm_at(s)->Ok_0.0;
            let size = cursor::u32_at(s, 4);
            &&& s.len() >= 0x24
            &&& cursor::u32_at(s, 0) == de::MAGIC
            &&& size <= s.len() < size + 16
            &&& size < s.len() ==> s.len() % 16 == 0
            &&& forall|i: int| size <= i < s.len() ==> s[i] == 0
            &&& forall|i: int| 8 <= i < 12 ==> 0 < #[trigger] s[i] < 0x80
            &&& song.index == Seq::new(4, |i: int| s[8 + i] as char)
            &&& song.segments.len() == 4
            &&& song.drums.len() == if cursor::u16_at(s, 0x1C) == 0 {
                0
            } else {
                cursor::u16_at(s, 0x1E) as nat
            }
            &&& song.voices.len() == if cursor::u16_at(s, 0x20) == 0 {
                0
            } else {
                cursor::u16_at(s, 0x22) as nat
            }
        }),
{
    let header = de::header_at(s)->Ok_0;
    let bytes = s.subrange(8, 12);
    lemma_size(s);
    lemma_name(bytes);
    lemma_slots_len(s, header.segment_offsets, 4);
    assert forall|i: int| 8 <= i < 12 implies 0 < #[trigger] s[i] < 0x80 by {
        assert(bytes[i - 8] == s[i]);
    }
    assert(header.index =~= Seq::new(4, |i: int| s[8 + i] as char)) by {
        assert(forall|i: int| 0 <= i < 4 ==> #[trigger] bytes[i] == s[8 + i]);
    }
}

// What follows

proof fn lemma_command_extends(s: Seq<u8>, t: Seq<u8>, start: int, pos: int)
    requires
        0 <= pos,
        sequence::command_at(s, start, pos) is Ok,
    ensures
        sequence::command_at(s + t, start, pos) == sequence::command_at(s, start, pos),
{
    let whole = s + t;
    assert(forall|i: int| 0 <= i < s.len() ==> whole[i] == s[i]);
    let size = sequence::command_size(s, pos);
    assert(sequence::command_size(whole, pos) == size);
    assert(whole.subrange(pos, pos + size) =~= s.subrange(pos, pos + size));
}

proof fn lemma_entries_extend(s: Seq<u8>, t: Seq<u8>, start: int, entries: Seq<Entry>, pos: int)
    requires
        0 <= start <= pos,
        sequence::entries_from(s, start, entries, pos) is Ok,
    ensures
        sequence::entries_from(s + t, start, entries, pos) == sequence::entries_from(
            s,
            start,
            entries,
            pos,
        ),
    decreases s.len() - pos,
{
    let offset = (pos - start) as nat;
    if !sequence::is_complete(entries, offset) {
        lemma_command_extends(s, t, start, pos);
        let (command, size) = sequence::command_at(s, start, pos)->Ok_0;
        lemma_entries_extend(s, t, start, entries.push(Entry { offset, command }), pos + size);
    }
}

/// A sequence that decodes is the same whatever follows the data.
pub proof fn law_sequence_extends(s: Seq<u8>, t: Seq<u8>, start: int)
    requires
        0 <= start,
        sequence::sequence_at(s, start) is Ok,
    ensures
        sequence::sequence_at(s + t, start) == sequence::sequence_at(s, start),
{
    lemma_entries_extend(s, t, start, Seq::empty(), start);
}

proof fn lemma_numbers_extend(s: Seq<u8>, t: Seq<u8>, pos: int)
    requires
        0 <= pos,
    ensures
        pos + 2 <= s.len() ==> cursor::u16_at(s + t, pos) == cursor::u16_at(s, pos),
        pos + 4 <= s.len() ==> cursor::u32_at(s + t, pos) == cursor::u32_at(s, pos),
{
}

proof fn lemma_padding_extends(s: Seq<u8>, t: Seq<u8>, pos: int, n: int)
    requires
        0 <= pos,
        0 < n,
        cursor::padding_at(s, pos, n) is Ok,
    ensures
        cursor::padding_at(s + t, pos, n) is Ok,
{
    let whole = s + t;
    assert forall|i: int| pos <= i < pos + n && i < whole.len() implies #[trigger] whole[i]
        == 0 by {
        assert(whole[i] == s[i]);
    }
}

proof fn lemma_tracks_extend(s: Seq<u8>, t: Seq<u8>, tracks_start: int, n: nat)
    requires
        0 <= tracks_start,
        de::tracks_at(s, tracks_start, n) is Ok,
    ensures
        de::tracks_at(s + t, tracks_start, n) == de::tracks_at(s, tracks_start, n),
    decreases n,
{
    if n > 0 {
        lemma_tracks_extend(s, t, tracks_start, (n - 1) as nat);
        let pos = tracks_start + 4 * (n - 1);
        lemma_numbers_extend(s, t, pos);
        lemma_numbers_extend(s, t, pos + 2);
        let commands_offset = cursor::u16_at(s, pos);
        if commands_offset != 0 {
            law_sequence_extends(s, t, tracks_start + commands_offset);
        }
    }
}

proof fn lemma_subsegment_extends(s: Seq<u8>, t: Seq<u8>, start: int, pos: int)
    requires
        0 <= start <= pos,
        de::subsegment_at(s, start, pos) is Ok,
    ensures
        de::subsegment_at(s + t, start, pos) == de::subsegment_at(s, start, pos),
{
    let whole = s + t;
    assert(whole[pos] == s[pos]);
    if de::plays_tracks(s[pos]) {
        lemma_padding_extends(s, t, pos + 1, 1);
        lemma_numbers_extend(s, t, pos + 2);
        lemma_tracks_extend(s, t, start + cursor::u16_at(s, pos + 2) * 4, 16);
    } else {
        assert(whole.subrange(pos + 1, pos + 4) =~= s.subrange(pos + 1, pos + 4));
    }
}

proof fn lemma_subsegments_extend(
    s: Seq<u8>,
    t: Seq<u8>,
    start: int,
    subsegments: Seq<SubsegmentView>,
    reach: nat,
    pos: int,
)
    requires
        0 <= start <= pos,
        de::subsegments_from(s, start, subsegments, reach, pos) is Ok,
    ensures
        de::subsegments_from(s + t, start, subsegments, reach, pos) == de::subsegments_from(
            s,
            start,
            subsegments,
            reach,
            pos,
        ),
    decreases s.len() - pos,
{
    lemma_numbers_extend(s, t, pos);
    if cursor::u32_at(s, pos) != 0 {
        lemma_subsegment_extends(s, t, start, pos);
        let (subsegment, end) = de::subsegment_at(s, start, pos)->Ok_0;
        lemma_subsegments_extend(
            s,
            t,
            start,
            subsegments.push(subsegment),
            de::further(reach, end),
            pos + 4,
        );
    }
}

proof fn lemma_slots_extend(s: Seq<u8>, t: Seq<u8>, offsets: Seq<u16>, n: nat)
    requires
        de::slots_at(s, offsets, n) is Ok,
    ensures
        de::slots_at(s + t, offsets, n) == de::slots_at(s, offsets, n),
    decreases n,
{
    if n > 0 {
        lemma_slots_extend(s, t, offsets, (n - 1) as nat);
        let offset = offsets[n - 1];
        if offset != 0 {
            lemma_subsegments_extend(s, t, offset as int, Seq::empty(), 0, offset as int);
        }
    }
}

proof fn lemma_drums_extend(s: Seq<u8>, t: Seq<u8>, offset: int, count: nat)
    requires
        0 <= offset,
        de::drums_at(s, offset, count) is Ok,
    ensures
        de::drums_at(s + t, offset, count) == de::drums_at(s, offset, count),
{
    let whole = s + t;
    if offset != 0 {
        let long = Seq::new(count, |i: int| de::drum_at(whole, offset + 12 * i));
        let short = Seq::new(count, |i: int| de::drum_at(s, offset + 12 * i));
        assert forall|i: int| 0 <= i < count implies long[i] == short[i] by {
            assert(forall|j: int| 0 <= j < s.len() ==> whole[j] == s[j]);
        }
        assert(long =~= short);
    }
}

proof fn lemma_voices_extend(s: Seq<u8>, t: Seq<u8>, offset: int, count: nat)
    requires
        0 <= offset,
        de::voices_at(s, offset, count) is Ok,
    ensures
        de::voices_at(s + t, offset, count) == de::voices_at(s, offset, count),
{
    let whole = s + t;
    if offset != 0 {
        let long = Seq::new(count, |i: int| de::voice_at(whole, offset + 8 * i));
        let short = Seq::new(count, |i: int| de::voice_at(s, offset + 8 * i));
        assert forall|i: int| 0 <= i < count implies long[i] == short[i] by {
            assert(forall|j: int| 0 <= j < s.len() ==> whole[j] == s[j]);
        }
        assert(long =~= short);
    }
}

/// `s` with zero bytes after it, up to a multiple of sixteen bytes.
pub open spec fn padded(s: Seq<u8>) -> Seq<u8> {
    s + Seq::new((de::aligned(s.len(), 16) - s.len()) as nat, |i: int| 0u8)
}

proof fn lemma_header_extends(s: Seq<u8>)
    requires
        padded(s).len() <= u32::MAX,
        de::header_at(s) is Ok,
        cursor::u32_at(s, 4) == s.len(),
    ensures
        de::header_at(padded(s)) == de::header_at(s),
{
    let whole = padded(s);
    let t = Seq::new((de::aligned(s.len(), 16) - s.len()) as nat, |i: int| 0u8);
    assert(forall|i: int| 0 <= i < s.len() ==> whole[i] == s[i]);
    lemma_numbers_extend(s, t, 0);
    lemma_numbers_extend(s, t, 4);
    assert(de::size_check(whole) is Ok) by {
        assert(de::low_bits(whole.len()) == whole.len());
        assert(forall|i: int| s.len() <= i < whole.len() ==> whole[i] == 0);
    }
    assert(whole.subrange(8, 12) =~= s.subrange(8, 12));
    lemma_padding_extends(s, t, 12, 4);
    lemma_padding_extends(s, t, 0x11, 3);
    assert(Seq::new(4, |i: int| de::segment_offset(whole, i)) =~= Seq::new(
        4,
        |i: int| de::segment_offset(s, i),
    ));
    lemma_numbers_extend(s, t, 0x1C);
    lemma_numbers_extend(s, t, 0x1E);
    lemma_numbers_extend(s, t, 0x20);
    lemma_numbers_extend(s, t, 0x22);
}

/// A file holds the same song when it is padded with zeros to a multiple of sixteen bytes.
pub proof fn law_padding_is_ignored(s: Seq<u8>)
    requires
        padded(s).len() <= u32::MAX,
        de::bgm_at(s) is Ok,
        cursor::u32_at(s, 4) == s.len(),
    ensures
        de::bgm_at(padded(s)) == de::bgm_at(s),
{
    let t = Seq::new((de::aligned(s.len(), 16) - s.len()) as nat, |i: int| 0u8);
    lemma_header_extends(s);
    let header = de::header_at(s)->Ok_0;
    lemma_slots_extend(s, t, header.segment_offsets, 4);
    lemma_drums_extend(s, t, header.drums_offset, header.drums_count);
    lemma_voices_extend(s, t, header.voices_offset, header.voices_count);
}

// Tracks

proof fn lemma_tracks_reach(s: Seq<u8>, tracks_start: int, n: nat)
    requires
        0 <= tracks_start,
    ensures
        de::tracks_at(s, tracks_start, n) matches Ok((tracks, reach)) ==> tracks.len() == n && reach
            <= s.len(),
    decreases n,
{
    if n > 0 {
        lemma_tracks_reach(s, tracks_start, (n - 1) as nat);
        let pos = tracks_start + 4 * (n - 1);
        let start = tracks_start + cursor::u16_at(s, pos);
        if let Ok((commands, end)) = sequence::sequence_at(s, start) {
            laws::law_sequence_has_end(s, start);
            laws::law_markers_are_within_sequence(s, start, 0);
        }
    }
}

/// Whether a subsegment that plays tracks plays those of the table at the position that it gives.
pub open spec fn plays_table(s: Seq<u8>, subsegment: SubsegmentView) -> bool {
    match subsegment {
        SubsegmentView::Tracks { decoded_pos, tracks, .. } => match decoded_pos {
            Some(pos) => match de::tracks_at(s, pos as int, 16) {
                Ok((table, _)) => tracks == table && tracks.len() == 16,
                Err(_) => false,
            },
            None => false,
        },
        SubsegmentView::Unknown { .. } => true,
    }
}

proof fn lemma_subsegments_play_tables(
    s: Seq<u8>,
    start: int,
    subsegments: Seq<SubsegmentView>,
    reach: nat,
    pos: int,
)
    requires
        0 <= start <= 0xFFFF,
        start <= pos,
        reach <= s.len(),
        forall|i: int| 0 <= i < subsegments.len() ==> plays_table(s, #[trigger] subsegments[i]),
    ensures
        match de::subsegments_from(s, start, subsegments, reach, pos) {
            Ok((all, end)) => {
                &&& end <= s.len()
                &&& forall|i: int| 0 <= i < all.len() ==> plays_table(s, #[trigger] all[i])
            },
            Err(_) => true,
        },
    decreases s.len() - pos,
{
    if pos + 4 <= s.len() && cursor::u32_at(s, pos) != 0 {
        if let Ok((subsegment, end)) = de::subsegment_at(s, start, pos) {
            if de::plays_tracks(s[pos]) {
                lemma_tracks_reach(s, start + cursor::u16_at(s, pos + 2) * 4, 16);
            }
            lemma_subsegments_play_tables(
                s,
                start,
                subsegments.push(subsegment),
                de::further(reach, end),
                pos + 4,
            );
        }
    }
}

/// Whether all subsegments of a segment play the tables at the positions that they give.
pub open spec fn slot_plays_tables(s: Seq<u8>, slot: Option<Seq<SubsegmentView>>) -> bool {
    match slot {
        Some(segment) => forall|i: int|
            0 <= i < segment.len() ==> plays_table(s, #[trigger] segment[i]),
        None => true,
    }
}

proof fn lemma_slots_play_tables(s: Seq<u8>, offsets: Seq<u16>, n: nat)
    ensures
        match de::slots_at(s, offsets, n) {
            Ok((slots, reach)) => {
                &&& slots.len() == n
                &&& reach <= s.len()
                &&& forall|i: int| 0 <= i < n ==> slot_plays_tables(s, #[trigger] slots[i])
            },
            Err(_) => true,
        },
    decreases n,
{
    if n > 0 {
        lemma_slots_play_tables(s, offsets, (n - 1) as nat);
        let offset = offsets[n - 1];
        lemma_subsegments_play_tables(s, offset as int, Seq::empty(), 0, offset as int);
    }
}

/// Reading the tracks of a file ends within the file.
pub proof fn law_tracks_are_within_file(s: Seq<u8>)
    requires
        de::bgm_at(s) is Ok,
    ensures
        de::bgm_at(s)->Ok_0.1 <= s.len(),
{
    lemma_slots_play_tables(s, de::header_at(s)->Ok_0.segment_offsets, 4);
}

/// Subsegments that give the same position for their tracks play the same sixteen tracks, in
/// whichever segments they are.
pub proof fn law_same_position_same_tracks(s: Seq<u8>, slot_a: int, a: int, slot_b: int, b: int)
    requires
        de::bgm_at(s) is Ok,
        0 <= slot_a < 4,
        0 <= slot_b < 4,
        de::bgm_at(s)->Ok_0.0.segments[slot_a] is Some,
        de::bgm_at(s)->Ok_0.0.segments[slot_b] is Some,
        0 <= a < de::bgm_at(s)->Ok_0.0.segments[slot_a]->0.len(),
        0 <= b < de::bgm_at(s)->Ok_0.0.segments[slot_b]->0.len(),
    ensures
        ({
            let segments = de::bgm_at(s)->Ok_0.0.segments;
            match (segments[slot_a]->0[a], segments[slot_b]->0[b]) {
                (
                    SubsegmentView::Tracks { decoded_pos: pos_a, tracks: tracks_a, .. },
                    SubsegmentView::Tracks { decoded_pos: pos_b, tracks: tracks_b, .. },
                ) => {
                    &&& pos_a is Some
                    &&& tracks_a.len() == 16
                    &&& pos_a == pos_b ==> tracks_a == tracks_b
                },
                _ => true,
            }
        }),
{
    lemma_slots_play_tables(s, de::header_at(s)->Ok_0.segment_offsets, 4);
    let segments = de::bgm_at(s)->Ok_0.0.segments;
    assert(slot_plays_tables(s, segments[slot_a]));
    assert(slot_plays_tables(s, segments[slot_b]));
    assert(plays_table(s, segments[slot_a]->0[a]));
    assert(plays_table(s, segments[slot_b]->0[b]));
}

} // verus!
