//! How commands are written, and that decoding them undoes it.

use vstd::prelude::*;

use crate::command::CommandView;
use crate::error::{Error, Failure, Fault, IoError};
use crate::laws;
use crate::offset_map;
use crate::sequence;
use crate::sequence::Entry;
use crate::text;

verus! {

// Commands

/// The two bytes that `n` is written as.
pub open spec fn word(n: int) -> Seq<u8> {
    seq![(n / 0x100) as u8, (n % 0x100) as u8]
}

/// The bytes that `command` is written as, in a sequence that begins `start` bytes into the file. A
/// marker is not written.
pub open spec fn encoded(command: CommandView, start: int) -> Seq<u8> {
    match command {
        CommandView::End => seq![0u8],
        CommandView::Delay(ticks) => seq![ticks],
        CommandView::Note { pitch, flag, velocity, length } => seq![
            (pitch + if flag {
                1int
            } else {
                0int
            }) as u8,
            velocity,
        ] + if length < 0xC0 {
            seq![length as u8]
        } else {
            word(0xC000 + (length - 0xC0))
        },
        CommandView::MasterTempo(bpm) => seq![0xE0u8] + word(bpm as int),
        CommandView::MasterVolume(volume) => seq![0xE1u8, volume],
        CommandView::MasterTranspose(amount) => seq![
            0xE2u8,
            (if amount < 0 {
                amount + 0x100
            } else {
                amount as int
            }) as u8,
        ],
        CommandView::MasterTempoFade { time, bpm } => seq![0xE4u8] + word(time as int) + word(
            bpm as int,
        ),
        CommandView::MasterVolumeFade { time, volume } => seq![0xE5u8] + word(time as int) + seq![
            volume,
        ],
        CommandView::MasterEffect(effect) => seq![0xE6u8, effect],
        CommandView::TrackOverridePatch { bank, patch } => seq![0xE8u8, bank, patch],
        CommandView::SubTrackVolume(volume) => seq![0xE9u8, volume],
        CommandView::SubTrackPan(pan) => seq![0xEAu8, pan],
        CommandView::SubTrackReverb(amount) => seq![0xEBu8, amount],
        CommandView::SegTrackVolume(volume) => seq![0xECu8, volume],
        CommandView::SubTrackCoarseTune(tune) => seq![0xEDu8, tune],
        CommandView::SubTrackFineTune(tune) => seq![0xEEu8, tune],
        CommandView::SegTrackTune { coarse, fine } => seq![0xEFu8, coarse, fine],
        CommandView::TrackTremolo { amount, speed, unknown } => seq![0xF0u8, amount, speed, unknown],
        CommandView::TrackTremoloStop => seq![0xF3u8],
        CommandView::TrackVoice(voice) => seq![0xF5u8, voice],
        CommandView::TrackVolumeFade { time, volume } => seq![0xF6u8] + word(time as int) + seq![
            volume,
        ],
        CommandView::SubTrackReverbType(kind) => seq![0xF7u8, kind],
        CommandView::Subroutine(range) => seq![0xFEu8] + word(start + range.start.offset) + seq![
            (range.end.offset - range.start.offset) as u8,
        ],
        CommandView::Unknown(bytes) => bytes,
        CommandView::Marker(_) => Seq::empty(),
    }
}

/// The bytes that a decoded command was read from: those that it is written as, byte for byte.
/// Where there is no command, why not.
pub proof fn law_command_is_what_its_bytes_say(s: Seq<u8>, start: int, pos: int)
    requires
        0 <= start <= pos,
    ensures
        match sequence::command_at(s, start, pos) {
            Ok((command, size)) => {
                &&& 0 < size && pos + size <= s.len()
                &&& encoded(command, start) == s.subrange(pos, pos + size)
                &&& match command {
                    CommandView::End => size == 1 && s[pos] == 0,
                    CommandView::Delay(ticks) => {
                        &&& size == 1
                        &&& 0x01 <= ticks <= 0x77
                        &&& s[pos] == ticks
                    },
                    CommandView::Note { pitch, flag, velocity, length } => {
                        &&& 0x80 <= s[pos] <= 0xD3
                        &&& pitch % 2 == 0
                        &&& s[pos] == pitch + if flag {
                            1int
                        } else {
                            0int
                        }
                        &&& s[pos + 1] == velocity
                        &&& length < 0xC0 ==> size == 3 && s[pos + 2] == length
                        &&& length >= 0xC0 ==> size == 4 && s[pos + 2] * 0x100 + s[pos + 3]
                            - 0xC000 == length - 0xC0
                    },
                    CommandView::MasterTempo(bpm) => {
                        &&& size == 3
                        &&& s[pos] == 0xE0
                        &&& s[pos + 1] * 0x100 + s[pos + 2] == bpm
                    },
                    CommandView::MasterVolume(volume) => {
                        &&& size == 2
                        &&& s[pos] == 0xE1
                        &&& s[pos + 1] == volume
                    },
                    CommandView::MasterTranspose(amount) => {
                        &&& size == 2
                        &&& s[pos] == 0xE2
                        &&& s[pos + 1] == amount || s[pos + 1] == amount + 0x100
                    },
                    CommandView::MasterTempoFade { time, bpm } => {
                        &&& size == 5
                        &&& s[pos] == 0xE4
                        &&& s[pos + 1] * 0x100 + s[pos + 2] == time
                        &&& s[pos + 3] * 0x100 + s[pos + 4] == bpm
                    },
                    CommandView::MasterVolumeFade { time, volume } => {
                        &&& size == 4
                        &&& s[pos] == 0xE5
                        &&& s[pos + 1] * 0x100 + s[pos + 2] == time
                        &&& s[pos + 3] == volume
                    },
                    CommandView::MasterEffect(effect) => {
                        &&& size == 2
                        &&& s[pos] == 0xE6
                        &&& s[pos + 1] == effect
                    },
                    CommandView::TrackOverridePatch { bank, patch } => {
                        &&& size == 3
                        &&& s[pos] == 0xE8
                        &&& s[pos + 1] == bank
                        &&& s[pos + 2] == patch
                    },
                    CommandView::SubTrackVolume(volume) => {
                        &&& size == 2
                        &&& s[pos] == 0xE9
                        &&& s[pos + 1] == volume
                    },
                    CommandView::SubTrackPan(pan) => {
                        &&& size == 2
                        &&& s[pos] == 0xEA
                        &&& s[pos + 1] == pan
                    },
                    CommandView::SubTrackReverb(amount) => {
                        &&& size == 2
                        &&& s[pos] == 0xEB
                        &&& s[pos + 1] == amount
                    },
                    CommandView::SegTrackVolume(volume) => {
                        &&& size == 2
                        &&& s[pos] == 0xEC
                        &&& s[pos + 1] == volume
                    },
                    CommandView::SubTrackCoarseTune(tune) => {
                        &&& size == 2
                        &&& s[pos] == 0xED
                        &&& s[pos + 1] == tune
                    },
                    CommandView::SubTrackFineTune(tune) => {
                        &&& size == 2
                        &&& s[pos] == 0xEE
                        &&& s[pos + 1] == tune
                    },
                    CommandView::SegTrackTune { coarse, fine } => {
                        &&& size == 3
                        &&& s[pos] == 0xEF
                        &&& s[pos + 1] == coarse
                        &&& s[pos + 2] == fine
                    },
                    CommandView::TrackTremolo { amount, speed, unknown } => {
                        &&& size == 4
                        &&& s[pos] == 0xF0
                        &&& s[pos + 1] == amount
                        &&& s[pos + 2] == speed
                        &&& s[pos + 3] == unknown
                    },
                    CommandView::TrackTremoloStop => size == 1 && s[pos] == 0xF3,
                    CommandView::TrackVoice(voice) => {
                        &&& size == 2
                        &&& s[pos] == 0xF5
                        &&& s[pos + 1] == voice
                    },
                    CommandView::TrackVolumeFade { time, volume } => {
                        &&& size == 4
                        &&& s[pos] == 0xF6
                        &&& s[pos + 1] * 0x100 + s[pos + 2] == time
                        &&& s[pos + 3] == volume
                    },
                    CommandView::SubTrackReverbType(kind) => {
                        &&& size == 2
                        &&& s[pos] == 0xF7
                        &&& s[pos + 1] == kind
                    },
                    CommandView::Subroutine(range) => {
                        &&& size == 4
                        &&& s[pos] == 0xFE
                        &&& s[pos + 1] * 0x100 + s[pos + 2] == start + range.start.offset
                        &&& s[pos + 3] == range.end.offset - range.start.offset
                        &&& range.name == "Subroutine 0x"@ + text::digits((pos - start) as nat, 16)
                    },
                    CommandView::Unknown(bytes) => {
                        &&& bytes == s.subrange(pos, pos + size)
                        &&& size == 1 ==> 0xD4 <= s[pos] <= 0xDF || s[pos] == 0xE7 || 0xF8 <= s[pos]
                            <= 0xFB
                        &&& size == 2 ==> 0x78 <= s[pos] <= 0x7F || s[pos] == 0xE3 || s[pos] == 0xF1
                            || s[pos] == 0xF2
                        &&& size == 3 ==> s[pos] == 0xF4
                        &&& size == 4 ==> s[pos] == 0xFD || s[pos] == 0xFF
                        &&& size <= 4
                    },
                    CommandView::Marker(_) => false,
                }
            },
            Err(Failure::Rejected(e)) => {
                &&& e == Error::Io(IoError::UnexpectedEof)
                &&& s.len() < pos + 5
            },
            Err(Failure::Unsupported(fault)) => {
                ||| fault == Fault::JumpRandom && s[pos] == 0xFC && pos + 4 <= s.len()
                ||| fault == Fault::SubroutineBeforeStart && s[pos] == 0xFE && pos + 3 <= s.len()
                    && s[pos + 1] * 0x100 + s[pos + 2] < start
            },
        },
        pos + 4 <= s.len() && s[pos] == 0xFC ==> sequence::command_at(s, start, pos) == Err::<
            (CommandView, nat),
            Failure,
        >(Failure::Unsupported(Fault::JumpRandom)),
        pos + 3 <= s.len() && s[pos] == 0xFE && s[pos + 1] * 0x100 + s[pos + 2] < start
            ==> sequence::command_at(s, start, pos) == Err::<(CommandView, nat), Failure>(
            Failure::Unsupported(Fault::SubroutineBeforeStart),
        ),
{
    if let Ok((command, size)) = sequence::command_at(s, start, pos) {
        assert(encoded(command, start) =~= s.subrange(pos, pos + size));
    }
}

/// Nothing but the bytes of a command matters to it: where the data holds all of them, there is
/// that command, whatever follows and whether or not anything does.
pub proof fn law_command_needs_only_its_bytes(
    s: Seq<u8>,
    t: Seq<u8>,
    start: int,
    pos: int,
    command: CommandView,
    size: nat,
)
    requires
        0 <= start <= pos,
        pos + size <= s.len(),
    ensures
        sequence::command_at(s + t, start, pos) == Ok::<(CommandView, nat), Failure>(
            (command, size),
        ) <==> sequence::command_at(s, start, pos) == Ok::<(CommandView, nat), Failure>(
            (command, size),
        ),
{
    let whole = s + t;
    assert(forall|i: int| 0 <= i < s.len() ==> whole[i] == s[i]);
    law_command_is_what_its_bytes_say(s, start, pos);
    law_command_is_what_its_bytes_say(whole, start, pos);
    assert(whole.subrange(pos, pos + size) =~= s.subrange(pos, pos + size));
}

/// The first byte of a note is its pitch, which is even, and one more where its flag is set: two
/// notes with the same pitch and flag have the same first byte.
pub proof fn law_notes_keep_their_first_byte(s: Seq<u8>, start: int, a: int, b: int)
    requires
        0 <= start <= a,
        start <= b,
        a + 4 <= s.len(),
        b + 4 <= s.len(),
        0x80 <= s[a] <= 0xD3,
        0x80 <= s[b] <= 0xD3,
    ensures
        match (sequence::command_at(s, start, a), sequence::command_at(s, start, b)) {
            (
                Ok((CommandView::Note { pitch: pitch_a, flag: flag_a, .. }, _)),
                Ok((CommandView::Note { pitch: pitch_b, flag: flag_b, .. }, _)),
            ) => {
                &&& pitch_a % 2 == 0 && pitch_b % 2 == 0
                &&& s[a] == if flag_a {
                    pitch_a + 1
                } else {
                    pitch_a as int
                }
                &&& s[a] == s[b] <==> pitch_a == pitch_b && flag_a == flag_b
            },
            _ => false,
        },
{
    law_command_is_what_its_bytes_say(s, start, a);
    law_command_is_what_its_bytes_say(s, start, b);
}

/// A subroutine begins at the address in the file that its command gives, and is as long as its
/// last byte says.
pub proof fn law_subroutine_spans_its_length(s: Seq<u8>, start: int, pos: int)
    requires
        0 <= start <= pos,
        pos + 4 <= s.len(),
        s[pos] == 0xFE,
        start <= s[pos + 1] * 0x100 + s[pos + 2],
    ensures
        match sequence::command_at(s, start, pos) {
            Ok((CommandView::Subroutine(range), size)) => {
                &&& size == 4
                &&& range.start.offset == s[pos + 1] * 0x100 + s[pos + 2] - start
                &&& range.end.offset - range.start.offset == s[pos + 3]
            },
            _ => false,
        },
{
    law_command_is_what_its_bytes_say(s, start, pos);
}

// Sequences

/// The bytes that `commands` are written as, one after the other.
pub open spec fn written(commands: Seq<CommandView>, start: int) -> Seq<u8>
    decreases commands.len(),
{
    if commands.len() == 0 {
        Seq::empty()
    } else {
        written(commands.drop_last(), start) + encoded(commands.last(), start)
    }
}

/// How many bytes into its sequence the `i`-th of `commands` is written.
pub open spec fn offset_in(commands: Seq<CommandView>, start: int, i: int) -> nat {
    written(commands.take(i), start).len()
}

/// Where entry `k` begins; where all of them end if there is none.
spec fn entry_pos(start: int, entries: Seq<Entry>, end: int, k: int) -> int {
    if k < entries.len() {
        start + entries[k].offset
    } else {
        end
    }
}

/// An entry is written up to where the next one begins.
proof fn lemma_entry_bytes(s: Seq<u8>, start: int, entries: Seq<Entry>, end: int, e: int)
    requires
        0 <= start,
        laws::is_run(s, start, entries, end),
        0 <= e < entries.len(),
    ensures
        start + entries[e].offset < entry_pos(start, entries, end, e + 1) <= s.len(),
        encoded(entries[e].command, start) == s.subrange(
            start + entries[e].offset,
            entry_pos(start, entries, end, e + 1),
        ),
        sequence::command_at(s, start, start + entries[e].offset) matches Ok((command, _))
            && command == entries[e].command,
    decreases entries.len(),
{
    let last = entries.len() - 1;
    let rest = entries.drop_last();
    if e < last {
        lemma_entry_bytes(s, start, rest, start + entries[last].offset, e);
        assert(rest[e] == entries[e]);
        if e + 1 < last {
            assert(rest[e + 1] == entries[e + 1]);
        }
    } else {
        law_command_is_what_its_bytes_say(s, start, start + entries[e].offset);
    }
}

/// The entries are split at any key into those below it and the others.
proof fn lemma_split(entries: Seq<Entry>, n: nat, bound: nat) -> (k: nat)
    requires
        n <= entries.len(),
        forall|i: int, j: int|
            0 <= i < j < entries.len() ==> (#[trigger] entries[i]).offset < (
            #[trigger] entries[j]).offset,
        forall|i: int|
            n <= i < entries.len() ==> offset_map::command_key((#[trigger] entries[i]).offset)
                >= bound,
    ensures
        k <= n,
        forall|i: int|
            0 <= i < k ==> offset_map::command_key((#[trigger] entries[i]).offset) < bound,
        forall|i: int|
            k <= i < entries.len() ==> offset_map::command_key((#[trigger] entries[i]).offset)
                >= bound,
    decreases n,
{
    if n == 0 {
        0
    } else if offset_map::command_key(entries[n - 1].offset) < bound {
        n
    } else {
        lemma_split(entries, (n - 1) as nat, bound)
    }
}

/// What the commands and markers below a key are written as.
proof fn lemma_written_below(
    s: Seq<u8>,
    start: int,
    entries: Seq<Entry>,
    end: int,
    bound: nat,
    k: nat,
)
    requires
        0 <= start,
        laws::is_run(s, start, entries, end),
        entries.len() > 0,
        k <= entries.len(),
        forall|i: int|
            0 <= i < k ==> offset_map::command_key((#[trigger] entries[i]).offset) < bound,
        forall|i: int|
            k <= i < entries.len() ==> offset_map::command_key((#[trigger] entries[i]).offset)
                >= bound,
    ensures
        start <= entry_pos(start, entries, end, k as int) <= s.len(),
        written(offset_map::values_below(sequence::layout(entries), bound), start) == s.subrange(
            start,
            entry_pos(start, entries, end, k as int),
        ),
    decreases bound,
{
    let map = sequence::layout(entries);
    laws::lemma_run_offsets(s, start, entries, end);
    laws::lemma_first_offset(s, start, entries, end);
    sequence::lemma_layout_keys(entries);
    laws::lemma_layout_values(entries);
    let reached = entry_pos(start, entries, end, k as int);
    if bound == 0 {
        assert(k == 0) by {
            if k > 0 {
                assert(offset_map::command_key(entries[0].offset) < bound);
            }
        }
        assert(s.subrange(start, reached) =~= Seq::<u8>::empty());
    } else {
        let key = (bound - 1) as nat;
        let below = offset_map::values_below(map, key);
        if k > 0 && offset_map::command_key(entries[k - 1].offset) == key {
            let e = k - 1;
            assert forall|i: int| 0 <= i < e implies offset_map::command_key(
                (#[trigger] entries[i]).offset,
            ) < key by {
                assert(entries[i].offset < entries[e].offset);
            }
            lemma_written_below(s, start, entries, end, key, e as nat);
            lemma_entry_bytes(s, start, entries, end, e);
            assert(sequence::begins_at(entries, entries[e].offset));
            assert(map.contains_key(key) && map[key] == entries[e].command);
            assert(below.push(map[key]).drop_last() =~= below);
            assert(s.subrange(start, reached) =~= s.subrange(start, start + entries[e].offset)
                + s.subrange(start + entries[e].offset, reached));
        } else {
            assert forall|i: int| 0 <= i < k implies offset_map::command_key(
                (#[trigger] entries[i]).offset,
            ) < key by {
                if i < k - 1 {
                    assert(entries[i].offset < entries[k - 1].offset);
                }
                assert(offset_map::command_key(entries[k - 1].offset) < bound);
            }
            lemma_written_below(s, start, entries, end, key, k);
            if map.contains_key(key) {
                if key % 2 == 1 {
                    assert(key == offset_map::marker_key(key / 2));
                    assert(map[key] is Marker);
                    assert(below.push(map[key]).drop_last() =~= below);
                    assert(written(below, start) + Seq::<u8>::empty() =~= written(below, start));
                } else {
                    let offset = (key / 2 - 1) as nat;
                    assert(key == offset_map::command_key(offset));
                    assert(sequence::begins_at(entries, offset));
                    let i = choose|i: int|
                        0 <= i < entries.len() && (#[trigger] entries[i]).offset == offset;
                    assert(offset_map::command_key(entries[i].offset) == key);
                    assert(false);
                }
            }
        }
    }
}

/// The values below a key come first in the order of a map.
proof fn lemma_take_below(map: Map<nat, CommandView>, key: nat, bound: nat)
    requires
        key <= bound,
    ensures
        laws::position(map, key) <= offset_map::values_below(map, bound).len(),
        offset_map::values_below(map, bound).take(laws::position(map, key) as int)
            == offset_map::values_below(map, key),
    decreases bound,
{
    if key < bound {
        lemma_take_below(map, key, (bound - 1) as nat);
    }
    assert(offset_map::values_below(map, bound).take(laws::position(map, key) as int)
        =~= offset_map::values_below(map, key));
}

/// The commands of a sequence, written one after the other, are the bytes that it was read from.
pub proof fn law_sequence_is_written_out(s: Seq<u8>, start: int)
    requires
        0 <= start,
    ensures
        sequence::sequence_at(s, start) matches Ok((commands, end)) ==> {
            &&& start < end <= s.len()
            &&& written(commands, start) == s.subrange(start, end)
        },
{
    laws::law_sequence_is_shortest_complete_run(s, start);
    if let Ok((entries, end)) = sequence::entries_from(s, start, Seq::empty(), start) {
        laws::lemma_run_offsets(s, start, entries, end);
        assert forall|i: int| 0 <= i < entries.len() implies offset_map::command_key(
            (#[trigger] entries[i]).offset,
        ) < usize::MAX as nat + 1 by {}
        lemma_written_below(s, start, entries, end, usize::MAX as nat + 1, entries.len());
    }
}

/// Where item `i` of a sequence is written: its key, and how many entries come before it.
proof fn lemma_item_offset(s: Seq<u8>, start: int, entries: Seq<Entry>, end: int, i: int) -> (r: (
    nat,
    nat,
))
    requires
        0 <= start,
        laws::is_run(s, start, entries, end),
        0 <= i < offset_map::in_order(sequence::layout(entries)).len(),
    ensures
        ({
            let map = sequence::layout(entries);
            let commands = offset_map::in_order(map);
            let (key, k) = r;
            &&& key <= usize::MAX
            &&& map.contains_key(key)
            &&& laws::position(map, key) == i
            &&& commands[i] == map[key]
            &&& k <= entries.len()
            &&& start + offset_in(commands, start, i) == entry_pos(start, entries, end, k as int)
            &&& commands[i] is Marker ==> {
                &&& key % 2 == 1
                &&& commands[i]->Marker_0.offset == key / 2
                &&& forall|e: int|
                    0 <= e < entries.len() ==> ((#[trigger] entries[e]).offset < key / 2 <==> e < k)
            }
            &&& !(commands[i] is Marker) ==> {
                &&& k < entries.len()
                &&& commands[i] == entries[k as int].command
                &&& key == offset_map::command_key(entries[k as int].offset)
            }
        }),
{
    let map = sequence::layout(entries);
    let commands = offset_map::in_order(map);
    let key = laws::lemma_sequence_item(s, start, entries, end, i);
    laws::lemma_run_offsets(s, start, entries, end);
    let k = lemma_split(entries, entries.len(), key);
    lemma_take_below(map, key, usize::MAX as nat + 1);
    lemma_written_below(s, start, entries, end, key, k);
    assert(written(commands.take(i), start).len() == entry_pos(start, entries, end, k as int)
        - start);
    if !(commands[i] is Marker) {
        let e = choose|e: int|
            0 <= e < entries.len() && commands[i] == (#[trigger] entries[e]).command && key
                == offset_map::command_key(entries[e].offset);
        assert(e >= k);
        if e > k {
            assert(entries[k as int].offset < entries[e].offset);
            assert(offset_map::command_key(entries[k as int].offset) >= key);
        }
    }
    laws::law_order_holds_every_value(map, key, key);
    (key, k)
}

/// A marker is between the commands that begin before the place it marks and those that begin there
/// or after it.
pub proof fn law_marker_is_between_commands(s: Seq<u8>, start: int, i: int, j: int)
    requires
        0 <= start,
        sequence::sequence_at(s, start) is Ok,
        0 <= i < sequence::sequence_at(s, start)->Ok_0.0.len(),
        0 <= j < sequence::sequence_at(s, start)->Ok_0.0.len(),
        sequence::sequence_at(s, start)->Ok_0.0[i] is Marker,
        !(sequence::sequence_at(s, start)->Ok_0.0[j] is Marker),
    ensures
        ({
            let commands = sequence::sequence_at(s, start)->Ok_0.0;
            j < i <==> offset_in(commands, start, j) < commands[i]->Marker_0.offset
        }),
{
    laws::law_sequence_is_shortest_complete_run(s, start);
    let (entries, end) = sequence::entries_from(s, start, Seq::empty(), start)->Ok_0;
    let map = sequence::layout(entries);
    let (a, k) = lemma_item_offset(s, start, entries, end, i);
    let (b, e) = lemma_item_offset(s, start, entries, end, j);
    laws::law_order_holds_every_value(map, a, b);
    laws::law_order_holds_every_value(map, b, a);
    assert(entries[e as int].offset < a / 2 <==> e < k);
}

/// A subroutine is named after where in its sequence it is called, and ends within the sequence.
pub proof fn law_subroutine_is_named_after_its_offset(s: Seq<u8>, start: int, i: int)
    requires
        0 <= start,
        sequence::sequence_at(s, start) is Ok,
        0 <= i < sequence::sequence_at(s, start)->Ok_0.0.len(),
        sequence::sequence_at(s, start)->Ok_0.0[i] is Subroutine,
    ensures
        ({
            let (commands, end) = sequence::sequence_at(s, start)->Ok_0;
            let range = commands[i]->Subroutine_0;
            &&& range.name == "Subroutine 0x"@ + text::digits(offset_in(commands, start, i), 16)
            &&& range.start.offset <= range.end.offset <= end - start
        }),
{
    laws::law_sequence_is_shortest_complete_run(s, start);
    let (entries, end) = sequence::entries_from(s, start, Seq::empty(), start)->Ok_0;
    let (key, k) = lemma_item_offset(s, start, entries, end, i);
    let range = entries[k as int].command->Subroutine_0;
    lemma_entry_bytes(s, start, entries, end, k as int);
    law_command_is_what_its_bytes_say(s, start, start + entries[k as int].offset);
    assert(sequence::refers_to(entries[k as int].command, range.end.offset as nat));
    assert(sequence::is_marked(entries, range.end.offset as nat));
}

/// A sequence ends as soon as it can: before each of its commands, either no terminator has come
/// up, or a subroutine has whose commands go on past that place.
pub proof fn law_sequence_ends_as_soon_as_it_can(s: Seq<u8>, start: int, i: int)
    requires
        0 <= start,
        sequence::sequence_at(s, start) is Ok,
        0 <= i < sequence::sequence_at(s, start)->Ok_0.0.len(),
        !(sequence::sequence_at(s, start)->Ok_0.0[i] is Marker),
    ensures
        ({
            let commands = sequence::sequence_at(s, start)->Ok_0.0;
            ||| forall|j: int| 0 <= j < i ==> !((#[trigger] commands[j]) is End)
            ||| exists|j: int|
                0 <= j < i && ((#[trigger] commands[j]) matches CommandView::Subroutine(range)
                    && range.end.offset > offset_in(commands, start, i))
        }),
{
    laws::law_sequence_is_shortest_complete_run(s, start);
    let (entries, end) = sequence::entries_from(s, start, Seq::empty(), start)->Ok_0;
    let map = sequence::layout(entries);
    let commands = offset_map::in_order(map);
    let (key, k) = lemma_item_offset(s, start, entries, end, i);
    let before = entries.take(k as int);
    let offset = entries[k as int].offset;
    assert(!sequence::is_complete(before, offset));
    laws::lemma_run_offsets(s, start, entries, end);
    sequence::lemma_layout_keys(entries);
    laws::lemma_layout_values(entries);
    if sequence::has_end(before) {
        let m = choose|m: nat| sequence::is_marked(before, m) && m > offset;
        let x = choose|x: int|
            0 <= x < before.len() && sequence::refers_to((#[trigger] before[x]).command, m);
        assert(entries[x] == before[x]);
        laws::lemma_run_commands(s, start, entries, end, x);
        let other = offset_map::command_key(entries[x].offset);
        assert(sequence::begins_at(entries, entries[x].offset));
        assert(map.contains_key(other));
        laws::law_order_holds_every_value(map, other, key);
        let j = laws::position(map, other) as int;
        assert(0 <= j < i && commands[j] == entries[x].command);
    } else {
        assert forall|j: int| 0 <= j < i implies !((#[trigger] commands[j]) is End) by {
            let (other, x) = lemma_item_offset(s, start, entries, end, j);
            if commands[j] is End {
                laws::law_order_holds_every_value(map, key, other);
                assert(other < key);
                assert(x < k) by {
                    if x > k {
                        assert(entries[k as int].offset < entries[x as int].offset);
                    }
                }
                assert(before[x as int] == entries[x as int]);
            }
        }
    }
}

/// Commands that stand one after the other are a sequence where one of them is a terminator and
/// none of their subroutines goes on past their end, unless the same holds before one of them.
pub proof fn law_complete_commands_are_decoded(
    s: Seq<u8>,
    start: int,
    entries: Seq<Entry>,
    end: int,
)
    requires
        0 <= start,
        laws::is_run(s, start, entries, end),
        exists|e: int| 0 <= e < entries.len() && (#[trigger] entries[e]).command is End,
        forall|e: int|
            0 <= e < entries.len() ==> ((
            #[trigger] entries[e]).command matches CommandView::Subroutine(range)
                ==> range.end.offset <= end - start),
        forall|k: int|
            0 <= k < entries.len() ==> {
                ||| forall|e: int| 0 <= e < k ==> !((#[trigger] entries[e]).command is End)
                ||| exists|e: int|
                    0 <= e < k && ((
                    #[trigger] entries[e]).command matches CommandView::Subroutine(range)
                        && range.end.offset > (#[trigger] entries[k]).offset)
            },
    ensures
        sequence::sequence_at(s, start) matches Ok((_, reached)) && reached == end,
        sequence::entries_from(s, start, Seq::empty(), start)->Ok_0.0 == entries,
{
    laws::lemma_run_offsets(s, start, entries, end);
    let offset = (end - start) as nat;
    assert(sequence::is_complete(entries, offset)) by {
        assert(sequence::has_end(entries));
        assert forall|m: nat| sequence::is_marked(entries, m) implies m <= offset by {
            let e = choose|e: int|
                0 <= e < entries.len() && sequence::refers_to((#[trigger] entries[e]).command, m);
            laws::lemma_run_commands(s, start, entries, end, e);
        }
    }
    assert forall|k: int| 0 <= k < entries.len() implies !sequence::is_complete(
        entries.take(k),
        (#[trigger] entries[k]).offset,
    ) by {
        let before = entries.take(k);
        if sequence::is_complete(before, entries[k].offset) {
            let x = choose|x: int|
                0 <= x < before.len() && (#[trigger] before[x]).command is End;
            assert(entries[x].command is End);
            let e = choose|e: int|
                0 <= e < k && ((
                #[trigger] entries[e]).command matches CommandView::Subroutine(range)
                    && range.end.offset > entries[k].offset);
            let m = entries[e].command->Subroutine_0.end.offset as nat;
            assert(sequence::refers_to(before[e].command, m));
            assert(sequence::is_marked(before, m));
        }
    }
    laws::law_shortest_complete_run_is_sequence(s, start, entries, end);
}

/// A sequence that does not decode has a command that does not, right after others that do and that
/// do not make a sequence yet.
pub proof fn law_sequence_fails_at_a_command(s: Seq<u8>, start: int) -> (r: (Seq<Entry>, int))
    requires
        0 <= start,
        sequence::sequence_at(s, start) is Err,
    ensures
        laws::is_run(s, start, r.0, r.1),
        laws::is_needed(r.0),
        start <= r.1,
        !sequence::is_complete(r.0, (r.1 - start) as nat),
        match sequence::command_at(s, start, r.1) {
            Err(e) => sequence::sequence_at(s, start)->Err_0 == e,
            Ok(_) => {
                &&& sequence::sequence_at(s, start)->Err_0 == Failure::Unsupported(
                    Fault::OffsetOverflow,
                )
                &&& (r.1 - start + 1) * 2 > usize::MAX
            },
        },
{
    lemma_failing_entry(s, start, Seq::empty(), start)
}

proof fn lemma_failing_entry(s: Seq<u8>, start: int, entries: Seq<Entry>, pos: int) -> (r: (
    Seq<Entry>,
    int,
))
    requires
        0 <= start <= pos,
        laws::is_run(s, start, entries, pos),
        laws::is_needed(entries),
        sequence::entries_from(s, start, entries, pos) is Err,
    ensures
        laws::is_run(s, start, r.0, r.1),
        laws::is_needed(r.0),
        start <= r.1,
        !sequence::is_complete(r.0, (r.1 - start) as nat),
        match sequence::command_at(s, start, r.1) {
            Err(e) => sequence::entries_from(s, start, entries, pos)->Err_0 == e,
            Ok(_) => {
                &&& sequence::entries_from(s, start, entries, pos)->Err_0 == Failure::Unsupported(
                    Fault::OffsetOverflow,
                )
                &&& (r.1 - start + 1) * 2 > usize::MAX
            },
        },
    decreases s.len() - pos,
{
    let offset = (pos - start) as nat;
    match sequence::command_at(s, start, pos) {
        Ok((command, size)) => if offset_map::key_fits(offset) {
            let longer = entries.push(Entry { offset, command });
            assert(longer.drop_last() =~= entries);
            laws::lemma_needed_push(entries, Entry { offset, command });
            law_command_is_what_its_bytes_say(s, start, pos);
            lemma_failing_entry(s, start, longer, pos + size)
        } else {
            (entries, pos)
        },
        Err(_) => (entries, pos),
    }
}

} // verus!
