//! Decoding a sequence of commands.

use vstd::prelude::*;
use vstd::string::*;

use crate::command;
use crate::command::{
    Command, CommandRange, CommandRangeView, CommandSeq, CommandView, Marker, MarkerView,
    UnknownBytes,
};
use crate::cursor;
use crate::cursor::Cursor;
use crate::error;
use crate::error::{Error, Failure, Fault};
use crate::offset_map;
use crate::offset_map::OffsetCommandMap;
use crate::text;

verus! {

/// Whether a command with first byte `op` plays a note.
pub open spec fn is_note(op: u8) -> bool {
    0x80 <= op <= 0xD3
}

/// The bytes that follow the first byte `op` of a command; of a note, up to the first byte of its
/// length.
pub open spec fn operand_len(op: u8) -> nat {
    if 0x78 <= op <= 0x7F {
        1
    } else if is_note(op) {
        2
    } else {
        match op {
            0xE0 => 2,
            0xE1 => 1,
            0xE2 => 1,
            0xE3 => 1,
            0xE4 => 4,
            0xE5 => 3,
            0xE6 => 1,
            0xE8 => 2,
            0xE9 => 1,
            0xEA => 1,
            0xEB => 1,
            0xEC => 1,
            0xED => 1,
            0xEE => 1,
            0xEF => 2,
            0xF0 => 3,
            0xF1 => 1,
            0xF2 => 1,
            0xF4 => 2,
            0xF5 => 1,
            0xF6 => 3,
            0xF7 => 1,
            0xFC => 3,
            0xFD => 3,
            0xFE => 3,
            0xFF => 3,
            _ => 0,
        }
    }
}

/// Whether the command at `pos` is a note whose length takes two bytes.
pub open spec fn is_long_note(s: Seq<u8>, pos: int) -> bool {
    is_note(s[pos]) && s[pos + 2] >= 0xC0
}

/// The bytes that the command at `pos` takes up.
pub open spec fn command_size(s: Seq<u8>, pos: int) -> nat {
    1 + operand_len(s[pos]) + if is_long_note(s, pos) {
        1nat
    } else {
        0nat
    }
}

/// Whether the data holds the whole of the command at `pos`.
pub open spec fn command_fits(s: Seq<u8>, pos: int) -> bool {
    &&& pos + 1 + operand_len(s[pos]) <= s.len()
    &&& pos + command_size(s, pos) <= s.len()
}

/// The note at `pos`.
pub open spec fn note_at(s: Seq<u8>, pos: int) -> CommandView {
    CommandView::Note {
        pitch: (s[pos] - s[pos] % 2) as u8,
        flag: s[pos] % 2 == 1,
        velocity: s[pos + 1],
        length: if is_long_note(s, pos) {
            (0xC0 + (s[pos + 2] - 0xC0) * 0x100 + s[pos + 3]) as u16
        } else {
            s[pos + 2] as u16
        },
    }
}

/// The command at `pos`, if it is neither a subroutine nor a random jump.
pub open spec fn plain_command_at(s: Seq<u8>, pos: int) -> CommandView {
    let op = s[pos];
    if op == 0 {
        CommandView::End
    } else if op <= 0x77 {
        CommandView::Delay(op)
    } else if is_note(op) {
        note_at(s, pos)
    } else {
        match op {
            0xE0 => CommandView::MasterTempo(cursor::u16_at(s, pos + 1)),
            0xE1 => CommandView::MasterVolume(s[pos + 1]),
            0xE2 => CommandView::MasterTranspose(cursor::signed(s[pos + 1])),
            0xE4 => CommandView::MasterTempoFade {
                time: cursor::u16_at(s, pos + 1),
                bpm: cursor::u16_at(s, pos + 3),
            },
            0xE5 => CommandView::MasterVolumeFade {
                time: cursor::u16_at(s, pos + 1),
                volume: s[pos + 3],
            },
            0xE6 => CommandView::MasterEffect(s[pos + 1]),
            0xE8 => CommandView::TrackOverridePatch { bank: s[pos + 1], patch: s[pos + 2] },
            0xE9 => CommandView::SubTrackVolume(s[pos + 1]),
            0xEA => CommandView::SubTrackPan(s[pos + 1]),
            0xEB => CommandView::SubTrackReverb(s[pos + 1]),
            0xEC => CommandView::SegTrackVolume(s[pos + 1]),
            0xED => CommandView::SubTrackCoarseTune(s[pos + 1]),
            0xEE => CommandView::SubTrackFineTune(s[pos + 1]),
            0xEF => CommandView::SegTrackTune { coarse: s[pos + 1], fine: s[pos + 2] },
            0xF0 => CommandView::TrackTremolo {
                amount: s[pos + 1],
                speed: s[pos + 2],
                unknown: s[pos + 3],
            },
            0xF3 => CommandView::TrackTremoloStop,
            0xF5 => CommandView::TrackVoice(s[pos + 1]),
            0xF6 => CommandView::TrackVolumeFade {
                time: cursor::u16_at(s, pos + 1),
                volume: s[pos + 3],
            },
            0xF7 => CommandView::SubTrackReverbType(s[pos + 1]),
            _ => CommandView::Unknown(s.subrange(pos, pos + command_size(s, pos))),
        }
    }
}

/// Reads what follows the first byte of a note.
fn decode_note(f: &mut Cursor, op: u8) -> (r: Result<Command, Error>)
    requires
        is_note(op),
        old(f).at() > 0,
        old(f).at() <= old(f).bytes().len(),
        op == old(f).bytes()[old(f).at() - 1],
    ensures
        final(f).bytes() == old(f).bytes(),
        ({
            let s = old(f).bytes();
            let pos = old(f).at() - 1;
            match r {
                Ok(command) => {
                    &&& command_fits(s, pos)
                    &&& command@ == note_at(s, pos)
                    &&& final(f).at() == pos + command_size(s, pos)
                },
                Err(e) => !command_fits(s, pos) && e == error::eof(),
            }
        }),
{
    let flag = (op & 1) != 0;
    let pitch = op & !1u8;
    assert((op & 1 != 0) == (op % 2 == 1)) by (bit_vector);
    assert(op & !1u8 == op - op % 2) by (bit_vector);
    let velocity = f.read_u8()?;
    let first_byte = f.read_u8()? as u16;
    let length = if first_byte < 0xC0 {
        first_byte
    } else {
        let second_byte = f.read_u8()? as u16;
        assert(0xC0 <= first_byte < 0x100 && second_byte < 0x100 ==> ((first_byte & !0xC0u16) << 8)
            | second_byte == (first_byte - 0xC0) * 0x100 + second_byte) by (bit_vector);
        0xC0 + (((first_byte & !0xC0u16) << 8) | second_byte)
    };
    Ok(Command::Note { pitch, flag, velocity, length })
}

/// Reads the `len` bytes that follow the first byte of a command whose meaning is not known.
fn decode_unknown(f: &mut Cursor, op: u8, len: u8) -> (r: Result<Command, Error>)
    requires
        old(f).at() > 0,
        old(f).at() <= old(f).bytes().len(),
        op == old(f).bytes()[old(f).at() - 1],
    ensures
        final(f).bytes() == old(f).bytes(),
        ({
            let s = old(f).bytes();
            let pos = old(f).at() - 1;
            match r {
                Ok(command) => {
                    &&& pos + 1 + len <= s.len()
                    &&& command@ == CommandView::Unknown(s.subrange(pos, pos + 1 + len))
                    &&& final(f).at() == pos + 1 + len
                },
                Err(e) => pos + 1 + len > s.len() && e == error::eof(),
            }
        }),
{
    let ghost s = f.bytes();
    let ghost pos = f.at() - 1;
    let mut bytes: Vec<u8> = Vec::with_capacity(4);
    bytes.push(op);
    assert(bytes@ =~= s.subrange(pos, pos + 1));
    let mut i: u8 = 0;
    while i < len
        invariant
            i <= len,
            s == old(f).bytes(),
            pos == old(f).at() - 1,
            pos >= 0,
            f.bytes() == s,
            f.at() == pos + 1 + i,
            pos + 1 + i <= s.len(),
            bytes@ == s.subrange(pos, pos + 1 + i),
        decreases len - i,
    {
        let byte = f.read_u8()?;
        bytes.push(byte);
        i += 1;
        assert(bytes@ =~= s.subrange(pos, pos + 1 + i));
    }
    Ok(Command::Unknown(UnknownBytes::from_slice(bytes.as_slice())))
}

/// Reads what follows the first byte `op` of a command.
fn decode_operands(f: &mut Cursor, op: u8) -> (r: Result<Command, Error>)
    requires
        op != 0xFC,
        op != 0xFE,
        old(f).at() > 0,
        old(f).at() <= old(f).bytes().len(),
        op == old(f).bytes()[old(f).at() - 1],
    ensures
        final(f).bytes() == old(f).bytes(),
        ({
            let s = old(f).bytes();
            let pos = old(f).at() - 1;
            match r {
                Ok(command) => {
                    &&& command_fits(s, pos)
                    &&& command@ == plain_command_at(s, pos)
                    &&& final(f).at() == pos + command_size(s, pos)
                },
                Err(e) => !command_fits(s, pos) && e == error::eof(),
            }
        }),
{
    match op {
        // Sentinel (zero-terminator)
        0x00 => Ok(Command::End),
        // Delay
        0x01..=0x77 => Ok(Command::Delay(op)),
        // Perhaps a long delay
        0x78..=0x7F => decode_unknown(f, op, 1),
        // Note
        0x80..=0xD3 => decode_note(f, op),
        0xE0 => Ok(Command::MasterTempo(f.read_u16_be()?)),
        0xE1 => Ok(Command::MasterVolume(f.read_u8()?)),
        0xE2 => Ok(Command::MasterTranspose(f.read_i8()?)),
        0xE3 => decode_unknown(f, op, 1),
        0xE4 => Ok(Command::MasterTempoFade { time: f.read_u16_be()?, bpm: f.read_u16_be()? }),
        0xE5 => Ok(Command::MasterVolumeFade { time: f.read_u16_be()?, volume: f.read_u8()? }),
        0xE6 => Ok(Command::MasterEffect(f.read_u8()?)),
        0xE7 => decode_unknown(f, op, 0),
        0xE8 => Ok(Command::TrackOverridePatch { bank: f.read_u8()?, patch: f.read_u8()? }),
        0xE9 => Ok(Command::SubTrackVolume(f.read_u8()?)),
        0xEA => Ok(Command::SubTrackPan(f.read_u8()?)),
        0xEB => Ok(Command::SubTrackReverb(f.read_u8()?)),
        0xEC => Ok(Command::SegTrackVolume(f.read_u8()?)),
        0xED => Ok(Command::SubTrackCoarseTune(f.read_u8()?)),
        0xEE => Ok(Command::SubTrackFineTune(f.read_u8()?)),
        0xEF => Ok(Command::SegTrackTune { coarse: f.read_u8()?, fine: f.read_u8()? }),
        0xF0 => Ok(
            Command::TrackTremolo {
                amount: f.read_u8()?,
                speed: f.read_u8()?,
                unknown: f.read_u8()?,
            },
        ),
        0xF1 => decode_unknown(f, op, 1),
        0xF2 => decode_unknown(f, op, 1),
        0xF3 => Ok(Command::TrackTremoloStop),
        0xF4 => decode_unknown(f, op, 2),
        0xF5 => Ok(Command::TrackVoice(f.read_u8()?)),
        0xF6 => Ok(Command::TrackVolumeFade { time: f.read_u16_be()?, volume: f.read_u8()? }),
        0xF7 => Ok(Command::SubTrackReverbType(f.read_u8()?)),
        0xFD => decode_unknown(f, op, 3),
        0xFF => decode_unknown(f, op, 3),
        _ => decode_unknown(f, op, 0),
    }
}

/// The subroutine at `pos`, in a sequence that begins at `start`. The encoding gives where the
/// commands of the subroutine begin in the whole of the data, and how many bytes they take up.
pub open spec fn subroutine_at(s: Seq<u8>, start: int, pos: int) -> CommandRangeView {
    let first = cursor::u16_at(s, pos + 1) - start;
    CommandRangeView {
        name: "Subroutine 0x"@ + text::digits((pos - start) as nat, 16),
        start: MarkerView { offset: first as usize },
        end: MarkerView { offset: (first + s[pos + 3]) as usize },
    }
}

/// The command at `pos`, in a sequence that begins at `start`, and the bytes that it takes up.
pub open spec fn command_at(s: Seq<u8>, start: int, pos: int) -> Result<
    (CommandView, nat),
    Failure,
> {
    if pos >= s.len() {
        Err(Failure::Rejected(error::eof()))
    } else if s[pos] == 0xFC {
        if !command_fits(s, pos) {
            Err(Failure::Rejected(error::eof()))
        } else {
            Err(Failure::Unsupported(Fault::JumpRandom))
        }
    } else if s[pos] == 0xFE {
        if pos + 3 > s.len() {
            Err(Failure::Rejected(error::eof()))
        } else if cursor::u16_at(s, pos + 1) < start {
            Err(Failure::Unsupported(Fault::SubroutineBeforeStart))
        } else if !command_fits(s, pos) {
            Err(Failure::Rejected(error::eof()))
        } else {
            Ok((CommandView::Subroutine(subroutine_at(s, start, pos)), command_size(s, pos)))
        }
    } else if !command_fits(s, pos) {
        Err(Failure::Rejected(error::eof()))
    } else {
        Ok((plain_command_at(s, pos), command_size(s, pos)))
    }
}

/// `map` with the markers that `command` refers to.
pub open spec fn with_markers(map: Map<nat, CommandView>, command: CommandView) -> Map<
    nat,
    CommandView,
> {
    match command {
        CommandView::Subroutine(range) => map.insert(
            offset_map::marker_key(range.start.offset as nat),
            CommandView::Marker(range.start),
        ).insert(
            offset_map::marker_key(range.end.offset as nat),
            CommandView::Marker(range.end),
        ),
        _ => map,
    }
}

/// The name of a subroutine called by the command at `offset`.
fn subroutine_name(offset: usize) -> (r: String)
    ensures
        r@ == "Subroutine 0x"@ + text::digits(offset as nat, 16),
{
    let mut name = "Subroutine 0x".to_owned();
    text::push_hex(&mut name, offset as u64);
    name
}

/// Reads a command, and marks the places that it refers to.
fn decode_command(f: &mut Cursor, start: u64, commands: &mut OffsetCommandMap) -> (r: Result<
    Command,
    Failure,
>)
    requires
        old(commands).wf(),
        old(commands).linked(),
        start <= old(f).at(),
        old(f).at() == start || old(f).at() <= old(f).bytes().len(),
    ensures
        final(f).bytes() == old(f).bytes(),
        final(commands).wf(),
        final(commands).linked(),
        r matches Ok(command) ==> final(commands).links(command),
        match (r, command_at(old(f).bytes(), start as int, old(f).at() as int)) {
            (Ok(command), Ok((expected, size))) => {
                &&& command@ == expected
                &&& final(f).at() == old(f).at() + size
                &&& final(commands)@ == with_markers(old(commands)@, expected)
            },
            (Err(e), Err(expected)) => e == expected,
            _ => false,
        },
{
    proof {
        f.lemma_len();
    }
    let cmd_offset = (f.pos() - start) as usize;
    let cmd_byte = error::reject(f.read_u8())?;
    match cmd_byte {
        0xFC => {
            let _set_pos = error::reject(f.read_u16_be())?;
            let _count = error::reject(f.read_u8())?;
            Err(Failure::Unsupported(Fault::JumpRandom))
        },
        0xFE => {
            let target = error::reject(f.read_u16_be())? as u64;
            if target < start {
                return Err(Failure::Unsupported(Fault::SubroutineBeforeStart));
            }
            let start_offset = (target - start) as usize;
            let end_offset = start_offset + error::reject(f.read_u8())? as usize;
            Ok(
                Command::Subroutine(
                    CommandRange {
                        name: subroutine_name(cmd_offset),
                        start: commands.upsert_marker(start_offset, Marker),
                        end: commands.upsert_marker(end_offset, Marker),
                    },
                ),
            )
        },
        _ => error::reject(decode_operands(f, cmd_byte)),
    }
}

/// A command that was read, and how many bytes into its sequence it begins.
pub struct Entry {
    pub offset: nat,
    pub command: CommandView,
}

/// Whether one of `entries` is a terminator.
pub open spec fn has_end(entries: Seq<Entry>) -> bool {
    exists|i: int| 0 <= i < entries.len() && (#[trigger] entries[i]).command is End
}

/// Whether `command` refers to the marker at `offset`.
pub open spec fn refers_to(command: CommandView, offset: nat) -> bool {
    match command {
        CommandView::Subroutine(range) => range.start.offset == offset || range.end.offset
            == offset,
        _ => false,
    }
}

/// Whether one of `entries` refers to the marker at `offset`.
pub open spec fn is_marked(entries: Seq<Entry>, offset: nat) -> bool {
    exists|i: int|
        0 <= i < entries.len() && refers_to((#[trigger] entries[i]).command, offset)
}

/// Whether a sequence of which `entries` were read, and which goes on at `offset`, is complete: a
/// terminator was read, and every marker was passed. (A terminator may be followed by the
/// subroutines of the sequence.)
pub open spec fn is_complete(entries: Seq<Entry>, offset: nat) -> bool {
    &&& has_end(entries)
    &&& forall|m: nat| is_marked(entries, m) ==> m <= offset
}

/// The rest of the sequence that begins at `start`, from `pos` on, after `entries`: all commands,
/// and where the sequence ends.
pub open spec fn entries_from(s: Seq<u8>, start: int, entries: Seq<Entry>, pos: int) -> Result<
    (Seq<Entry>, int),
    Failure,
>
    decreases s.len() - pos,
{
    let offset = (pos - start) as nat;
    if is_complete(entries, offset) {
        Ok((entries, pos))
    } else {
        match command_at(s, start, pos) {
            Ok((command, size)) => if offset_map::key_fits(offset) {
                entries_from(s, start, entries.push(Entry { offset, command }), pos + size)
            } else {
                Err(Failure::Unsupported(Fault::OffsetOverflow))
            },
            Err(e) => Err(e),
        }
    }
}

/// The commands of a sequence and its markers, by key.
pub open spec fn layout(entries: Seq<Entry>) -> Map<nat, CommandView>
    decreases entries.len(),
{
    if entries.len() == 0 {
        Map::empty()
    } else {
        let entry = entries.last();
        with_markers(layout(entries.drop_last()), entry.command).insert(
            offset_map::command_key(entry.offset),
            entry.command,
        )
    }
}

/// The sequence of commands at `start`, with its markers among them, and where it ends.
pub open spec fn sequence_at(s: Seq<u8>, start: int) -> Result<(Seq<CommandView>, int), Failure> {
    match entries_from(s, start, Seq::empty(), start) {
        Ok((entries, end)) => Ok((offset_map::in_order(layout(entries)), end)),
        Err(e) => Err(e),
    }
}

/// Whether one of `entries` begins at `offset`.
pub open spec fn begins_at(entries: Seq<Entry>, offset: nat) -> bool {
    exists|i: int| 0 <= i < entries.len() && (#[trigger] entries[i]).offset == offset
}

/// What one more entry adds.
pub proof fn lemma_push_entry(entries: Seq<Entry>, entry: Entry)
    ensures
        has_end(entries.push(entry)) == (has_end(entries) || entry.command is End),
        forall|m: nat| #[trigger]
            is_marked(entries.push(entry), m) == (is_marked(entries, m) || refers_to(
                entry.command,
                m,
            )),
        forall|o: nat| #[trigger]
            begins_at(entries.push(entry), o) == (begins_at(entries, o) || entry.offset == o),
{
    let longer = entries.push(entry);
    assert(longer[entries.len() as int] == entry);
    assert(forall|i: int| 0 <= i < entries.len() ==> longer[i] == entries[i]);
    if has_end(entries) {
        let i = choose|i: int| 0 <= i < entries.len() && (#[trigger] entries[i]).command is End;
        assert(longer[i].command is End);
    }
    assert forall|m: nat| #[trigger] is_marked(longer, m) == (is_marked(entries, m) || refers_to(
        entry.command,
        m,
    )) by {
        if is_marked(entries, m) {
            let i = choose|i: int|
                0 <= i < entries.len() && refers_to((#[trigger] entries[i]).command, m);
            assert(refers_to(longer[i].command, m));
        }
    }
    assert forall|o: nat| #[trigger] begins_at(longer, o) == (begins_at(entries, o) || entry.offset
        == o) by {
        if begins_at(entries, o) {
            let i = choose|i: int|
                0 <= i < entries.len() && (#[trigger] entries[i]).offset == o;
            assert(longer[i].offset == o);
        }
    }
}

/// Which keys a sequence has: even ones for its commands, odd ones for the markers that these
/// refer to.
pub proof fn lemma_layout_keys(entries: Seq<Entry>)
    ensures
        forall|o: nat| #[trigger]
            layout(entries).contains_key(offset_map::command_key(o)) == begins_at(entries, o),
        forall|m: nat| #[trigger]
            layout(entries).contains_key(offset_map::marker_key(m)) == is_marked(entries, m),
        !layout(entries).contains_key(0),
    decreases entries.len(),
{
    if entries.len() > 0 {
        lemma_layout_keys(entries.drop_last());
        lemma_push_entry(entries.drop_last(), entries.last());
        assert(entries.drop_last().push(entries.last()) =~= entries);
    }
}

/// The last offset tells whether every marker was passed.
proof fn lemma_last_offset(entries: Seq<Entry>, offset: nat, last: nat)
    requires
        entries.len() > 0,
        forall|i: int| 0 <= i < entries.len() ==> (#[trigger] entries[i]).offset < offset,
        offset_map::is_last_offset(layout(entries), last),
    ensures
        last <= offset <==> (forall|m: nat| is_marked(entries, m) ==> m <= offset),
{
    let map = layout(entries);
    lemma_layout_keys(entries);
    assert(begins_at(entries, entries[0].offset));
    assert(map.contains_key(offset_map::command_key(entries[0].offset)));
    assert(map.dom().contains(offset_map::command_key(entries[0].offset)));
    let key = choose|key: nat| #[trigger]
        offset_map::is_last_key(map, key) && last == offset_map::offset_of(key);
    if last <= offset {
        assert forall|m: nat| is_marked(entries, m) implies m <= offset by {
            assert(map.contains_key(offset_map::marker_key(m)));
        }
    }
    if forall|m: nat| is_marked(entries, m) ==> m <= offset {
        if key % 2 == 1 {
            assert(key == offset_map::marker_key(key / 2));
        } else {
            assert(key == offset_map::command_key((key / 2 - 1) as nat));
            assert(begins_at(entries, (key / 2 - 1) as nat));
        }
    }
}

impl CommandSeq {
    /// Decodes the sequence at the position of `f`, and leaves `f` at its end. Where that fails,
    /// the position of `f` is unspecified.
    pub fn try_decode(f: &mut Cursor) -> (r: Result<CommandSeq, Failure>)
        ensures
            final(f).bytes() == old(f).bytes(),
            match (r, sequence_at(old(f).bytes(), old(f).at() as int)) {
                (Ok(seq), Ok((commands, end))) => {
                    &&& seq@ == commands
                    &&& command::holds_markers(seq.commands@)
                    &&& final(f).at() == end
                },
                (Err(e), Err(expected)) => e == expected,
                _ => false,
            },
    {
        let start = f.pos();
        // Maps the offset of each command to the command. In order, these are the sequence.
        let mut commands = OffsetCommandMap::new();
        let mut seen_terminator = false;
        let ghost s = f.bytes();
        let ghost mut entries: Seq<Entry> = Seq::empty();
        loop
            invariant
                s == old(f).bytes(),
                start == old(f).at(),
                f.bytes() == s,
                start <= f.at(),
                f.at() == start || f.at() <= s.len(),
                entries_from(s, start as int, Seq::empty(), start as int) == entries_from(
                    s,
                    start as int,
                    entries,
                    f.at() as int,
                ),
                commands.wf(),
                commands.linked(),
                commands@ == layout(entries),
                seen_terminator == has_end(entries),
                forall|i: int|
                    0 <= i < entries.len() ==> (#[trigger] entries[i]).offset < f.at() - start,
            ensures
                is_complete(entries, (f.at() - start) as nat),
            decreases s.len() - f.at(),
        {
            proof {
                f.lemma_len();
            }
            let cmd_offset = (f.pos() - start) as usize;
            if seen_terminator {
                // Sometimes there is a terminator followed by some marked commands (i.e. a
                // subroutine section), so keep reading until every marker has been passed.
                let last = commands.last_offset();
                proof {
                    lemma_last_offset(entries, cmd_offset as nat, last as nat);
                }
                if cmd_offset >= last {
                    break;
                }
            }
            let command = decode_command(f, start, &mut commands)?;
            if cmd_offset > usize::MAX / 2 - 1 {
                return Err(Failure::Unsupported(Fault::OffsetOverflow));
            }
            if let Command::End = command {
                seen_terminator = true;
            }
            proof {
                let entry = Entry { offset: cmd_offset as nat, command: command@ };
                let longer = entries.push(entry);
                lemma_push_entry(entries, entry);
                assert(longer.drop_last() =~= entries);
                entries = longer;
            }
            commands.insert(cmd_offset, command);
        }
        Ok(CommandSeq::from(commands))
    }

    /// Decodes the sequence at the position of `f`, which has to be one that is supported, and
    /// leaves `f` at its end. Where that fails, the position of `f` is unspecified.
    /// [`CommandSeq::try_decode`] takes any sequence.
    pub fn decode(f: &mut Cursor) -> (r: Result<CommandSeq, Error>)
        requires
            error::is_supported(sequence_at(old(f).bytes(), old(f).at() as int)),
        ensures
            final(f).bytes() == old(f).bytes(),
            match (r, sequence_at(old(f).bytes(), old(f).at() as int)) {
                (Ok(seq), Ok((commands, end))) => {
                    &&& seq@ == commands
                    &&& command::holds_markers(seq.commands@)
                    &&& final(f).at() == end
                },
                (Err(e), Err(expected)) => expected == Failure::Rejected(e),
                _ => false,
            },
    {
        match CommandSeq::try_decode(f) {
            Ok(seq) => Ok(seq),
            Err(failure) => Err(failure.into_error()),
        }
    }
}

} // verus!
