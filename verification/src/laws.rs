//! What holds of the decoder as a whole.

use vstd::prelude::*;

use crate::command;
use crate::command::{CommandView, MarkerView};
use crate::error::Failure;
use crate::offset_map;
use crate::sequence;
use crate::sequence::Entry;

verus! {

// Keys

/// The key of a command gives back its offset, and so does that of a marker:
/// [`crate::OffsetCommandMap::btoa`] is the inverse of [`crate::OffsetCommandMap::atob`].
pub proof fn law_keys_give_back_offsets(offset: nat)
    ensures
        offset_map::offset_of(offset_map::command_key(offset)) == offset,
        offset_map::offset_of(offset_map::marker_key(offset)) == offset,
{
}

/// Keys are in the order of offsets, and the key of a marker is between those of the commands
/// before its offset and those of the commands from its offset on.
pub proof fn law_keys_are_in_order(a: nat, b: nat)
    requires
        a < b,
    ensures
        offset_map::command_key(a) < offset_map::marker_key(b),
        offset_map::marker_key(b) < offset_map::command_key(b),
        offset_map::marker_key(a) < offset_map::marker_key(b),
        offset_map::command_key(a) < offset_map::command_key(b),
{
}

/// Where in the order of a map the value of a key is.
pub open spec fn position(map: Map<nat, CommandView>, key: nat) -> nat {
    offset_map::values_below(map, key).len()
}

proof fn lemma_position_below(map: Map<nat, CommandView>, key: nat, bound: nat)
    requires
        map.contains_key(key),
        key < bound,
    ensures
        position(map, key) < offset_map::values_below(map, bound).len(),
        offset_map::values_below(map, bound)[position(map, key) as int] == map[key],
    decreases bound,
{
    if key + 1 < bound {
        lemma_position_below(map, key, (bound - 1) as nat);
    }
}

proof fn lemma_key_at(map: Map<nat, CommandView>, i: int, bound: nat) -> (key: nat)
    requires
        0 <= i < offset_map::values_below(map, bound).len(),
    ensures
        key < bound,
        map.contains_key(key),
        position(map, key) == i,
    decreases bound,
{
    let last = (bound - 1) as nat;
    if i < offset_map::values_below(map, last).len() {
        lemma_key_at(map, i, last)
    } else {
        last
    }
}

/// The value of every key of a map is in its order, at a position of its own, and the positions are
/// in the order of the keys.
pub proof fn law_order_holds_every_value(map: Map<nat, CommandView>, a: nat, b: nat)
    requires
        map.contains_key(a),
        map.contains_key(b),
        a <= usize::MAX,
        b <= usize::MAX,
    ensures
        position(map, a) < offset_map::in_order(map).len(),
        offset_map::in_order(map)[position(map, a) as int] == map[a],
        a < b ==> position(map, a) < position(map, b),
{
    lemma_position_below(map, a, usize::MAX as nat + 1);
    if a < b {
        lemma_position_below(map, a, b);
    }
}

/// The order of a map holds nothing but values of its keys.
pub proof fn law_order_holds_only_values(map: Map<nat, CommandView>, i: int) -> (key: nat)
    requires
        0 <= i < offset_map::in_order(map).len(),
    ensures
        key <= usize::MAX,
        map.contains_key(key),
        position(map, key) == i,
        offset_map::in_order(map)[i] == map[key],
{
    let key = lemma_key_at(map, i, usize::MAX as nat + 1);
    lemma_position_below(map, key, usize::MAX as nat + 1);
    key
}

/// The last offset of a map is that of a command or marker in it, and none has a greater one.
pub proof fn law_last_offset_is_the_greatest(map: Map<nat, CommandView>, last: nat, offset: nat)
    requires
        !map.contains_key(0),
        offset_map::is_last_offset(map, last),
        map.contains_key(offset_map::command_key(offset)) || map.contains_key(
            offset_map::marker_key(offset),
        ),
    ensures
        offset <= last,
        map.contains_key(offset_map::command_key(last)) || map.contains_key(
            offset_map::marker_key(last),
        ),
{
    assert(!map.dom().is_empty()) by {
        assert(map.dom().contains(offset_map::command_key(offset)) || map.dom().contains(
            offset_map::marker_key(offset),
        ));
    }
    let key = choose|key: nat| #[trigger]
        offset_map::is_last_key(map, key) && last == offset_map::offset_of(key);
    assert(key == offset_map::command_key(last) || key == offset_map::marker_key(last));
}

// Sequences

/// Whether `entries` are the commands from `start` to `end`, one right after the other.
pub open spec fn is_run(s: Seq<u8>, start: int, entries: Seq<Entry>, end: int) -> bool
    decreases entries.len(),
{
    if entries.len() == 0 {
        end == start
    } else {
        let entry = entries.last();
        let pos = start + entry.offset;
        &&& is_run(s, start, entries.drop_last(), pos)
        &&& sequence::command_at(s, start, pos) == Ok::<(CommandView, nat), Failure>(
            (entry.command, (end - pos) as nat),
        )
        &&& pos < end <= s.len()
        &&& offset_map::key_fits(entry.offset)
    }
}

/// Whether a sequence could not have ended before any of `entries`.
pub open spec fn is_needed(entries: Seq<Entry>) -> bool {
    forall|k: int|
        0 <= k < entries.len() ==> !sequence::is_complete(
            entries.take(k),
            (#[trigger] entries[k]).offset,
        )
}

pub(crate) proof fn lemma_needed_push(entries: Seq<Entry>, entry: Entry)
    ensures
        is_needed(entries.push(entry)) <==> is_needed(entries) && !sequence::is_complete(
            entries,
            entry.offset,
        ),
{
    let longer = entries.push(entry);
    assert(longer.take(entries.len() as int) =~= entries);
    assert(longer[entries.len() as int] == entry);
    assert forall|k: int| 0 <= k < entries.len() implies longer.take(k) == entries.take(k)
        && longer[k] == #[trigger] entries[k] by {
        assert(longer.take(k) =~= entries.take(k));
    }
    if is_needed(longer) {
        assert forall|k: int| 0 <= k < entries.len() implies !sequence::is_complete(
            entries.take(k),
            (#[trigger] entries[k]).offset,
        ) by {
            assert(longer[k] == entries[k]);
        }
    }
}

proof fn lemma_entries_are_run(s: Seq<u8>, start: int, entries: Seq<Entry>, pos: int)
    requires
        0 <= start <= pos,
        is_run(s, start, entries, pos),
        is_needed(entries),
    ensures
        match sequence::entries_from(s, start, entries, pos) {
            Ok((all, end)) => {
                &&& is_run(s, start, all, end)
                &&& is_needed(all)
                &&& sequence::is_complete(all, (end - start) as nat)
                &&& end >= start
            },
            Err(_) => true,
        },
    decreases s.len() - pos,
{
    let offset = (pos - start) as nat;
    if !sequence::is_complete(entries, offset) && offset_map::key_fits(offset) {
        if let Ok((command, size)) = sequence::command_at(s, start, pos) {
            let longer = entries.push(Entry { offset, command });
            assert(longer.drop_last() =~= entries);
            lemma_needed_push(entries, Entry { offset, command });
            lemma_entries_are_run(s, start, longer, pos + size);
        }
    }
}

/// A sequence is made of the commands that stand one after the other from its start to its end, the
/// last of which completes it.
pub proof fn law_sequence_is_shortest_complete_run(s: Seq<u8>, start: int)
    requires
        0 <= start,
    ensures
        match sequence::entries_from(s, start, Seq::empty(), start) {
            Ok((entries, end)) => {
                &&& is_run(s, start, entries, end)
                &&& is_needed(entries)
                &&& sequence::is_complete(entries, (end - start) as nat)
            },
            Err(_) => true,
        },
{
    lemma_entries_are_run(s, start, Seq::empty(), start);
}

proof fn lemma_run_is_entries(s: Seq<u8>, start: int, entries: Seq<Entry>, end: int, k: nat)
    requires
        0 <= start,
        k <= entries.len(),
        is_run(s, start, entries, end),
        is_needed(entries),
        sequence::is_complete(entries, (end - start) as nat),
    ensures
        ({
            let pos = if k == entries.len() {
                end
            } else {
                start + entries[k as int].offset
            };
            &&& is_run(s, start, entries.take(k as int), pos)
            &&& sequence::entries_from(s, start, entries.take(k as int), pos) == Ok::<
                (Seq<Entry>, int),
                Failure,
            >((entries, end))
        }),
    decreases entries.len() - k,
{
    if k == entries.len() {
        assert(entries.take(k as int) =~= entries);
    } else {
        lemma_run_is_entries(s, start, entries, end, k + 1);
        let longer = entries.take(k as int + 1);
        assert(longer.drop_last() =~= entries.take(k as int));
        assert(longer.last() == entries[k as int]);
        assert(longer =~= entries.take(k as int).push(entries[k as int]));
    }
}

/// Of the runs of commands from `start`, the shortest complete one is the sequence there.
pub proof fn law_shortest_complete_run_is_sequence(
    s: Seq<u8>,
    start: int,
    entries: Seq<Entry>,
    end: int,
)
    requires
        0 <= start,
        is_run(s, start, entries, end),
        is_needed(entries),
        sequence::is_complete(entries, (end - start) as nat),
    ensures
        sequence::entries_from(s, start, Seq::empty(), start) == Ok::<(Seq<Entry>, int), Failure>(
            (entries, end),
        ),
{
    lemma_run_is_entries(s, start, entries, end, 0);
    assert(entries.take(0) =~= Seq::<Entry>::empty());
    lemma_first_offset(s, start, entries, end);
}

pub(crate) proof fn lemma_first_offset(s: Seq<u8>, start: int, entries: Seq<Entry>, end: int)
    requires
        is_run(s, start, entries, end),
    ensures
        entries.len() > 0 ==> entries[0].offset == 0,
        entries.len() == 0 ==> end == start,
    decreases entries.len(),
{
    if entries.len() > 0 {
        lemma_first_offset(s, start, entries.drop_last(), start + entries.last().offset);
    }
}

pub(crate) proof fn lemma_run_offsets(s: Seq<u8>, start: int, entries: Seq<Entry>, end: int)
    requires
        0 <= start,
        is_run(s, start, entries, end),
    ensures
        start <= end,
        entries.len() > 0 ==> end <= s.len(),
        forall|i: int|
            0 <= i < entries.len() ==> {
                &&& (#[trigger] entries[i]).offset < end - start
                &&& offset_map::key_fits(entries[i].offset)
                &&& !(entries[i].command is Marker)
            },
        forall|i: int, j: int|
            0 <= i < j < entries.len() ==> (#[trigger] entries[i]).offset < (
            #[trigger] entries[j]).offset,
    decreases entries.len(),
{
    if entries.len() > 0 {
        let rest = entries.drop_last();
        lemma_run_offsets(s, start, rest, start + entries.last().offset);
        assert forall|i: int| 0 <= i < entries.len() implies {
            &&& (#[trigger] entries[i]).offset < end - start
            &&& offset_map::key_fits(entries[i].offset)
            &&& !(entries[i].command is Marker)
        } by {
            if i < rest.len() {
                assert(rest[i] == entries[i]);
            }
        }
        assert forall|i: int, j: int| 0 <= i < j < entries.len() implies (
        #[trigger] entries[i]).offset < (#[trigger] entries[j]).offset by {
            assert(rest[i] == entries[i]);
            if j < rest.len() {
                assert(rest[j] == entries[j]);
            }
        }
    }
}

pub(crate) proof fn lemma_layout_values(entries: Seq<Entry>)
    requires
        forall|i: int, j: int|
            0 <= i < j < entries.len() ==> (#[trigger] entries[i]).offset < (
            #[trigger] entries[j]).offset,
    ensures
        forall|i: int|
            0 <= i < entries.len() ==> sequence::layout(entries)[offset_map::command_key(
                (#[trigger] entries[i]).offset,
            )] == entries[i].command,
        forall|m: nat|
            sequence::is_marked(entries, m) ==> #[trigger] sequence::layout(
                entries,
            )[offset_map::marker_key(m)] == CommandView::Marker(MarkerView { offset: m as usize }),
    decreases entries.len(),
{
    if entries.len() > 0 {
        let rest = entries.drop_last();
        let entry = entries.last();
        assert(forall|i: int| 0 <= i < rest.len() ==> rest[i] == entries[i]);
        lemma_layout_values(rest);
        sequence::lemma_push_entry(rest, entry);
        assert(rest.push(entry) =~= entries);
        assert forall|i: int| 0 <= i < entries.len() implies sequence::layout(
            entries,
        )[offset_map::command_key((#[trigger] entries[i]).offset)] == entries[i].command by {
            if i < rest.len() {
                assert(rest[i] == entries[i]);
                assert(entries[i].offset < entries[entries.len() - 1].offset);
            }
        }
    }
}

/// Where in its sequence the `i`-th of the commands that were read is.
pub open spec fn position_of_entry(entries: Seq<Entry>, i: int) -> nat {
    position(sequence::layout(entries), offset_map::command_key(entries[i].offset))
}

/// What a position of a decoded sequence holds: a command that was read, or a marker that one of
/// these refers to.
pub(crate) proof fn lemma_sequence_item(
    s: Seq<u8>,
    start: int,
    entries: Seq<Entry>,
    end: int,
    i: int,
) -> (key: nat)
    requires
        0 <= start,
        is_run(s, start, entries, end),
        0 <= i < offset_map::in_order(sequence::layout(entries)).len(),
    ensures
        key <= usize::MAX,
        sequence::layout(entries).contains_key(key),
        position(sequence::layout(entries), key) == i,
        ({
            let item = offset_map::in_order(sequence::layout(entries))[i];
            if key % 2 == 1 {
                &&& sequence::is_marked(entries, key / 2)
                &&& item == CommandView::Marker(MarkerView { offset: (key / 2) as usize })
                &&& key == offset_map::marker_key(key / 2)
            } else {
                &&& !(item is Marker)
                &&& exists|e: int|
                    0 <= e < entries.len() && item == (#[trigger] entries[e]).command && key
                        == offset_map::command_key(entries[e].offset)
            }
        }),
{
    let map = sequence::layout(entries);
    let key = law_order_holds_only_values(map, i);
    lemma_run_offsets(s, start, entries, end);
    sequence::lemma_layout_keys(entries);
    lemma_layout_values(entries);
    if key % 2 == 1 {
        assert(key == offset_map::marker_key(key / 2));
    } else {
        let offset = (key / 2 - 1) as nat;
        assert(key == offset_map::command_key(offset));
        assert(sequence::begins_at(entries, offset));
        let e = choose|e: int| 0 <= e < entries.len() && (#[trigger] entries[e]).offset == offset;
        assert(map[key] == entries[e].command);
    }
    key
}

/// A sequence is never empty: it holds a terminator.
pub proof fn law_sequence_has_end(s: Seq<u8>, start: int)
    requires
        0 <= start,
    ensures
        match sequence::sequence_at(s, start) {
            Ok((commands, _)) => commands.len() > 0 && commands.contains(CommandView::End),
            Err(_) => true,
        },
{
    law_sequence_is_shortest_complete_run(s, start);
    if let Ok((entries, end)) = sequence::entries_from(s, start, Seq::empty(), start) {
        let map = sequence::layout(entries);
        lemma_run_offsets(s, start, entries, end);
        sequence::lemma_layout_keys(entries);
        lemma_layout_values(entries);
        let e = choose|e: int| 0 <= e < entries.len() && (#[trigger] entries[e]).command is End;
        assert(sequence::begins_at(entries, entries[e].offset));
        let key = offset_map::command_key(entries[e].offset);
        assert(map.contains_key(key));
        law_order_holds_every_value(map, key, key);
        assert(offset_map::in_order(map)[position(map, key) as int] == CommandView::End);
    }
}

/// No marker of a sequence is past its end, and neither is the sequence past the end of the data.
pub proof fn law_markers_are_within_sequence(s: Seq<u8>, start: int, i: int)
    requires
        0 <= start,
        sequence::sequence_at(s, start) is Ok,
        0 <= i < sequence::sequence_at(s, start)->Ok_0.0.len(),
    ensures
        ({
            let (commands, end) = sequence::sequence_at(s, start)->Ok_0;
            &&& start < end <= s.len()
            &&& commands[i] matches CommandView::Marker(marker) ==> start + marker.offset <= end
        }),
{
    law_sequence_is_shortest_complete_run(s, start);
    let (entries, end) = sequence::entries_from(s, start, Seq::empty(), start)->Ok_0;
    lemma_run_offsets(s, start, entries, end);
    let key = lemma_sequence_item(s, start, entries, end, i);
}

/// The markers that a subroutine of a sequence refers to are in the sequence, and the one where its
/// commands begin is not after the one where they end.
pub proof fn law_subroutine_markers_are_in_sequence(s: Seq<u8>, start: int, i: int) -> (at: (
    int,
    int,
))
    requires
        0 <= start,
        sequence::sequence_at(s, start) is Ok,
        0 <= i < sequence::sequence_at(s, start)->Ok_0.0.len(),
        sequence::sequence_at(s, start)->Ok_0.0[i] is Subroutine,
    ensures
        ({
            let commands = sequence::sequence_at(s, start)->Ok_0.0;
            let range = commands[i]->Subroutine_0;
            &&& 0 <= at.0 <= at.1 < commands.len()
            &&& commands[at.0] == CommandView::Marker(range.start)
            &&& commands[at.1] == CommandView::Marker(range.end)
        }),
{
    law_sequence_is_shortest_complete_run(s, start);
    let (entries, end) = sequence::entries_from(s, start, Seq::empty(), start)->Ok_0;
    let map = sequence::layout(entries);
    let commands = offset_map::in_order(map);
    let key = lemma_sequence_item(s, start, entries, end, i);
    let e = choose|e: int|
        0 <= e < entries.len() && commands[i] == (#[trigger] entries[e]).command && key
            == offset_map::command_key(entries[e].offset);
    let range = commands[i]->Subroutine_0;
    let first = range.start.offset as nat;
    let last = range.end.offset as nat;
    lemma_run_offsets(s, start, entries, end);
    sequence::lemma_layout_keys(entries);
    lemma_layout_values(entries);
    assert(sequence::refers_to(entries[e].command, first));
    assert(sequence::refers_to(entries[e].command, last));
    assert(sequence::is_marked(entries, first) && sequence::is_marked(entries, last));
    assert(map.contains_key(offset_map::marker_key(first)));
    assert(map.contains_key(offset_map::marker_key(last)));
    lemma_run_commands(s, start, entries, end, e);
    law_order_holds_every_value(map, offset_map::marker_key(first), offset_map::marker_key(last));
    law_order_holds_every_value(map, offset_map::marker_key(last), offset_map::marker_key(last));
    (
        position(map, offset_map::marker_key(first)) as int,
        position(map, offset_map::marker_key(last)) as int,
    )
}

/// The commands of a run are what the data holds.
pub(crate) proof fn lemma_run_commands(s: Seq<u8>, start: int, entries: Seq<Entry>, end: int, e: int)
    requires
        0 <= start,
        is_run(s, start, entries, end),
        0 <= e < entries.len(),
    ensures
        sequence::command_at(s, start, start + entries[e].offset) matches Ok((command, _))
            && command == entries[e].command,
        entries[e].command matches CommandView::Subroutine(range) ==> range.start.offset
            <= range.end.offset && offset_map::key_fits(range.end.offset as nat),
    decreases entries.len(),
{
    if e < entries.len() - 1 {
        let rest = entries.drop_last();
        assert(rest[e] == entries[e]);
        lemma_run_commands(s, start, rest, start + entries.last().offset, e);
    }
}

/// A marker is in a sequence once, however many subroutines refer to it.
pub proof fn law_markers_are_unique(s: Seq<u8>, start: int, i: int, j: int)
    requires
        0 <= start,
        sequence::sequence_at(s, start) is Ok,
        0 <= i < sequence::sequence_at(s, start)->Ok_0.0.len(),
        0 <= j < sequence::sequence_at(s, start)->Ok_0.0.len(),
        sequence::sequence_at(s, start)->Ok_0.0[i] is Marker,
        sequence::sequence_at(s, start)->Ok_0.0[i] == sequence::sequence_at(s, start)->Ok_0.0[j],
    ensures
        i == j,
{
    law_sequence_is_shortest_complete_run(s, start);
    let (entries, end) = sequence::entries_from(s, start, Seq::empty(), start)->Ok_0;
    let a = lemma_sequence_item(s, start, entries, end, i);
    let b = lemma_sequence_item(s, start, entries, end, j);
}

/// Every marker of a sequence is one that a subroutine of the sequence refers to.
pub proof fn law_markers_are_referred_to(s: Seq<u8>, start: int, i: int) -> (by: int)
    requires
        0 <= start,
        sequence::sequence_at(s, start) is Ok,
        0 <= i < sequence::sequence_at(s, start)->Ok_0.0.len(),
        sequence::sequence_at(s, start)->Ok_0.0[i] is Marker,
    ensures
        ({
            let commands = sequence::sequence_at(s, start)->Ok_0.0;
            let marker = commands[i]->Marker_0;
            &&& 0 <= by < commands.len()
            &&& commands[by] matches CommandView::Subroutine(range) && (range.start == marker
                || range.end == marker)
        }),
{
    law_sequence_is_shortest_complete_run(s, start);
    let (entries, end) = sequence::entries_from(s, start, Seq::empty(), start)->Ok_0;
    let map = sequence::layout(entries);
    let key = lemma_sequence_item(s, start, entries, end, i);
    let m = key / 2;
    lemma_run_offsets(s, start, entries, end);
    sequence::lemma_layout_keys(entries);
    lemma_layout_values(entries);
    let e = choose|e: int|
        0 <= e < entries.len() && sequence::refers_to((#[trigger] entries[e]).command, m);
    assert(sequence::begins_at(entries, entries[e].offset));
    let other = offset_map::command_key(entries[e].offset);
    assert(map.contains_key(other));
    law_order_holds_every_value(map, other, other);
    position(map, other) as int
}

/// A sequence holds every command that was read, in the order in which they were read.
pub proof fn law_commands_keep_their_order(s: Seq<u8>, start: int, i: int, j: int)
    requires
        0 <= start,
        sequence::entries_from(s, start, Seq::empty(), start) is Ok,
        0 <= i < j < sequence::entries_from(s, start, Seq::empty(), start)->Ok_0.0.len(),
    ensures
        ({
            let entries = sequence::entries_from(s, start, Seq::empty(), start)->Ok_0.0;
            let commands = sequence::sequence_at(s, start)->Ok_0.0;
            let p = position_of_entry(entries, i);
            let q = position_of_entry(entries, j);
            &&& p < q < commands.len()
            &&& commands[p as int] == entries[i].command
            &&& commands[q as int] == entries[j].command
        }),
{
    law_sequence_is_shortest_complete_run(s, start);
    let (entries, end) = sequence::entries_from(s, start, Seq::empty(), start)->Ok_0;
    let map = sequence::layout(entries);
    lemma_run_offsets(s, start, entries, end);
    sequence::lemma_layout_keys(entries);
    lemma_layout_values(entries);
    let a = offset_map::command_key(entries[i].offset);
    let b = offset_map::command_key(entries[j].offset);
    assert(sequence::begins_at(entries, entries[i].offset));
    assert(sequence::begins_at(entries, entries[j].offset));
    assert(map.contains_key(a) && map.contains_key(b));
    law_order_holds_every_value(map, a, b);
    law_order_holds_every_value(map, b, b);
}

/// A marker is in a sequence after all commands that begin before its offset, and before all
/// others.
pub proof fn law_markers_stand_at_their_offsets(s: Seq<u8>, start: int, m: nat, e: int)
    requires
        0 <= start,
        sequence::entries_from(s, start, Seq::empty(), start) is Ok,
        sequence::is_marked(sequence::entries_from(s, start, Seq::empty(), start)->Ok_0.0, m),
        0 <= e < sequence::entries_from(s, start, Seq::empty(), start)->Ok_0.0.len(),
    ensures
        ({
            let entries = sequence::entries_from(s, start, Seq::empty(), start)->Ok_0.0;
            let commands = sequence::sequence_at(s, start)->Ok_0.0;
            let p = position(sequence::layout(entries), offset_map::marker_key(m));
            &&& p < commands.len()
            &&& commands[p as int] == CommandView::Marker(MarkerView { offset: m as usize })
            &&& entries[e].offset < m <==> position_of_entry(entries, e) < p
            &&& m <= entries[e].offset <==> p < position_of_entry(entries, e)
        }),
{
    law_sequence_is_shortest_complete_run(s, start);
    let (entries, end) = sequence::entries_from(s, start, Seq::empty(), start)->Ok_0;
    let map = sequence::layout(entries);
    lemma_run_offsets(s, start, entries, end);
    sequence::lemma_layout_keys(entries);
    lemma_layout_values(entries);
    let by = choose|i: int|
        0 <= i < entries.len() && sequence::refers_to((#[trigger] entries[i]).command, m);
    lemma_run_commands(s, start, entries, end, by);
    let a = offset_map::marker_key(m);
    let b = offset_map::command_key(entries[e].offset);
    assert(sequence::begins_at(entries, entries[e].offset));
    assert(map.contains_key(a) && map.contains_key(b));
    law_order_holds_every_value(map, a, b);
    law_order_holds_every_value(map, b, a);
}

// Time

/// The commands that come up at the times below `bound`, time after time.
pub open spec fn commands_before(commands: Seq<CommandView>, bound: nat) -> Seq<CommandView>
    decreases bound,
{
    if bound == 0 {
        Seq::empty()
    } else {
        let time = (bound - 1) as nat;
        commands_before(commands, time) + command::commands_at_time(commands, time)
    }
}

proof fn lemma_nothing_after_last(commands: Seq<CommandView>, time: nat)
    requires
        command::duration(commands) < time,
    ensures
        command::commands_at_time(commands, time) == Seq::<CommandView>::empty(),
    decreases commands.len(),
{
    if commands.len() > 0 {
        lemma_nothing_after_last(commands.drop_last(), time);
    }
}

proof fn lemma_commands_before_push(commands: Seq<CommandView>, bound: nat)
    requires
        commands.len() > 0,
    ensures
        commands_before(commands, bound) == if command::duration(commands.drop_last()) < bound {
            commands_before(commands.drop_last(), bound).push(commands.last())
        } else {
            commands_before(commands.drop_last(), bound)
        },
    decreases bound,
{
    if bound > 0 {
        let rest = commands.drop_last();
        let time = (bound - 1) as nat;
        lemma_commands_before_push(commands, time);
        if command::duration(rest) < time {
            lemma_nothing_after_last(rest, time);
            assert(commands_before(commands, bound) =~= commands_before(rest, bound).push(
                commands.last(),
            ));
        } else if command::duration(rest) == time {
            assert(commands_before(commands, bound) =~= commands_before(rest, bound).push(
                commands.last(),
            ));
        }
    }
}

proof fn lemma_commands_before_none(bound: nat)
    ensures
        commands_before(Seq::empty(), bound) == Seq::<CommandView>::empty(),
    decreases bound,
{
    if bound > 0 {
        lemma_commands_before_none((bound - 1) as nat);
        assert(commands_before(Seq::empty(), bound) =~= Seq::<CommandView>::empty());
    }
}

/// Every command comes up at one time: time after time, the commands that come up are the sequence.
pub proof fn law_times_cover_sequence(commands: Seq<CommandView>, bound: nat)
    requires
        command::duration(commands) < bound,
    ensures
        commands_before(commands, bound) == commands,
    decreases commands.len(),
{
    if commands.len() == 0 {
        lemma_commands_before_none(bound);
        assert(commands =~= Seq::<CommandView>::empty());
    } else {
        law_times_cover_sequence(commands.drop_last(), bound);
        lemma_commands_before_push(commands, bound);
        assert(commands.drop_last().push(commands.last()) =~= commands);
    }
}

/// A command by itself comes up at once; only a delay takes time, and as much as it says.
pub proof fn law_time_of_one_command(c: CommandView, time: nat)
    ensures
        command::commands_at_time(seq![c], time) == if time == 0 {
            seq![c]
        } else {
            Seq::empty()
        },
        command::duration(seq![c]) == match c {
            CommandView::Delay(ticks) => ticks as nat,
            _ => 0,
        },
{
    let one = seq![c];
    assert(one.drop_last() =~= Seq::<CommandView>::empty());
    assert(command::duration(one.drop_last()) == 0);
    assert(command::commands_at_time(one.drop_last(), time) == Seq::<CommandView>::empty());
    assert(Seq::<CommandView>::empty().push(c) =~= one);
}

/// Commands that follow others come up later, by as long as the others take.
pub proof fn law_times_add_up(a: Seq<CommandView>, b: Seq<CommandView>, time: nat)
    ensures
        command::duration(a + b) == command::duration(a) + command::duration(b),
        command::commands_at_time(a + b, time) == command::commands_at_time(a, time) + if time
            >= command::duration(a) {
            command::commands_at_time(b, (time - command::duration(a)) as nat)
        } else {
            Seq::empty()
        },
    decreases b.len(),
{
    if b.len() == 0 {
        assert(a + b =~= a);
        assert(command::commands_at_time(a, time) + Seq::<CommandView>::empty()
            =~= command::commands_at_time(a, time));
    } else {
        law_times_add_up(a, b.drop_last(), time);
        assert((a + b).drop_last() =~= a + b.drop_last());
        let later = (time - command::duration(a)) as nat;
        let earlier = command::commands_at_time(a, time);
        if time >= command::duration(a) {
            let rest = command::commands_at_time(b.drop_last(), later);
            assert((earlier + rest).push(b.last()) =~= earlier + rest.push(b.last()));
        }
    }
}

} // verus!
