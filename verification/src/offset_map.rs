//! The commands of a sequence by where they were read, and the markers between them.

use std::collections::BTreeMap;

use vstd::prelude::*;
use vstd::std_specs::btree::*;
use vstd::std_specs::cmp::*;
use vstd::std_specs::iter::*;

use crate::command;
use crate::command::{
    Command, CommandSeq, CommandView, Marker, MarkerRef, MarkerView, PlacedMarker,
};

verus! {

/// The key of the command at `offset`.
pub open spec fn command_key(offset: nat) -> nat {
    (offset + 1) * 2
}

/// The key of the marker at `offset`: just before the command there.
pub open spec fn marker_key(offset: nat) -> nat {
    (command_key(offset) - 1) as nat
}

/// The offset that `key` is the key of, be it that of a command or of a marker.
pub open spec fn offset_of(key: nat) -> nat {
    if key == 0 {
        0
    } else {
        ((key - 1) / 2) as nat
    }
}

/// Whether the keys of `offset` are machine numbers.
pub open spec fn key_fits(offset: nat) -> bool {
    command_key(offset) <= usize::MAX
}

/// Whether `key` is the greatest key of `map`.
pub open spec fn is_last_key(map: Map<nat, CommandView>, key: nat) -> bool {
    &&& map.contains_key(key)
    &&& forall|k: nat| #[trigger] map.contains_key(k) ==> k <= key
}

/// Whether `offset` is the offset of the greatest key of `map`, or zero where there is no key.
pub open spec fn is_last_offset(map: Map<nat, CommandView>, offset: nat) -> bool {
    if map.dom().is_empty() {
        offset == 0
    } else {
        exists|key: nat| #[trigger] is_last_key(map, key) && offset == offset_of(key)
    }
}

/// The values of the keys below `bound`, in the order of their keys.
pub open spec fn values_below(map: Map<nat, CommandView>, bound: nat) -> Seq<CommandView>
    decreases bound,
{
    if bound == 0 {
        Seq::empty()
    } else {
        let key = (bound - 1) as nat;
        if map.contains_key(key) {
            values_below(map, key).push(map[key])
        } else {
            values_below(map, key)
        }
    }
}

/// The values of `map` in the order of their keys.
pub open spec fn in_order(map: Map<nat, CommandView>) -> Seq<CommandView> {
    values_below(map, usize::MAX as nat + 1)
}

/// Commands and markers, by the offset they stand at.
#[derive(Debug)]
pub struct OffsetCommandMap {
    map: BTreeMap<usize, Command>,
}

impl View for OffsetCommandMap {
    type V = Map<nat, CommandView>;

    /// The commands and markers by key.
    closed spec fn view(&self) -> Map<nat, CommandView> {
        Map::new(
            |key: nat| key <= usize::MAX && self.map@.contains_key(key as usize),
            |key: nat| self.map@[key as usize]@,
        )
    }
}

impl OffsetCommandMap {
    /// Whether each key of a marker holds that marker.
    pub open spec fn wf(self) -> bool {
        forall|offset: nat| #[trigger]
            self@.contains_key(marker_key(offset)) ==> self@[marker_key(offset)]
                == CommandView::Marker(MarkerView { offset: offset as usize })
    }

    /// The marker at `offset`, if there is one.
    pub closed spec fn held(self, offset: nat) -> Option<PlacedMarker> {
        let key = marker_key(offset);
        if key <= usize::MAX && self.map@.contains_key(key as usize) {
            match self.map@[key as usize] {
                Command::Marker(marker) => Some(marker),
                _ => None,
            }
        } else {
            None
        }
    }

    /// Whether `handle` is on the marker that is where it says.
    pub open spec fn holds(self, handle: MarkerRef) -> bool {
        self.held(handle.offset as nat) matches Some(marker) && handle.is_on(marker)
    }

    /// Whether the map holds the markers that `command` refers to; of a marker, whether it is the
    /// one that the map holds at its offset.
    pub open spec fn links(self, command: Command) -> bool {
        match command {
            Command::Subroutine(range) => self.holds(range.start) && self.holds(range.end),
            Command::Marker(marker) => self.held(marker.offset as nat) == Some(marker),
            _ => true,
        }
    }

    /// Whether the map holds the markers that its commands refer to.
    pub closed spec fn linked(self) -> bool {
        forall|key: usize| #[trigger]
            self.map@.contains_key(key) ==> self.links(self.map@[key])
    }

    /// A map that holds nothing.
    pub fn new() -> (r: OffsetCommandMap)
        ensures
            r.wf(),
            r.linked(),
            r@ == Map::<nat, CommandView>::empty(),
    {
        let r = OffsetCommandMap { map: BTreeMap::new() };
        assert(r@ =~= Map::<nat, CommandView>::empty());
        r
    }

    /// Shifts an offset to the key of the command there. The shift makes room for a marker in
    /// front of every command; only the order of the keys matters.
    pub fn atob(offset: usize) -> (r: usize)
        requires
            key_fits(offset as nat),
        ensures
            r == command_key(offset as nat),
    {
        (offset + 1) * 2
    }

    /// Performs the inverse of [`OffsetCommandMap::atob`]. Lossy: the key of a marker gives the
    /// same offset as that of the command there.
    pub fn btoa(key: usize) -> (r: usize)
        ensures
            r == offset_of(key as nat),
    {
        if key == 0 {
            0
        } else {
            (key - 1) / 2
        }
    }

    /// Puts `command` at `offset`, in place of any command there.
    pub fn insert(&mut self, offset: usize, command: Command)
        requires
            old(self).wf(),
            key_fits(offset as nat),
        ensures
            final(self).wf(),
            final(self)@ == old(self)@.insert(command_key(offset as nat), command@),
            forall|o: nat| #[trigger] final(self).held(o) == old(self).held(o),
            old(self).linked() && old(self).links(command) ==> final(self).linked(),
    {
        self.map.insert(Self::atob(offset), command);
        assert(self@ =~= old(self)@.insert(command_key(offset as nat), command@));
    }

    /// Finds the marker at `offset`, or inserts `marker` there if there is none. Either way the
    /// result is a handle on the very marker that the map holds.
    pub fn upsert_marker(&mut self, offset: usize, marker: Marker) -> (r: MarkerRef)
        requires
            old(self).wf(),
            key_fits(offset as nat),
        ensures
            final(self).wf(),
            r@ == (MarkerView { offset }),
            final(self).holds(r),
            final(self)@ == old(self)@.insert(
                marker_key(offset as nat),
                CommandView::Marker(r@),
            ),
            old(self)@.contains_key(marker_key(offset as nat)) ==> {
                &&& final(self)@ == old(self)@
                &&& final(self).held(offset as nat) == old(self).held(offset as nat)
            },
            forall|o: nat| o != offset ==> #[trigger] final(self).held(o) == old(self).held(o),
            old(self).linked() ==> final(self).linked(),
    {
        let shifted_offset = Self::atob(offset) - 1;
        let ghost key = marker_key(offset as nat);
        assert(shifted_offset == key);
        match self.map.get(&shifted_offset) {
            Some(command) => {
                assert(self@.contains_key(key));
                match command {
                    Command::Marker(found) => {
                        assert(self@ =~= old(self)@.insert(key, CommandView::Marker(found@)));
                        return found.downgrade();
                    },
                    _ => {
                        assert(false);
                    },
                }
            },
            None => {},
        }
        let inserted = PlacedMarker::new(offset, marker);
        let handle = inserted.downgrade();
        self.map.insert(shifted_offset, Command::Marker(inserted));
        assert(self@ =~= old(self)@.insert(key, CommandView::Marker(handle@)));
        handle
    }

    /// The offset of the last key; zero if there is none.
    pub fn last_offset(&self) -> (r: usize)
        ensures
            is_last_offset(self@, r as nat),
    {
        let mut last: usize = 0;
        for item in iter: self.map.iter()
            invariant
                iter.seq() == IteratorSpec::remaining(&spec_btree_map_iter(&self.map)),
                iter.index() > 0 ==> self.map@.contains_key(last),
                iter.index() == 0 ==> last == 0,
                forall|i: int| 0 <= i < iter.index() ==> *(#[trigger] iter.seq()[i]).0 <= last,
        {
            assert(self.map@.contains_key(*iter.seq()[iter.index()].0));
            if *item.0 > last {
                last = *item.0;
            }
        }
        assert(forall|k: usize| #[trigger] self.map@.contains_key(k) ==> k <= last);
        proof {
            if self.map@.contains_key(last) {
                assert(self@.contains_key(last as nat));
                assert(is_last_key(self@, last as nat));
            } else {
                assert(self@.dom() =~= Set::<nat>::empty());
            }
        }
        Self::btoa(last)
    }
}

/// Keys at or above `bound` do not matter to the values below it.
proof fn lemma_values_below_extend(map: Map<nat, CommandView>, low: nat, high: nat)
    requires
        low <= high,
        forall|key: nat| #[trigger] map.contains_key(key) ==> key < low || high <= key,
    ensures
        values_below(map, high) == values_below(map, low),
    decreases high - low,
{
    if low < high {
        lemma_values_below_extend(map, low, (high - 1) as nat);
    }
}

/// What an increasing sequence of keys is.
proof fn lemma_increasing(keys: Seq<usize>)
    requires
        increasing_seq(keys),
    ensures
        forall|i: int, j: int| 0 <= i < j < keys.len() ==> keys[i] < keys[j],
{
    assert forall|i: int, j: int| 0 <= i < j < keys.len() implies keys[i] < keys[j] by {
        assert(OrdSpec::cmp_spec(&keys[i], &keys[j]) is Less);
    }
}

/// The values below the `n`-th of the keys of `map`, where `keys` lists them in order.
proof fn lemma_values_below_keys(map: Map<nat, CommandView>, keys: Seq<usize>, n: nat)
    requires
        n <= keys.len(),
        forall|i: int, j: int| 0 <= i < j < keys.len() ==> keys[i] < keys[j],
        forall|i: int| 0 <= i < keys.len() ==> map.contains_key(#[trigger] keys[i] as nat),
        forall|key: nat| #[trigger]
            map.contains_key(key) ==> key <= usize::MAX && keys.contains(key as usize),
    ensures
        values_below(
            map,
            if n == keys.len() {
                usize::MAX as nat + 1
            } else {
                keys[n as int] as nat
            },
        ) == Seq::new(n, |i: int| map[keys[i] as nat]),
    decreases n,
{
    let high = if n == keys.len() {
        usize::MAX as nat + 1
    } else {
        keys[n as int] as nat
    };
    let low = if n == 0 {
        0
    } else {
        keys[n - 1] as nat + 1
    };
    assert forall|key: nat| #[trigger] map.contains_key(key) implies key < low || high <= key by {
        let i = keys.index_of(key as usize);
        assert(keys[i] == key);
    }
    lemma_values_below_extend(map, low, high);
    if n > 0 {
        let m = (n - 1) as nat;
        lemma_values_below_keys(map, keys, m);
        assert(map.contains_key(keys[m as int] as nat));
        assert(Seq::new(n, |i: int| map[keys[i] as nat]) =~= Seq::new(
            m,
            |i: int| map[keys[i] as nat],
        ).push(map[keys[m as int] as nat]));
    } else {
        assert(Seq::new(n, |i: int| map[keys[i] as nat]) =~= Seq::<CommandView>::empty());
    }
}

/// The markers of a map are among its commands, where `keys` lists the keys of these.
proof fn lemma_markers_are_kept(map: OffsetCommandMap, keys: Seq<usize>, commands: Seq<Command>)
    requires
        commands.len() == keys.len(),
        forall|k: usize| #[trigger] map.map@.contains_key(k) ==> keys.contains(k),
        forall|i: int|
            0 <= i < keys.len() ==> map.map@.contains_key(#[trigger] keys[i]) && commands[i]
                == map.map@[keys[i]],
    ensures
        forall|o: nat| #[trigger]
            map.held(o) matches Some(marker) ==> commands.contains(Command::Marker(marker)),
        map.linked() ==> command::holds_markers(commands),
        map.linked() ==> forall|i: int|
            0 <= i < commands.len() ==> map.links(#[trigger] commands[i]),
{
    assert forall|o: nat| #[trigger] map.held(o) matches Some(marker) implies commands.contains(
        Command::Marker(map.held(o)->0),
    ) by {
        let key = marker_key(o) as usize;
        assert(map.map@.contains_key(key));
        let i = keys.index_of(key);
        assert(commands[i] == map.map@[keys[i]]);
    }
    if map.linked() {
        assert forall|i: int| 0 <= i < commands.len() implies map.links(
            #[trigger] commands[i],
        ) by {
            assert(map.map@.contains_key(keys[i]));
        }
        assert forall|i: int| 0 <= i < commands.len() implies ((
        #[trigger] commands[i]) matches Command::Subroutine(range) ==> command::has_marker(
            commands,
            range.start,
        ) && command::has_marker(commands, range.end)) by {
            assert(map.links(commands[i]));
            if let Command::Subroutine(range) = commands[i] {
                lemma_marker_is_kept(map, commands, range.start);
                lemma_marker_is_kept(map, commands, range.end);
            }
        }
    }
}

proof fn lemma_marker_is_kept(map: OffsetCommandMap, commands: Seq<Command>, handle: MarkerRef)
    requires
        map.holds(handle),
        commands.contains(Command::Marker(map.held(handle.offset as nat)->0)),
        forall|i: int| 0 <= i < commands.len() ==> map.links(#[trigger] commands[i]),
    ensures
        command::has_marker(commands, handle),
{
    let marker = map.held(handle.offset as nat)->0;
    let i = commands.index_of(Command::Marker(marker));
    assert(commands[i] == Command::Marker(marker));
    assert forall|j: int| 0 <= j < commands.len() implies ((
    #[trigger] commands[j]) matches Command::Marker(other) ==> other.offset == handle.offset
        ==> handle.is_on(other)) by {
        assert(map.links(commands[j]));
    }
}

impl From<OffsetCommandMap> for CommandSeq {
    fn from(map: OffsetCommandMap) -> (r: CommandSeq)
        ensures
            r@ == in_order(map@),
            forall|o: nat| #[trigger]
                map.held(o) matches Some(marker) ==> r.commands@.contains(Command::Marker(marker)),
            map.linked() ==> {
                &&& command::holds_markers(r.commands@)
                &&& forall|i: int|
                    0 <= i < r.commands@.len() ==> map.links(#[trigger] r.commands@[i])
            },
    {
        let mut keys: Vec<usize> = Vec::new();
        let items = map.map.iter();
        for item in iter: items
            invariant
                iter.seq() == IteratorSpec::remaining(&spec_btree_map_iter(&map.map)),
                keys@.len() == iter.index(),
                forall|i: int| 0 <= i < keys@.len() ==> #[trigger] keys@[i] == *iter.seq()[i].0,
        {
            keys.push(*item.0);
        }
        assert(keys@ =~= IteratorSpec::remaining(&items).map_values(
            |pair: (&usize, &Command)| *pair.0,
        ));
        proof {
            lemma_increasing(keys@);
        }
        assert(forall|i: int| 0 <= i < keys@.len() ==> map.map@.contains_key(#[trigger] keys@[i]));
        assert forall|k: usize| #[trigger] map.map@.contains_key(k) implies keys@.contains(k) by {
            let pair = (&k, &map.map@[k]);
            assert(IteratorSpec::remaining(&items).contains(pair));
            assert(keys@[IteratorSpec::remaining(&items).index_of(pair)] == k);
        }
        let ghost given = map;
        let ghost view = map@;
        let ghost held = map.map@;
        let mut map = map.map;
        let mut commands: Vec<Command> = Vec::new();
        let mut i: usize = 0;
        while i < keys.len()
            invariant
                i <= keys@.len(),
                commands@.len() == i,
                forall|j: int, k: int| 0 <= j < k < keys@.len() ==> keys@[j] < keys@[k],
                forall|j: int| 0 <= j < i ==> #[trigger] commands@[j] == held[keys@[j]],
                forall|j: int|
                    i <= j < keys@.len() ==> map@.contains_key(#[trigger] keys@[j])
                        && map@[keys@[j]] == held[keys@[j]],
            decreases keys.len() - i,
        {
            match map.remove(&keys[i]) {
                Some(command) => commands.push(command),
                None => {
                    assert(false);
                },
            }
            i += 1;
        }
        let r = CommandSeq { commands };
        proof {
            assert forall|key: nat| #[trigger] view.contains_key(key) implies key <= usize::MAX
                && keys@.contains(key as usize) by {
                assert(held.contains_key(key as usize));
            }
            assert(forall|j: int|
                0 <= j < keys@.len() ==> held.contains_key(#[trigger] keys@[j]));
            lemma_values_below_keys(view, keys@, keys@.len());
            assert(r@ =~= Seq::new(keys@.len(), |j: int| view[keys@[j] as nat]));
            lemma_markers_are_kept(given, keys@, r.commands@);
        }
        r
    }
}

impl vstd::std_specs::convert::FromSpecImpl<OffsetCommandMap> for CommandSeq {
    open spec fn obeys_from_spec() -> bool {
        false
    }

    open spec fn from_spec(map: OffsetCommandMap) -> CommandSeq {
        arbitrary()
    }
}

} // verus!
