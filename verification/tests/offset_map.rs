use bgm_codec::{Command, CommandSeq, Marker, MarkerRef, OffsetCommandMap, PlacedMarker};

#[test]
fn keys_of_offsets() {
    assert_eq!(OffsetCommandMap::atob(0), 2);
    assert_eq!(OffsetCommandMap::atob(7), 16);
    assert_eq!(OffsetCommandMap::btoa(OffsetCommandMap::atob(7) - 1), 7);
    assert_eq!(OffsetCommandMap::btoa(OffsetCommandMap::atob(7)), 7);
    assert_eq!(OffsetCommandMap::btoa(OffsetCommandMap::atob(0)), 0);
    assert_eq!(OffsetCommandMap::btoa(0), 0);
}

#[test]
fn last_offset_of_map() {
    let mut map = OffsetCommandMap::new();
    assert_eq!(map.last_offset(), 0);
    map.insert(5, Command::End);
    assert_eq!(map.last_offset(), 5);
    map.upsert_marker(3, Marker);
    assert_eq!(map.last_offset(), 5);
    map.upsert_marker(5, Marker);
    assert_eq!(map.last_offset(), 5);
    map.upsert_marker(9, Marker);
    assert_eq!(map.last_offset(), 9);
}

#[test]
fn markers_are_found_again() {
    let mut map = OffsetCommandMap::new();
    let first = map.upsert_marker(4, Marker);
    let second = map.upsert_marker(6, Marker);
    let again = map.upsert_marker(4, Marker);
    assert!(MarkerRef::ptr_eq(&first, &again));
    assert!(!MarkerRef::ptr_eq(&first, &second));
    // A marker of another map is another marker.
    let other = OffsetCommandMap::new().upsert_marker(4, Marker);
    assert!(!MarkerRef::ptr_eq(&first, &other));
    let seq = CommandSeq::from(map);
    match (&seq.commands[0], &seq.commands[1]) {
        (Command::Marker(a), Command::Marker(b)) => {
            assert_eq!((a.offset, b.offset), (4, 6));
            assert!(MarkerRef::ptr_eq(&first, &a.downgrade()));
            assert!(MarkerRef::ptr_eq(&second, &b.downgrade()));
        }
        other => panic!("{:?}", other),
    }
    assert_eq!(seq.len(), 2);
}

#[test]
fn sequences_are_in_order_of_offsets() {
    let mut map = OffsetCommandMap::new();
    map.insert(9, Command::End);
    map.insert(0, Command::Delay(1));
    map.insert(4, Command::Delay(2));
    let handle = map.upsert_marker(4, Marker);
    assert_eq!(handle.offset, 4);
    map.insert(0, Command::Delay(3));
    let marker = PlacedMarker::new(4, Marker);
    assert_eq!(
        CommandSeq::from(map).commands,
        vec![Command::Delay(3), Command::Marker(marker), Command::Delay(2), Command::End]
    );
    assert_eq!(CommandSeq::from(OffsetCommandMap::new()).len(), 0);
}
