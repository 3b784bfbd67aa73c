use bgm_codec::{
    Command, CommandRange, CommandSeq, Cursor, Error, Failure, Fault, IoError, Marker, MarkerRef,
    PlacedMarker, UnknownBytes,
};

fn eof() -> Failure {
    Failure::Rejected(Error::Io(IoError::UnexpectedEof))
}

fn decode(bytes: &[u8]) -> Result<Vec<Command>, Failure> {
    CommandSeq::try_decode(&mut Cursor::new(bytes)).map(|seq| seq.commands)
}

/// The one command that `bytes` are, before a terminator.
fn command(bytes: &[u8]) -> Command {
    let mut terminated = bytes.to_vec();
    terminated.push(0);
    let mut commands = decode(&terminated).unwrap();
    assert_eq!(commands.len(), 2);
    assert_eq!(commands.pop(), Some(Command::End));
    // Without the last byte there is no command.
    assert_eq!(decode(&bytes[..bytes.len() - 1]), Err(eof()));
    commands.pop().unwrap()
}

fn unknown(bytes: &[u8]) -> Command {
    Command::Unknown(UnknownBytes::from_slice(bytes))
}

fn marker_ref(offset: usize) -> MarkerRef {
    PlacedMarker::new(offset, Marker).downgrade()
}

fn marker(offset: usize) -> Command {
    Command::Marker(PlacedMarker::new(offset, Marker))
}

fn subroutine(name: &str, start: usize, end: usize) -> Command {
    Command::Subroutine(CommandRange {
        name: name.to_string(),
        start: marker_ref(start),
        end: marker_ref(end),
    })
}

#[test]
fn decodes_delays() {
    assert_eq!(command(&[0x01]), Command::Delay(1));
    assert_eq!(command(&[0x77]), Command::Delay(0x77));
    assert_eq!(command(&[0x78, 5]), unknown(&[0x78, 5]));
    assert_eq!(command(&[0x7F, 5]), unknown(&[0x7F, 5]));
}

#[test]
fn decodes_notes() {
    assert_eq!(
        command(&[0x80, 0x7F, 0x10]),
        Command::Note { pitch: 0x80, flag: false, velocity: 0x7F, length: 0x10 }
    );
    assert_eq!(
        command(&[0xD3, 1, 0xBF]),
        Command::Note { pitch: 0xD2, flag: true, velocity: 1, length: 0xBF }
    );
    assert_eq!(
        command(&[0x81, 2, 0xC0, 0x00]),
        Command::Note { pitch: 0x80, flag: true, velocity: 2, length: 0xC0 }
    );
    assert_eq!(
        command(&[0x90, 3, 0xC1, 0x05]),
        Command::Note { pitch: 0x90, flag: false, velocity: 3, length: 0x1C5 }
    );
    assert_eq!(
        command(&[0x90, 3, 0xFF, 0xFF]),
        Command::Note { pitch: 0x90, flag: false, velocity: 3, length: 0x40BF }
    );
    assert_eq!(command(&[0xD4]), unknown(&[0xD4]));
    assert_eq!(command(&[0xDF]), unknown(&[0xDF]));
}

#[test]
fn decodes_master_commands() {
    assert_eq!(command(&[0xE0, 0x01, 0x02]), Command::MasterTempo(0x102));
    assert_eq!(command(&[0xE1, 3]), Command::MasterVolume(3));
    assert_eq!(command(&[0xE2, 0x7F]), Command::MasterTranspose(127));
    assert_eq!(command(&[0xE2, 0x80]), Command::MasterTranspose(-128));
    assert_eq!(command(&[0xE2, 0xFF]), Command::MasterTranspose(-1));
    assert_eq!(command(&[0xE3, 4]), unknown(&[0xE3, 4]));
    assert_eq!(
        command(&[0xE4, 1, 2, 3, 4]),
        Command::MasterTempoFade { time: 0x102, bpm: 0x304 }
    );
    assert_eq!(
        command(&[0xE5, 1, 2, 3]),
        Command::MasterVolumeFade { time: 0x102, volume: 3 }
    );
    assert_eq!(command(&[0xE6, 9]), Command::MasterEffect(9));
    assert_eq!(command(&[0xE7]), unknown(&[0xE7]));
}

#[test]
fn decodes_track_commands() {
    assert_eq!(command(&[0xE8, 1, 2]), Command::TrackOverridePatch { bank: 1, patch: 2 });
    assert_eq!(command(&[0xE9, 1]), Command::SubTrackVolume(1));
    assert_eq!(command(&[0xEA, 2]), Command::SubTrackPan(2));
    assert_eq!(command(&[0xEB, 3]), Command::SubTrackReverb(3));
    assert_eq!(command(&[0xEC, 4]), Command::SegTrackVolume(4));
    assert_eq!(command(&[0xED, 5]), Command::SubTrackCoarseTune(5));
    assert_eq!(command(&[0xEE, 6]), Command::SubTrackFineTune(6));
    assert_eq!(command(&[0xEF, 7, 8]), Command::SegTrackTune { coarse: 7, fine: 8 });
    assert_eq!(
        command(&[0xF0, 1, 2, 3]),
        Command::TrackTremolo { amount: 1, speed: 2, unknown: 3 }
    );
    assert_eq!(command(&[0xF3]), Command::TrackTremoloStop);
    assert_eq!(command(&[0xF5, 1]), Command::TrackVoice(1));
    assert_eq!(
        command(&[0xF6, 1, 2, 3]),
        Command::TrackVolumeFade { time: 0x102, volume: 3 }
    );
    assert_eq!(command(&[0xF7, 2]), Command::SubTrackReverbType(2));
}

#[test]
fn keeps_unknown_commands() {
    let all: [&[u8]; 10] = [
        &[0xF1, 1],
        &[0xF2, 1],
        &[0xF4, 1, 2],
        &[0xF8],
        &[0xF9],
        &[0xFA],
        &[0xFB],
        &[0xFD, 1, 2, 3],
        &[0xFF, 1, 2, 3],
        &[0xDA],
    ];
    for bytes in all {
        match command(bytes) {
            Command::Unknown(kept) => assert_eq!(kept.as_slice(), bytes),
            other => panic!("{:?}", other),
        }
    }
}

#[test]
fn unknown_bytes_hold_a_copy() {
    let kept = UnknownBytes::from_slice(&[3, 1, 2]);
    assert_eq!(kept.as_slice(), &[3, 1, 2]);
    assert_eq!(UnknownBytes::from_slice(&[]).as_slice(), &[] as &[u8]);
    let many: Vec<u8> = (0..100).collect();
    assert_eq!(UnknownBytes::from_slice(&many).as_slice(), &many[..]);
}

#[test]
fn sequence_ends_at_terminator() {
    let bytes = [0x05, 0x00, 0x06, 0x00];
    let mut f = Cursor::new(&bytes);
    let seq = CommandSeq::decode(&mut f).unwrap();
    assert_eq!(seq.commands, vec![Command::Delay(5), Command::End]);
    assert_eq!(f.pos(), 2);
    let seq = CommandSeq::decode(&mut f).unwrap();
    assert_eq!(seq.commands, vec![Command::Delay(6), Command::End]);
    assert_eq!(f.pos(), 4);
    assert_eq!(
        CommandSeq::decode(&mut f),
        Err(Error::Io(IoError::UnexpectedEof))
    );
    f.seek_start(u64::MAX);
    assert_eq!(CommandSeq::try_decode(&mut f), Err(eof()));
}

#[test]
fn sequence_goes_on_until_markers_are_passed() {
    // A subroutine after the terminator, with a terminator of its own
    let bytes = [0xFE, 0, 5, 2, 0x00, 0x07, 0x00, 0x08, 0x00];
    let mut f = Cursor::new(&bytes);
    let seq = CommandSeq::decode(&mut f).unwrap();
    assert_eq!(
        seq.commands,
        vec![
            subroutine("Subroutine 0x0", 5, 7),
            Command::End,
            marker(5),
            Command::Delay(7),
            Command::End,
            marker(7),
        ]
    );
    assert_eq!(f.pos(), 7);
    // The marker lies past the end of the data.
    assert_eq!(decode(&[0xFE, 0, 5, 2, 0x00, 0x07]), Err(eof()));
}

#[test]
fn markers_may_be_within_commands() {
    // The end of the subroutine is the second byte of the volume command.
    let seq = decode(&[0xFE, 0, 4, 1, 0xE1, 0x20, 0x00]).unwrap();
    assert_eq!(
        seq,
        vec![
            subroutine("Subroutine 0x0", 4, 5),
            marker(4),
            Command::MasterVolume(0x20),
            marker(5),
            Command::End,
        ]
    );
}

#[test]
fn empty_subroutines_have_one_marker() {
    let seq = decode(&[0xFE, 0, 0, 0, 0x00]).unwrap();
    assert_eq!(seq, vec![marker(0), subroutine("Subroutine 0x0", 0, 0), Command::End]);
}

#[test]
fn subroutines_are_named_after_their_offset() {
    let mut bytes = vec![0x01; 0x1AB];
    bytes.extend_from_slice(&[0xFE, 0, 0, 1, 0x00]);
    let seq = decode(&bytes).unwrap();
    assert!(seq.contains(&subroutine("Subroutine 0x1AB", 0, 1)));
}

#[test]
fn what_follows_does_not_matter() {
    let bytes = [0xFE, 0, 5, 2, 0x00, 0x07, 0x00];
    let mut longer = bytes.to_vec();
    longer.extend_from_slice(&[0xFC, 0xFE, 0x90]);
    assert_eq!(decode(&bytes), decode(&longer));
}

#[test]
fn random_jumps_are_not_supported() {
    assert_eq!(decode(&[0xFC, 0, 0, 0]), Err(Failure::Unsupported(Fault::JumpRandom)));
    assert_eq!(decode(&[0xFC, 0, 0]), Err(eof()));
    assert_eq!(decode(&[0xFC]), Err(eof()));
}

#[test]
fn subroutines_before_the_start_are_not_supported() {
    let bytes = [0x00, 0xFE, 0, 0, 0, 0x00];
    let mut f = Cursor::new(&bytes);
    f.seek_start(1);
    assert_eq!(
        CommandSeq::try_decode(&mut f),
        Err(Failure::Unsupported(Fault::SubroutineBeforeStart))
    );
    let mut f = Cursor::new(&bytes[..4]);
    f.seek_start(1);
    assert_eq!(
        CommandSeq::try_decode(&mut f),
        Err(Failure::Unsupported(Fault::SubroutineBeforeStart))
    );
    let mut f = Cursor::new(&bytes[..3]);
    f.seek_start(1);
    assert_eq!(CommandSeq::try_decode(&mut f), Err(eof()));
    // From the start of the data it is fine.
    assert!(decode(&bytes[1..]).is_ok());
}

#[test]
fn finds_commands_by_time() {
    let seq = CommandSeq {
        commands: vec![
            marker(0),
            Command::Delay(0),
            Command::MasterVolume(1),
            Command::Delay(3),
            Command::Delay(2),
            Command::End,
        ],
    };
    assert_eq!(
        seq.at_time(0),
        vec![&marker(0), &Command::Delay(0), &Command::MasterVolume(1), &Command::Delay(3)]
    );
    assert!(seq.at_time(1).is_empty());
    assert_eq!(seq.at_time(3), vec![&Command::Delay(2)]);
    assert_eq!(seq.at_time(5), vec![&Command::End]);
    assert!(seq.at_time(6).is_empty());
    assert!(seq.at_time(usize::MAX).is_empty());
    let by_time: Vec<&Command> = (0..6).flat_map(|time| seq.at_time(time)).collect();
    assert_eq!(by_time, seq.commands.iter().collect::<Vec<_>>());
}

#[test]
fn new_sequences_are_empty() {
    let seq = CommandSeq::with_capacity(8);
    assert_eq!(seq.len(), 0);
    assert!(seq.at_time(0).is_empty());
}

#[test]
fn handles_are_on_the_markers_of_their_sequence() {
    let bytes = [0xFE, 0, 4, 1, 0x07, 0x00];
    let first = decode(&bytes).unwrap();
    let second = decode(&bytes).unwrap();
    let handles = |commands: &[Command]| -> Vec<MarkerRef> {
        match (&commands[0], &commands[1], &commands[3]) {
            (Command::Subroutine(range), Command::Marker(start), Command::Marker(end)) => {
                assert!(MarkerRef::ptr_eq(&range.start, &start.downgrade()));
                assert!(MarkerRef::ptr_eq(&range.end, &end.downgrade()));
                vec![start.downgrade(), end.downgrade()]
            }
            other => panic!("{:?}", other),
        }
    };
    let of_first = handles(&first);
    let of_second = handles(&second);
    assert!(!MarkerRef::ptr_eq(&of_first[0], &of_first[1]));
    // The same commands decoded twice have markers of their own.
    assert!(!MarkerRef::ptr_eq(&of_first[0], &of_second[0]));
    assert!(!MarkerRef::ptr_eq(&of_first[1], &of_second[1]));
}

#[test]
fn handles_after_the_terminator() {
    let seq = decode(&[0xFE, 0, 5, 1, 0x00, 0x02]).unwrap();
    assert_eq!(
        seq,
        vec![
            subroutine("Subroutine 0x0", 5, 6),
            Command::End,
            marker(5),
            Command::Delay(2),
            marker(6),
        ]
    );
    match (&seq[0], &seq[2], &seq[4]) {
        (Command::Subroutine(range), Command::Marker(a), Command::Marker(b)) => {
            assert!(MarkerRef::ptr_eq(&range.start, &a.downgrade()));
            assert!(MarkerRef::ptr_eq(&range.end, &b.downgrade()));
            assert!(!MarkerRef::ptr_eq(&range.start, &range.end));
        }
        other => panic!("{:?}", other),
    }
}
