use std::rc::Rc;

use bgm_codec::{
    align, Bgm, Command, CommandRange, CommandSeq, Cursor, Decoded, Drum, Error, Failure, Fault,
    IoError, Marker, MarkerRef, NameError, PlacedMarker, Segment, Subsegment, Track, Voice,
};

/// Make sure that parsing garbage data returns an error.
#[test]
fn garbage() {
    let data = b"use std::io::{self, prelude::*, SeekFrom};\nuse std::fmt;\n\n#[derive(Debug)]\npub enum \
        Error {\n    InvalidMagic,\n    InvalidNumSegments(u8),\n    NonZeroPadding,\n    \
        Io(io::Error),\n}\n\nimpl From<io::Error> for Error {\n    fn from(io: io::Error) -> \
        Self {\n        Self::Io(io)\n    }\n}\n";
    assert!(Bgm::from_bytes(data).is_err());
    assert_eq!(Bgm::from_bytes(data), Err(Error::InvalidMagic));
}

#[test]
fn decode_subroutine() {
    let bytecode: Vec<u8> = vec![
        0x01, // Delay(1) - at offset 0 (subroutine start)
        0x09, // Delay(9)
        0xFE, 0x00, 0x00, 15, // Subroutine { start = 0, length = 15 }
        0xFE, 0x00, 0x00, 15, // Subroutine { start = 0, length = 15 }
        0xFE, 0x00, 0x00, 15, // Subroutine { start = 0, length = 15 }
        0x01, // Delay(1)
        0x00, // End - at offset 15
    ];

    let seq = CommandSeq::decode(&mut Cursor::new(&bytecode)).unwrap();

    let start_labels: Vec<MarkerRef> = seq.at_time(0)
        .into_iter()
        .take_while(|cmd| match cmd {
            Command::Marker(_) => true,
            _ => false,
        })
        .map(|cmd| match cmd {
            Command::Marker(label) => label.downgrade(),
            _ => unreachable!(),
        })
        .collect();
    let end_labels: Vec<MarkerRef> = seq.at_time(11)
        .into_iter()
        .take_while(|cmd| match cmd {
            Command::Marker(_) => true,
            _ => false,
        })
        .map(|cmd| match cmd {
            Command::Marker(label) => label.downgrade(),
            _ => unreachable!(),
        })
        .collect();
    let subroutine_labels: Vec<(&MarkerRef, &MarkerRef)> = seq.at_time(10)
        .into_iter()
        .take_while(|cmd| match cmd {
            Command::Subroutine(_) => true,
            _ => false,
        })
        .map(|cmd| match cmd {
            Command::Subroutine(CommandRange { start, end, .. }) => (start, end),
            _ => unreachable!(),
        })
        .collect();

    assert_eq!(start_labels.len(), 1);
    assert_eq!(end_labels.len(), 1);
    assert_eq!(subroutine_labels.len(), 3);

    // Check start labels
    assert!(MarkerRef::ptr_eq(subroutine_labels[0].0, &start_labels[0]));
    assert!(MarkerRef::ptr_eq(subroutine_labels[1].0, &start_labels[0]));
    assert!(MarkerRef::ptr_eq(subroutine_labels[2].0, &start_labels[0]));

    // Check end labels
    assert!(MarkerRef::ptr_eq(subroutine_labels[0].1, &end_labels[0]));
    assert!(MarkerRef::ptr_eq(subroutine_labels[1].1, &end_labels[0]));
    assert!(MarkerRef::ptr_eq(subroutine_labels[2].1, &end_labels[0]));
}

fn marker(offset: usize) -> PlacedMarker {
    PlacedMarker::new(offset, Marker)
}

fn eof() -> Error {
    Error::Io(IoError::UnexpectedEof)
}

fn rejected(e: Error) -> Result<Decoded, Failure> {
    Err(Failure::Rejected(e))
}

/// The header of a file; the offsets are in words.
fn header(segments: [u16; 4], drums: (u16, u16), voices: (u16, u16)) -> Vec<u8> {
    let mut file = b"BGM \0\0\0\0TEST\0\0\0\0\x04\0\0\0".to_vec();
    for n in segments.iter().copied().chain([drums.0, drums.1, voices.0, voices.1]) {
        file.extend_from_slice(&n.to_be_bytes());
    }
    assert_eq!(file.len(), 0x24);
    file
}

/// Makes the size that the header gives the right one.
fn seal(mut file: Vec<u8>) -> Vec<u8> {
    let size = file.len() as u32;
    file[4..8].copy_from_slice(&size.to_be_bytes());
    file
}

/// A file with a segment at 0x24 whose two subsegments play the tracks at 0x30. Only the first track
/// has commands, at 0x70.
fn song(commands: &[u8]) -> Vec<u8> {
    let mut file = header([9, 0, 0, 0], (0, 0), (0, 0));
    file.extend_from_slice(&[0x10, 0, 0, 3, 0x90, 0, 0, 3, 0, 0, 0, 0]);
    file.extend_from_slice(&[0, 0x40, 0xA0, 0x01]);
    for flags in 1u8..16 {
        file.extend_from_slice(&[0, 0, 0, flags]);
    }
    assert_eq!(file.len(), 0x70);
    file.extend_from_slice(commands);
    seal(file)
}

fn segment(bgm: &Bgm, slot: usize) -> &Segment {
    bgm.segments[slot].as_ref().unwrap()
}

fn tracks(subsegment: &Subsegment) -> &[Track; 16] {
    match subsegment {
        Subsegment::Tracks { tracks, .. } => &tracks.rc,
        Subsegment::Unknown { .. } => panic!("not tracks"),
    }
}

#[test]
fn decodes_song() {
    let decoded = Bgm::try_from_bytes(&song(&[0x05, 0x00])).unwrap();
    assert_eq!(decoded.unused_data, None);
    let bgm = decoded.bgm;
    assert_eq!(bgm.index, "TEST");
    assert!(bgm.drums.is_empty());
    assert!(bgm.voices.is_empty());
    assert!(bgm.segments[1].is_none() && bgm.segments[2].is_none() && bgm.segments[3].is_none());
    assert_eq!(segment(&bgm, 0).len(), 2);
    let played = tracks(&segment(&bgm, 0)[0]);
    assert_eq!(played[0].flags, 0xA001);
    assert_eq!(played[0].commands.commands, vec![Command::Delay(5), Command::End]);
    for i in 1..16 {
        assert_eq!(played[i].flags, i as u16);
        assert_eq!(played[i].commands.len(), 0);
    }
    assert_eq!(Bgm::from_bytes(&song(&[0x05, 0x00])), Ok(bgm));
}

#[test]
fn decode_starts_at_the_start_and_ends_at_the_end() {
    let file = song(&[0x05, 0x00]);
    let mut f = Cursor::new(&file);
    f.seek_start(0x33);
    assert_eq!(Bgm::decode(&mut f), Bgm::from_bytes(&file));
    assert_eq!(f.pos(), file.len() as u64);
}

#[test]
fn subsegments_share_tracks() {
    // The second segment, at 0x30, plays the same tracks by another offset.
    let mut file = header([9, 12, 0, 0], (0, 0), (0, 0));
    file.extend_from_slice(&[0x10, 0, 0, 6, 0x1F, 0, 0, 6, 0, 0, 0, 0]);
    file.extend_from_slice(&[0x10, 0, 0, 3, 0x10, 0, 0, 19, 0, 0, 0, 0]);
    assert_eq!(file.len(), 0x3C);
    file.extend_from_slice(&[0; 0x40]);
    assert_eq!(file.len(), 0x7C);
    file.extend_from_slice(&[0; 0x40]);
    let bgm = Bgm::from_bytes(&seal(file)).unwrap();
    let all: Vec<&Subsegment> = segment(&bgm, 0).iter().chain(segment(&bgm, 1)).collect();
    let parts: Vec<_> = all
        .iter()
        .map(|subsegment| match subsegment {
            Subsegment::Tracks { flags, tracks } => (*flags, tracks.decoded_pos, &tracks.rc),
            Subsegment::Unknown { .. } => panic!("not tracks"),
        })
        .collect();
    assert_eq!((parts[0].0, parts[0].1), (0x10, Some(0x3C)));
    assert_eq!((parts[1].0, parts[1].1), (0x1F, Some(0x3C)));
    assert_eq!((parts[2].0, parts[2].1), (0x10, Some(0x3C)));
    assert_eq!((parts[3].0, parts[3].1), (0x10, Some(0x7C)));
    assert!(Rc::ptr_eq(parts[0].2, parts[1].2));
    assert!(Rc::ptr_eq(parts[0].2, parts[2].2));
    assert!(!Rc::ptr_eq(parts[0].2, parts[3].2));
}

#[test]
fn unknown_subsegments_are_kept() {
    let mut file = header([9, 0, 0, 0], (0, 0), (0, 0));
    file.extend_from_slice(&[0x20, 1, 2, 3, 0x00, 0, 0, 1, 0, 0, 0, 0]);
    let bgm = Bgm::from_bytes(&seal(file)).unwrap();
    assert_eq!(
        *segment(&bgm, 0),
        vec![
            Subsegment::Unknown { flags: 0x20, data: [1, 2, 3] },
            Subsegment::Unknown { flags: 0, data: [0, 0, 1] },
        ]
    );
}

#[test]
fn segment_offsets_keep_their_low_bits() {
    let mut file = header([0x4009, 0x4000, 0, 0], (0, 0), (0, 0));
    file.extend_from_slice(&[0x20, 1, 2, 3, 0, 0, 0, 0]);
    let bgm = Bgm::from_bytes(&seal(file)).unwrap();
    assert_eq!(segment(&bgm, 0).len(), 1);
    assert!(bgm.segments[1].is_none());
}

#[test]
fn segments_may_be_empty() {
    let mut file = header([9, 0, 0, 0], (0, 0), (0, 0));
    file.extend_from_slice(&[0; 4]);
    let bgm = Bgm::from_bytes(&seal(file)).unwrap();
    assert_eq!(segment(&bgm, 0).len(), 0);
}

#[test]
fn decodes_drums_and_voices() {
    let mut file = header([0; 4], (9, 2), (15, 1));
    file.extend(1u8..=24);
    file.extend(101u8..=108);
    let file = seal(file);
    let bgm = Bgm::from_bytes(&file).unwrap();
    let first = Drum {
        bank: 1,
        patch: 2,
        coarse_tune: 3,
        fine_tune: 4,
        volume: 5,
        pan: 6,
        reverb: 7,
        unk_07: 8,
        unk_08: 9,
        unk_09: 10,
        unk_0a: 11,
        unk_0b: 12,
    };
    assert_eq!(bgm.drums.len(), 2);
    assert_eq!(bgm.drums[0], first);
    assert_eq!((bgm.drums[1].bank, bgm.drums[1].unk_0b), (13, 24));
    let voice = Voice {
        bank: 101,
        patch: 102,
        volume: 103,
        pan: 104,
        reverb: 105,
        coarse_tune: 106,
        fine_tune: 107,
        unk_07: 108,
    };
    assert_eq!(bgm.voices, vec![voice]);

    let mut f = Cursor::new(&file);
    f.seek_start(0x24);
    assert_eq!(Drum::decode(&mut f), Ok(first));
    assert_eq!(f.pos(), 0x30);
    f.seek_start(0x3C);
    assert_eq!(Voice::decode(&mut f), Ok(voice));
    assert_eq!(f.pos(), 0x44);
    f.seek_start(0x3D);
    assert_eq!(Voice::decode(&mut f), Err(eof()));
    assert_eq!(f.pos(), 0x44);
    f.seek_start(0x39);
    assert_eq!(Drum::decode(&mut f), Err(eof()));
    assert_eq!(f.pos(), 0x44);
}

#[test]
fn drums_and_voices_need_an_offset() {
    let bgm = Bgm::from_bytes(&seal(header([0; 4], (0, 7), (0, 7)))).unwrap();
    assert!(bgm.drums.is_empty() && bgm.voices.is_empty());
    let bgm = Bgm::from_bytes(&seal(header([0; 4], (0x100, 0), (0x100, 0)))).unwrap();
    assert!(bgm.drums.is_empty() && bgm.voices.is_empty());
}

#[test]
fn drums_and_voices_may_be_cut_off() {
    let mut file = header([0; 4], (9, 2), (0, 0));
    file.extend_from_slice(&[1; 23]);
    assert_eq!(Bgm::from_bytes(&seal(file)), Err(eof()));
    let mut file = header([0; 4], (0, 0), (9, 2));
    file.extend_from_slice(&[1; 15]);
    assert_eq!(Bgm::from_bytes(&seal(file)), Err(eof()));
}

#[test]
fn signature_is_needed() {
    assert_eq!(Bgm::from_bytes(b""), Err(eof()));
    assert_eq!(Bgm::from_bytes(b"BGM"), Err(eof()));
    assert_eq!(Bgm::from_bytes(b"BGN "), Err(Error::InvalidMagic));
    assert_eq!(Bgm::from_bytes(b"BGM "), Err(eof()));
}

#[test]
fn size_has_to_match() {
    let mut file = song(&[0x05, 0x00]);
    file[7] = 0x60;
    let mismatch = Error::SizeMismatch { true_size: 0x72, internal_size: 0x60 };
    assert_eq!(Bgm::from_bytes(&file), Err(mismatch));
    file[4..8].copy_from_slice(&0xFFFF_FFFFu32.to_be_bytes());
    let mismatch = Error::SizeMismatch { true_size: 0x72, internal_size: 0xFFFF_FFFF };
    assert_eq!(Bgm::from_bytes(&file), Err(mismatch));
}

#[test]
fn trailing_padding_is_ignored() {
    let mut file = song(&[0x05, 0x00]);
    let plain = Bgm::from_bytes(&file).unwrap();
    file.resize(0x80, 0);
    assert_eq!(Bgm::from_bytes(&file), Ok(plain));
    file[0x7F] = 1;
    assert_eq!(Bgm::from_bytes(&file), Err(Error::NonZeroPadding));
    file.resize(0x81, 0);
    let mismatch = Error::SizeMismatch { true_size: 0x81, internal_size: 0x72 };
    assert_eq!(Bgm::from_bytes(&file), Err(mismatch));
}

#[test]
fn names_are_four_ascii_bytes() {
    let mut file = seal(header([0; 4], (0, 0), (0, 0)));
    file[8..12].copy_from_slice(b"a ~\x01");
    assert_eq!(Bgm::from_bytes(&file).unwrap().index, "a ~\x01");
    file[9] = 0;
    assert_eq!(Bgm::from_bytes(&file), Err(Error::InvalidName(NameError::InvalidNull)));
    file[11] = 0x80;
    assert_eq!(Bgm::from_bytes(&file), Err(Error::InvalidName(NameError::NonAscii)));
}

#[test]
fn header_padding_has_to_be_zero() {
    for pos in [0x0C, 0x0F, 0x11, 0x13] {
        let mut file = seal(header([0; 4], (0, 0), (0, 0)));
        file[pos] = 1;
        assert_eq!(Bgm::from_bytes(&file), Err(Error::NonZeroPadding));
    }
}

#[test]
fn four_segment_slots_are_needed() {
    let mut file = seal(header([0; 4], (0, 0), (0, 0)));
    file[0x10] = 5;
    assert_eq!(Bgm::from_bytes(&file), Err(Error::InvalidNumSegments(5)));
}

#[test]
fn header_may_be_cut_off() {
    let file = header([0; 4], (0, 0), (0, 0));
    for len in 8..0x24 {
        assert_eq!(Bgm::from_bytes(&seal(file[..len].to_vec())), Err(eof()), "{}", len);
    }
    assert!(Bgm::from_bytes(&seal(file)).is_ok());
}

#[test]
fn subsegment_padding_has_to_be_zero() {
    let mut file = song(&[0x05, 0x00]);
    file[0x29] = 1;
    assert_eq!(Bgm::from_bytes(&file), Err(Error::NonZeroPadding));
}

#[test]
fn segments_and_tracks_may_be_cut_off() {
    let mut file = header([9, 0, 0, 0], (0, 0), (0, 0));
    file.extend_from_slice(&[0x20, 1, 2, 3, 0, 0, 0]);
    assert_eq!(Bgm::from_bytes(&seal(file)), Err(eof()));
    assert_eq!(Bgm::from_bytes(&seal(song(&[])[..0x6F].to_vec())), Err(eof()));
    assert_eq!(Bgm::from_bytes(&song(&[0x05])), Err(eof()));
    // The header comes first, then the segments, the drums and the voices.
    let mut file = header([9, 0, 0, 0], (0x100, 1), (0, 0));
    file.extend_from_slice(&[0x10, 1, 0, 0]);
    assert_eq!(Bgm::from_bytes(&seal(file)), Err(Error::NonZeroPadding));
}

#[test]
fn faults_are_reported() {
    let jump = Failure::Unsupported(Fault::JumpRandom);
    assert_eq!(Bgm::try_from_bytes(&song(&[0xFC, 0, 0, 0])), Err(jump));
    assert_eq!(Bgm::try_from_bytes(&song(&[0xFC, 0, 0])), rejected(eof()));
    let before = Failure::Unsupported(Fault::SubroutineBeforeStart);
    assert_eq!(Bgm::try_from_bytes(&song(&[0xFE, 0, 0x6F])), Err(before));
    assert_eq!(Bgm::try_from_bytes(&song(&[0xFE, 0, 0x70])), rejected(eof()));
}

#[test]
fn subroutines_are_relative_to_the_file() {
    let bgm = Bgm::from_bytes(&song(&[0xFE, 0, 0x74, 1, 0x00])).unwrap();
    let played = tracks(&segment(&bgm, 0)[0]);
    let range = CommandRange {
        name: "Subroutine 0x0".to_string(),
        start: marker(4).downgrade(),
        end: marker(5).downgrade(),
    };
    assert_eq!(
        played[0].commands.commands,
        vec![
            Command::Subroutine(range),
            Command::Marker(marker(4)),
            Command::End,
            Command::Marker(marker(5)),
        ]
    );
}

#[test]
fn unused_data_is_reported() {
    let mut file = song(&[0x05, 0x00]);
    file.resize(0x80, 0);
    assert_eq!(Bgm::try_from_bytes(&seal(file.clone())).unwrap().unused_data, None);
    file.push(0);
    assert_eq!(Bgm::try_from_bytes(&seal(file)).unwrap().unused_data, Some(0x72));
    // Nothing but tracks counts.
    let decoded = Bgm::try_from_bytes(&seal(header([0; 4], (0, 0), (0, 0)))).unwrap();
    assert_eq!(decoded.unused_data, Some(0));
    // A table of tracks without commands counts.
    let mut file = song(&[]);
    file[0x31] = 0;
    assert_eq!(Bgm::try_from_bytes(&file).unwrap().unused_data, None);
    file.push(1);
    assert_eq!(Bgm::try_from_bytes(&seal(file)).unwrap().unused_data, Some(0x70));
}

#[test]
fn aligns_up() {
    assert_eq!(align(0, 16), 0);
    assert_eq!(align(1, 16), 16);
    assert_eq!(align(16, 16), 16);
    assert_eq!(align(17, 16), 32);
    assert_eq!(align(0xFFFF_FFF1, 16), 0x1_0000_0000);
}
