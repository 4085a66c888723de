use byteorder::{LittleEndian, WriteBytesExt};
use wasm4_tracker::{Note, Tone, Track};

fn tone(frequency: u32, duration: u32, volume: u16, flags: u16) -> Tone {
    Tone { frequency, duration, volume, flags }
}

#[test]
fn empty_track_encodes_to_zero_bytes() {
    let track = Track { notes: vec![] };
    let mut out = vec![];
    track.write(&mut out);
    assert_eq!(out.len(), 0);
}

#[test]
fn single_note_layout_is_exact() {
    let track = Track {
        notes: vec![Note::new(7, vec![tone(0x01020304, 0x05060708, 0x0910, 0x1112)])],
    };
    let mut out = vec![];
    track.write(&mut out);
    let expected = vec![
        0x07, 0x00, // frame
        0x01, 0x00, // voice count
        0x04, 0x03, 0x02, 0x01, // frequency, little-endian
        0x08, 0x07, 0x06, 0x05, // duration
        0x10, 0x09, // volume
        0x12, 0x11, // flags
        0x07, 0x00, // trailing marker: the last frame again
    ];
    assert_eq!(out, expected);
}

#[test]
fn byte_length_matches_voice_counts() {
    let track = Track {
        notes: vec![
            Note::new(0, vec![tone(1, 2, 3, 4), tone(5, 6, 7, 8)]),
            Note::new(9, vec![tone(1, 2, 3, 4)]),
            Note::new(11, vec![]),
        ],
    };
    let mut out = vec![];
    track.write(&mut out);
    // sum of (4 + 12 * voices) per note, plus the 2-byte trailing marker
    assert_eq!(out.len(), (4 + 24) + (4 + 12) + 4 + 2);
}

#[test]
fn encoding_is_idempotent() {
    let track = Track {
        notes: vec![
            Note::new(3, vec![tone(9, 8, 7, 6)]),
            Note::new(5, vec![tone(1, 2, 3, 4), tone(4, 3, 2, 1)]),
        ],
    };
    let mut first = vec![];
    track.write(&mut first);
    let mut second = vec![];
    track.write(&mut second);
    assert_eq!(first, second);
}

#[test]
fn trailing_marker_is_highest_frame() {
    let track = Track {
        notes: vec![Note::new(2, vec![]), Note::new(40, vec![]), Note::new(17, vec![])],
    };
    let mut out = vec![];
    track.write(&mut out);
    let marker = &out[out.len() - 2..];
    assert_eq!(marker, &[40, 0]);
}

#[test]
fn encoding_matches_byteorder_writer() {
    let track = Track {
        notes: vec![Note::new(1, vec![tone(261, 45, 60, 3)]), Note::new(4, vec![tone(440, 15, 30, 0)])],
    };
    let mut ours = vec![];
    track.write(&mut ours);

    let mut reference: Vec<u8> = vec![];
    for note in &track.notes {
        reference.write_u16::<LittleEndian>(note.frame).unwrap();
        reference.write_u16::<LittleEndian>(note.voices.len() as u16).unwrap();
        for t in &note.voices {
            reference.write_u32::<LittleEndian>(t.frequency).unwrap();
            reference.write_u32::<LittleEndian>(t.duration).unwrap();
            reference.write_u16::<LittleEndian>(t.volume).unwrap();
            reference.write_u16::<LittleEndian>(t.flags).unwrap();
        }
    }
    reference.write_u16::<LittleEndian>(4).unwrap();
    assert_eq!(ours, reference);
}
