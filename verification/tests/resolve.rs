use wasm4_tracker::{
    NoteDescription, NotePitch, NotePitchKey, NotePitchString, ParseError,
    PatternFrameDescription, SongDescription, Tone, TrackFrameDescription,
};

fn tone(frequency: u32) -> Tone {
    Tone { frequency, duration: 30, volume: 80, flags: 1 }
}

fn plain_note(tone_name: &str) -> NoteDescription {
    NoteDescription { note: None, tone: tone_name.to_string() }
}

fn single_note_pattern(frame: u16, tone_name: &str) -> Vec<PatternFrameDescription> {
    vec![PatternFrameDescription { frame, notes: vec![plain_note(tone_name)] }]
}

#[test]
fn two_placements_two_frames_sorted() {
    let song = SongDescription {
        tones: vec![("lead".to_string(), tone(100))],
        patterns: vec![
            ("a".to_string(), single_note_pattern(0, "lead")),
            ("b".to_string(), single_note_pattern(0, "lead")),
        ],
        track: vec![
            TrackFrameDescription { frame: 4, patterns: vec!["b".to_string()] },
            TrackFrameDescription { frame: 0, patterns: vec!["a".to_string()] },
        ],
    };
    let track = song.resolve().unwrap();
    assert_eq!(track.notes.len(), 2);
    assert_eq!(track.notes[0].frame, 0);
    assert_eq!(track.notes[1].frame, 4);
    assert_eq!(track.notes[0].voices.len(), 1);
    assert_eq!(track.notes[1].voices.len(), 1);
}

#[test]
fn simultaneous_notes_merge_in_placement_order() {
    let song = SongDescription {
        tones: vec![
            ("one".to_string(), tone(111)),
            ("two".to_string(), tone(222)),
        ],
        patterns: vec![
            ("a".to_string(), single_note_pattern(2, "one")),
            ("b".to_string(), single_note_pattern(0, "two")),
        ],
        track: vec![
            TrackFrameDescription { frame: 0, patterns: vec!["a".to_string()] },
            TrackFrameDescription { frame: 2, patterns: vec!["b".to_string()] },
        ],
    };
    let track = song.resolve().unwrap();
    assert_eq!(track.notes.len(), 1);
    assert_eq!(track.notes[0].frame, 2);
    assert_eq!(track.notes[0].voices.len(), 2);
    assert_eq!(track.notes[0].voices[0].frequency, 111);
    assert_eq!(track.notes[0].voices[1].frequency, 222);
}

#[test]
fn unknown_tone_is_rejected() {
    let song = SongDescription {
        tones: vec![],
        patterns: vec![("a".to_string(), single_note_pattern(0, "kick"))],
        track: vec![],
    };
    match song.resolve() {
        Err(ParseError::MalformedDescription(m)) => assert_eq!(m, "Unknown tone: kick"),
        other => panic!("expected an error, got {:?}", other),
    }
}

#[test]
fn unknown_pattern_is_rejected() {
    let song = SongDescription {
        tones: vec![("lead".to_string(), tone(100))],
        patterns: vec![("a".to_string(), single_note_pattern(0, "lead"))],
        track: vec![TrackFrameDescription { frame: 0, patterns: vec!["intro".to_string()] }],
    };
    match song.resolve() {
        Err(ParseError::MalformedDescription(m)) => assert_eq!(m, "Unknown pattern: intro"),
        other => panic!("expected an error, got {:?}", other),
    }
}

#[test]
fn frame_overflow_is_rejected() {
    let song = SongDescription {
        tones: vec![("lead".to_string(), tone(100))],
        patterns: vec![("a".to_string(), single_note_pattern(10, "lead"))],
        track: vec![TrackFrameDescription { frame: 65530, patterns: vec!["a".to_string()] }],
    };
    match song.resolve() {
        Err(ParseError::MalformedDescription(m)) => {
            assert_eq!(m, "Frame overflow in pattern: a")
        },
        other => panic!("expected an error, got {:?}", other),
    }
}

#[test]
fn pitch_override_replaces_frequency_only() {
    let pattern = vec![PatternFrameDescription {
        frame: 0,
        notes: vec![NoteDescription {
            note: Some(NotePitchString(NotePitch::new(NotePitchKey::A, 4))),
            tone: "lead".to_string(),
        }],
    }];
    let song = SongDescription {
        tones: vec![("lead".to_string(), tone(100))],
        patterns: vec![("a".to_string(), pattern)],
        track: vec![TrackFrameDescription { frame: 0, patterns: vec!["a".to_string()] }],
    };
    let track = song.resolve().unwrap();
    let voice = &track.notes[0].voices[0];
    assert_eq!(voice.frequency, 440);
    assert_eq!(voice.duration, 30);
    assert_eq!(voice.volume, 80);
    assert_eq!(voice.flags, 1);
}

#[test]
fn empty_track_resolves_empty() {
    let song = SongDescription {
        tones: vec![("lead".to_string(), tone(100))],
        patterns: vec![("a".to_string(), single_note_pattern(0, "lead"))],
        track: vec![],
    };
    let track = song.resolve().unwrap();
    assert_eq!(track.notes.len(), 0);
}
