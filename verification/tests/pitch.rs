use wasm4_tracker::{parse_note_pitch, parse_note_pitch_key, NotePitch, NotePitchKey, ParseError};

#[test]
fn c4_truncates_to_261() {
    let p = NotePitch::new(NotePitchKey::C, 4);
    assert_eq!(p.as_frequency(), 261);
}

#[test]
fn a4_is_440() {
    let p = NotePitch::new(NotePitchKey::A, 4);
    assert_eq!(p.as_frequency(), 440);
}

#[test]
fn frequency_is_deterministic() {
    let a = NotePitch::new(NotePitchKey::Fs, 3);
    let b = NotePitch::new(NotePitchKey::Fs, 3);
    assert_eq!(a.as_frequency(), b.as_frequency());
    assert_eq!(a.as_frequency(), a.as_frequency());
}

#[test]
fn sharp_and_flat_spellings_agree() {
    let sharp = NotePitch::new(NotePitchKey::Cs, 4);
    let flat = NotePitch::new(NotePitchKey::Db, 4);
    assert_eq!(sharp.as_frequency(), flat.as_frequency());
}

#[test]
fn octave_shift_doubles_frequency() {
    let a4 = NotePitch::new(NotePitchKey::A, 4);
    let a5 = NotePitch::new(NotePitchKey::A, 5);
    assert_eq!(a5.as_frequency(), 2 * a4.as_frequency());
}

#[test]
fn parse_full_pitch() {
    let p = parse_note_pitch("C#2").unwrap();
    assert!(matches!(p.key, NotePitchKey::Cs));
    assert_eq!(p.octave, 2);

    let p = parse_note_pitch("Eb5").unwrap();
    assert!(matches!(p.key, NotePitchKey::Eb));
    assert_eq!(p.octave, 5);

    let p = parse_note_pitch("C-1").unwrap();
    assert!(matches!(p.key, NotePitchKey::C));
    assert_eq!(p.octave, -1);
}

#[test]
fn parse_key_alone() {
    assert!(matches!(parse_note_pitch_key("G#"), Ok(NotePitchKey::Gs)));
    assert!(matches!(parse_note_pitch_key("B"), Ok(NotePitchKey::B)));
    match parse_note_pitch_key("H") {
        Err(ParseError::MalformedDescription(m)) => assert_eq!(m, "Unknown pitch key: H"),
        other => panic!("expected an error, got {:?}", other),
    }
}

#[test]
fn unknown_key_is_rejected() {
    match parse_note_pitch("H4") {
        Err(ParseError::MalformedDescription(m)) => assert_eq!(m, "Unknown pitch key: H"),
        other => panic!("expected an error, got {:?}", other),
    }
}

#[test]
fn missing_octave_is_rejected() {
    match parse_note_pitch("C") {
        Err(ParseError::MalformedDescription(m)) => assert_eq!(m, "Bad note pitch format: "),
        other => panic!("expected an error, got {:?}", other),
    }
}

#[test]
fn out_of_range_octave_is_rejected() {
    assert!(parse_note_pitch("C1000").is_err());
}
