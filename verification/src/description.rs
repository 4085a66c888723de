//! Song descriptions and their resolution into a track.
//!
//! A description names tones and patterns symbolically; resolution expands
//! every pattern placement into absolute-frame notes, merges notes landing
//! on the same frame, and fails on the first dangling reference.

use crate::tracker::Note;
use crate::tracker::NotePitch;
use crate::tracker::NotePitchKey;
use crate::tracker::Tone;
use crate::tracker::Track;
use crate::tracker::note_model;
use crate::tracker::notes_model;
use vstd::prelude::*;
use vstd::string::StrSliceExecFns;

verus! {

/// A resolution failure.
#[derive(Debug, PartialEq, Eq)]
pub enum ParseError {
    /// The underlying document could not be read: source path and cause.
    CouldNotReadFile(String, String),
    /// A semantic failure: a dangling reference or an unparsable pitch.
    /// Carries a human-readable explanation naming the offending item.
    MalformedDescription(String),
}

/// Relies on `String::push_str`: appends the given string slice onto the
/// end of the string.
#[verifier::external_body]
fn push_str(s: &mut String, piece: &str)
    ensures
        final(s)@ == old(s)@ + piece@,
{
    s.push_str(piece)
}

/// Relies on `String::push`: appends the given character onto the end of
/// the string.
#[verifier::external_body]
fn push_char(s: &mut String, c: char)
    ensures
        final(s)@ == old(s)@ + seq![c],
{
    s.push(c)
}

/// Build the string `prefix` followed by `name`.
fn make_message(prefix: &str, name: &str) -> (r: String)
    ensures
        r@ == prefix@ + name@,
{
    let mut s = prefix.to_owned();
    push_str(&mut s, name);
    s
}

/// Build a string out of the given characters.
fn string_from_chars(v: &Vec<char>) -> (r: String)
    ensures
        r@ == v@,
{
    let mut s = String::new();
    for i in 0..v.len()
        invariant
            s@ == v@.take(i as int),
    {
        push_char(&mut s, v[i]);
        proof {
            assert(s@ =~= v@.take(i + 1));
        }
    }
    proof {
        assert(v@.take(v@.len() as int) =~= v@);
    }
    s
}

/// A note pitch parsed from its textual spelling, such as `C4` or `Eb2`.
#[derive(Debug, Clone, Copy, PartialEq, Eq, Structural)]
pub struct NotePitchString(pub NotePitch);

/// The pitch-class key denoted by a spelling, if it is one of the 17
/// canonical ones.
pub open spec fn pitch_key_of_chars(s: Seq<char>) -> Option<NotePitchKey> {
    if s == "C"@ {
        Some(NotePitchKey::C)
    } else if s == "C#"@ {
        Some(NotePitchKey::Cs)
    } else if s == "Db"@ {
        Some(NotePitchKey::Db)
    } else if s == "D"@ {
        Some(NotePitchKey::D)
    } else if s == "D#"@ {
        Some(NotePitchKey::Ds)
    } else if s == "Eb"@ {
        Some(NotePitchKey::Eb)
    } else if s == "E"@ {
        Some(NotePitchKey::E)
    } else if s == "F"@ {
        Some(NotePitchKey::F)
    } else if s == "F#"@ {
        Some(NotePitchKey::Fs)
    } else if s == "Gb"@ {
        Some(NotePitchKey::Gb)
    } else if s == "G"@ {
        Some(NotePitchKey::G)
    } else if s == "G#"@ {
        Some(NotePitchKey::Gs)
    } else if s == "Ab"@ {
        Some(NotePitchKey::Ab)
    } else if s == "A"@ {
        Some(NotePitchKey::A)
    } else if s == "A#"@ {
        Some(NotePitchKey::As)
    } else if s == "Bb"@ {
        Some(NotePitchKey::Bb)
    } else if s == "B"@ {
        Some(NotePitchKey::B)
    } else {
        None
    }
}

proof fn reveal_key_literals()
    ensures
        "C"@ == seq!['C'],
        "C#"@ == seq!['C', '#'],
        "Db"@ == seq!['D', 'b'],
        "D"@ == seq!['D'],
        "D#"@ == seq!['D', '#'],
        "Eb"@ == seq!['E', 'b'],
        "E"@ == seq!['E'],
        "F"@ == seq!['F'],
        "F#"@ == seq!['F', '#'],
        "Gb"@ == seq!['G', 'b'],
        "G"@ == seq!['G'],
        "G#"@ == seq!['G', '#'],
        "Ab"@ == seq!['A', 'b'],
        "A"@ == seq!['A'],
        "A#"@ == seq!['A', '#'],
        "Bb"@ == seq!['B', 'b'],
        "B"@ == seq!['B'],
{
    reveal_strlit("C");
    reveal_strlit("C#");
    reveal_strlit("Db");
    reveal_strlit("D");
    reveal_strlit("D#");
    reveal_strlit("Eb");
    reveal_strlit("E");
    reveal_strlit("F");
    reveal_strlit("F#");
    reveal_strlit("Gb");
    reveal_strlit("G");
    reveal_strlit("G#");
    reveal_strlit("Ab");
    reveal_strlit("A");
    reveal_strlit("A#");
    reveal_strlit("Bb");
    reveal_strlit("B");
    assert("C"@ =~= seq!['C']);
    assert("C#"@ =~= seq!['C', '#']);
    assert("Db"@ =~= seq!['D', 'b']);
    assert("D"@ =~= seq!['D']);
    assert("D#"@ =~= seq!['D', '#']);
    assert("Eb"@ =~= seq!['E', 'b']);
    assert("E"@ =~= seq!['E']);
    assert("F"@ =~= seq!['F']);
    assert("F#"@ =~= seq!['F', '#']);
    assert("Gb"@ =~= seq!['G', 'b']);
    assert("G"@ =~= seq!['G']);
    assert("G#"@ =~= seq!['G', '#']);
    assert("Ab"@ =~= seq!['A', 'b']);
    assert("A"@ =~= seq!['A']);
    assert("A#"@ =~= seq!['A', '#']);
    assert("Bb"@ =~= seq!['B', 'b']);
    assert("B"@ =~= seq!['B']);
}

fn key_of_chars(v: &Vec<char>) -> (r: Option<NotePitchKey>)
    ensures
        r == pitch_key_of_chars(v@),
{
    proof {
        reveal_key_literals();
    }
    if v.len() == 1 {
        let c = v[0];
        proof {
            assert(v@ =~= seq![v@[0]]);
        }
        match c {
            'C' => Some(NotePitchKey::C),
            'D' => Some(NotePitchKey::D),
            'E' => Some(NotePitchKey::E),
            'F' => Some(NotePitchKey::F),
            'G' => Some(NotePitchKey::G),
            'A' => Some(NotePitchKey::A),
            'B' => Some(NotePitchKey::B),
            _ => None,
        }
    } else if v.len() == 2 {
        let c0 = v[0];
        let c1 = v[1];
        proof {
            assert(v@ =~= seq![v@[0], v@[1]]);
        }
        if c1 == '#' {
            match c0 {
                'C' => Some(NotePitchKey::Cs),
                'D' => Some(NotePitchKey::Ds),
                'F' => Some(NotePitchKey::Fs),
                'G' => Some(NotePitchKey::Gs),
                'A' => Some(NotePitchKey::As),
                _ => None,
            }
        } else if c1 == 'b' {
            match c0 {
                'D' => Some(NotePitchKey::Db),
                'E' => Some(NotePitchKey::Eb),
                'G' => Some(NotePitchKey::Gb),
                'A' => Some(NotePitchKey::Ab),
                'B' => Some(NotePitchKey::Bb),
                _ => None,
            }
        } else {
            None
        }
    } else {
        None
    }
}

/// Characters that belong to the pitch-key part of a pitch spelling;
/// the rest form the octave part.
pub open spec fn is_key_char(c: char) -> bool {
    ('A' <= c && c <= 'Z') || ('a' <= c && c <= 'z') || c == '#'
}

fn is_key_char_exec(c: char) -> (r: bool)
    ensures
        r == is_key_char(c),
{
    ('A' <= c && c <= 'Z') || ('a' <= c && c <= 'z') || c == '#'
}

/// Whether every character of `s` is a decimal digit.
pub open spec fn all_digits(s: Seq<char>) -> bool {
    forall|i: int| 0 <= i < s.len() ==> '0' <= #[trigger] s[i] && s[i] <= '9'
}

/// The numeric value of a digit string.
pub open spec fn digits_value(s: Seq<char>) -> int
    decreases s.len(),
{
    if s.len() == 0 {
        0
    } else {
        digits_value(s.drop_last()) * 10 + (s.last() as int - '0' as int)
    }
}

/// The signed octave denoted by `s` under the integer syntax of `i8`
/// parsing: an optional sign, then one or more digits, in range.
pub open spec fn octave_of_chars(s: Seq<char>) -> Option<i8> {
    let neg = s.len() > 0 && s[0] == '-';
    let ds = if s.len() > 0 && (s[0] == '-' || s[0] == '+') {
        s.drop_first()
    } else {
        s
    };
    if ds.len() == 0 || !all_digits(ds) {
        None
    } else {
        let v = digits_value(ds);
        if neg {
            if -128 <= -v {
                Some((-v) as i8)
            } else {
                None
            }
        } else {
            if v <= 127 {
                Some(v as i8)
            } else {
                None
            }
        }
    }
}

proof fn lemma_digits_value_bounds(s: Seq<char>)
    requires
        all_digits(s),
    ensures
        digits_value(s) >= 0,
        s.len() > 0 ==> digits_value(s) >= digits_value(s.drop_last()),
    decreases s.len(),
{
    if s.len() > 0 {
        assert(forall|i: int|
            0 <= i < s.drop_last().len() ==> #[trigger] s.drop_last()[i] == s[i]);
        lemma_digits_value_bounds(s.drop_last());
        assert('0' <= s[s.len() - 1] && s[s.len() - 1] <= '9');
        assert(s.last() as int - '0' as int >= 0);
        assert(digits_value(s) == digits_value(s.drop_last()) * 10 + (s.last() as int
            - '0' as int));
    }
}

fn parse_octave_chars(v: &Vec<char>) -> (r: Option<i8>)
    ensures
        r == octave_of_chars(v@),
{
    let ghost whole = v@;
    let mut start: usize = 0;
    let mut neg = false;
    if v.len() > 0 && (v[0] == '-' || v[0] == '+') {
        neg = v[0] == '-';
        start = 1;
    }
    let ghost ds = if whole.len() > 0 && (whole[0] == '-' || whole[0] == '+') {
        whole.drop_first()
    } else {
        whole
    };
    proof {
        assert(ds =~= whole.skip(start as int));
    }
    if start == v.len() {
        return None;
    }
    let mut val: u32 = 0;
    let mut too_big = false;
    for i in start..v.len()
        invariant
            start <= i <= v.len(),
            start < whole.len(),
            ds == whole.skip(start as int),
            ds == (if whole.len() > 0 && (whole[0] == '-' || whole[0] == '+') {
                whole.drop_first()
            } else {
                whole
            }),
            neg == (whole.len() > 0 && whole[0] == '-'),
            ds.len() == whole.len() - start,
            whole == v@,
            all_digits(ds.take(i - start)),
            !too_big ==> val == digits_value(ds.take(i - start)) && val <= 1000,
            too_big ==> digits_value(ds.take(i - start)) > 1000,
    {
        let c = v[i];
        if !('0' <= c && c <= '9') {
            proof {
                assert(ds[i - start] == c);
                assert(!all_digits(ds));
            }
            return None;
        }
        let d: u32 = c as u32 - 48;
        proof {
            assert(ds.take(i - start + 1).drop_last() =~= ds.take(i - start));
            assert(ds.take(i - start + 1).last() == c);
            lemma_digits_value_bounds(ds.take(i - start + 1));
        }
        if too_big || val > 1000 {
            too_big = true;
            proof {
                if val > 1000 {
                    assert(digits_value(ds.take(i - start + 1)) == digits_value(
                        ds.take(i - start),
                    ) * 10 + (c as int - '0' as int));
                }
            }
        } else {
            val = val * 10 + d;
            if val > 1000 {
                too_big = true;
            }
        }
    }
    proof {
        assert(ds.take(ds.len() as int) =~= ds);
    }
    if too_big {
        return None;
    }
    if neg {
        if val <= 128 {
            Some(-(val as i32) as i8)
        } else {
            None
        }
    } else {
        if val <= 127 {
            Some(val as i8)
        } else {
            None
        }
    }
}

/// The pitch-key part of a pitch spelling: its letters and `#` signs,
/// in order.
pub open spec fn key_part(s: Seq<char>) -> Seq<char>
    decreases s.len(),
{
    if s.len() == 0 {
        Seq::empty()
    } else if is_key_char(s.last()) {
        key_part(s.drop_last()).push(s.last())
    } else {
        key_part(s.drop_last())
    }
}

/// The octave part of a pitch spelling: everything else, in order.
pub open spec fn octave_part(s: Seq<char>) -> Seq<char>
    decreases s.len(),
{
    if s.len() == 0 {
        Seq::empty()
    } else if !is_key_char(s.last()) {
        octave_part(s.drop_last()).push(s.last())
    } else {
        octave_part(s.drop_last())
    }
}

/// Parse a pitch-class spelling such as `C#` into its key.
///
/// Returns exactly the key that `pitch_key_of_chars` assigns to the
/// spelling, and an error naming the spelling for the other strings.
pub fn parse_note_pitch_key(s: &str) -> (r: Result<NotePitchKey, ParseError>)
    ensures
        r is Ok <==> pitch_key_of_chars(s@) is Some,
        r is Ok ==> r->Ok_0 == pitch_key_of_chars(s@)->0,
        r is Err ==> (r->Err_0 matches ParseError::MalformedDescription(m) && m@
            == "Unknown pitch key: "@ + s@),
{
    let n = s.unicode_len();
    let mut v: Vec<char> = Vec::new();
    for i in 0..n
        invariant
            n == s@.len(),
            v@ == s@.take(i as int),
    {
        v.push(s.get_char(i));
        proof {
            assert(v@ =~= s@.take(i + 1));
        }
    }
    proof {
        assert(s@.take(n as int) =~= s@);
    }
    match key_of_chars(&v) {
        Some(k) => Ok(k),
        None => Err(ParseError::MalformedDescription(make_message("Unknown pitch key: ", s))),
    }
}

/// Parse a full pitch spelling such as `C4`, `Eb2` or `C-1`: the letters
/// and `#` signs form the key, the rest forms the signed octave.
///
/// Returns the pitch both parts denote, or an error naming whichever part
/// is malformed (the key takes precedence).
pub fn parse_note_pitch(s: &str) -> (r: Result<NotePitch, ParseError>)
    ensures
        r is Ok <==> (pitch_key_of_chars(key_part(s@)) is Some && octave_of_chars(
            octave_part(s@),
        ) is Some),
        r is Ok ==> r->Ok_0.key == pitch_key_of_chars(key_part(s@))->0 && r->Ok_0.octave
            == octave_of_chars(octave_part(s@))->0,
        r is Err ==> (r->Err_0 matches ParseError::MalformedDescription(m) && m@ == (
        if pitch_key_of_chars(key_part(s@)) is None {
            "Unknown pitch key: "@ + key_part(s@)
        } else {
            "Bad note pitch format: "@ + octave_part(s@)
        })),
{
    let n = s.unicode_len();
    let mut key_chars: Vec<char> = Vec::new();
    let mut oct_chars: Vec<char> = Vec::new();
    for i in 0..n
        invariant
            n == s@.len(),
            key_chars@ == key_part(s@.take(i as int)),
            oct_chars@ == octave_part(s@.take(i as int)),
    {
        let c = s.get_char(i);
        proof {
            assert(s@.take(i + 1).drop_last() =~= s@.take(i as int));
            assert(s@.take(i + 1).last() == c);
            assert(key_part(s@.take(i + 1)) == (if is_key_char(c) {
                key_part(s@.take(i as int)).push(c)
            } else {
                key_part(s@.take(i as int))
            }));
            assert(octave_part(s@.take(i + 1)) == (if !is_key_char(c) {
                octave_part(s@.take(i as int)).push(c)
            } else {
                octave_part(s@.take(i as int))
            }));
        }
        if is_key_char_exec(c) {
            key_chars.push(c);
        } else {
            oct_chars.push(c);
        }
    }
    proof {
        assert(s@.take(n as int) =~= s@);
    }
    match key_of_chars(&key_chars) {
        None => {
            let text = string_from_chars(&key_chars);
            Err(ParseError::MalformedDescription(make_message("Unknown pitch key: ", text.as_str())))
        },
        Some(key) => {
            match parse_octave_chars(&oct_chars) {
                None => {
                    let text = string_from_chars(&oct_chars);
                    Err(
                        ParseError::MalformedDescription(
                            make_message("Bad note pitch format: ", text.as_str()),
                        ),
                    )
                },
                Some(octave) => Ok(NotePitch::new(key, octave)),
            }
        },
    }
}

/// A note event inside a pattern: a tone reference and an optional
/// pitch override.
#[derive(Debug)]
pub struct NoteDescription {
    /// Pitch override, replacing the tone's frequency when present.
    pub note: Option<NotePitchString>,
    /// Name of the referenced tone.
    pub tone: String,
}

/// One frame of a pattern: the notes starting at a pattern-relative frame.
#[derive(Debug)]
pub struct PatternFrameDescription {
    /// Pattern-relative frame.
    pub frame: u16,
    /// The notes starting there.
    pub notes: Vec<NoteDescription>,
}

/// One entry of the track: the patterns placed at an absolute frame offset.
#[derive(Debug)]
pub struct TrackFrameDescription {
    /// Absolute placement offset.
    pub frame: u16,
    /// Names of the patterns placed there, in order.
    pub patterns: Vec<String>,
}

/// The root of a song description: the tone catalog, the named patterns,
/// and the track that places them.
#[derive(Debug)]
pub struct SongDescription {
    /// Tone catalog: name to tone.
    pub tones: Vec<(String, Tone)>,
    /// Named patterns: name to frame list.
    pub patterns: Vec<(String, Vec<PatternFrameDescription>)>,
    /// The track.
    pub track: Vec<TrackFrameDescription>,
}

/// The ways resolution can fail, with the offending name.
pub enum ResolveIssue {
    /// A note references a tone name absent from the catalog.
    UnknownTone(Seq<char>),
    /// The track references a pattern name absent from the pattern map.
    UnknownPattern(Seq<char>),
    /// A placement pushes a note's frame beyond the 16-bit frame range.
    FrameOverflow(Seq<char>),
}

/// The message text reported for a resolution failure.
pub open spec fn issue_message(e: ResolveIssue) -> Seq<char> {
    match e {
        ResolveIssue::UnknownTone(n) => "Unknown tone: "@ + n,
        ResolveIssue::UnknownPattern(n) => "Unknown pattern: "@ + n,
        ResolveIssue::FrameOverflow(n) => "Frame overflow in pattern: "@ + n,
    }
}

/// The tone registered under `name`: the first match in the catalog.
pub open spec fn lookup_tone(tones: Seq<(String, Tone)>, name: Seq<char>) -> Option<Tone>
    decreases tones.len(),
{
    if tones.len() == 0 {
        None
    } else if tones[0].0@ == name {
        Some(tones[0].1)
    } else {
        lookup_tone(tones.drop_first(), name)
    }
}

fn find_tone(tones: &Vec<(String, Tone)>, name: &String) -> (r: Option<Tone>)
    ensures
        r == lookup_tone(tones@, name@),
{
    proof {
        assert(tones@.skip(0) =~= tones@);
    }
    for i in 0..tones.len()
        invariant
            lookup_tone(tones@, name@) == lookup_tone(tones@.skip(i as int), name@),
    {
        proof {
            assert(tones@.skip(i as int)[0] == tones@[i as int]);
            assert(tones@.skip(i as int).drop_first() =~= tones@.skip(i + 1));
        }
        if tones[i].0 == *name {
            return Some(tones[i].1);
        }
    }
    proof {
        assert(tones@.skip(tones@.len() as int).len() == 0);
    }
    None
}

/// The tone one note description resolves to: the referenced catalog tone,
/// with its frequency replaced by the override pitch's frequency when an
/// override is present.
pub open spec fn resolved_voice(tones: Seq<(String, Tone)>, nd: NoteDescription) -> Option<Tone> {
    match lookup_tone(tones, nd.tone@) {
        None => None,
        Some(t) => match nd.note {
            Some(p) => Some(t.with_frequency_spec(p.0.frequency_spec())),
            None => Some(t),
        },
    }
}

/// The voices of one pattern frame, or the first dangling tone reference.
pub open spec fn resolve_notes_spec(tones: Seq<(String, Tone)>, nds: Seq<NoteDescription>) -> Result<
    Seq<Tone>,
    ResolveIssue,
>
    decreases nds.len(),
{
    if nds.len() == 0 {
        Ok(Seq::empty())
    } else {
        match resolve_notes_spec(tones, nds.drop_last()) {
            Err(e) => Err(e),
            Ok(vs) => match resolved_voice(tones, nds.last()) {
                None => Err(ResolveIssue::UnknownTone(nds.last().tone@)),
                Some(v) => Ok(vs.push(v)),
            },
        }
    }
}

proof fn lemma_resolve_notes_err_stable(tones: Seq<(String, Tone)>, nds: Seq<NoteDescription>, i: int)
    requires
        0 <= i <= nds.len(),
        resolve_notes_spec(tones, nds.take(i)) is Err,
    ensures
        resolve_notes_spec(tones, nds) == resolve_notes_spec(tones, nds.take(i)),
    decreases nds.len() - i,
{
    if i < nds.len() {
        assert(nds.take(i + 1).drop_last() =~= nds.take(i));
        lemma_resolve_notes_err_stable(tones, nds, i + 1);
    } else {
        assert(nds.take(i) =~= nds);
    }
}

/// The resolved notes of one pattern: one `(frame, voices)` entry per
/// pattern frame, in order, or the first dangling tone reference.
pub open spec fn resolve_pattern_spec(
    tones: Seq<(String, Tone)>,
    frames: Seq<PatternFrameDescription>,
) -> Result<Seq<(u16, Seq<Tone>)>, ResolveIssue>
    decreases frames.len(),
{
    if frames.len() == 0 {
        Ok(Seq::empty())
    } else {
        match resolve_pattern_spec(tones, frames.drop_last()) {
            Err(e) => Err(e),
            Ok(ns) => match resolve_notes_spec(tones, frames.last().notes@) {
                Err(e) => Err(e),
                Ok(vs) => Ok(ns.push((frames.last().frame, vs))),
            },
        }
    }
}

proof fn lemma_resolve_pattern_err_stable(
    tones: Seq<(String, Tone)>,
    frames: Seq<PatternFrameDescription>,
    i: int,
)
    requires
        0 <= i <= frames.len(),
        resolve_pattern_spec(tones, frames.take(i)) is Err,
    ensures
        resolve_pattern_spec(tones, frames) == resolve_pattern_spec(tones, frames.take(i)),
    decreases frames.len() - i,
{
    if i < frames.len() {
        assert(frames.take(i + 1).drop_last() =~= frames.take(i));
        lemma_resolve_pattern_err_stable(tones, frames, i + 1);
    } else {
        assert(frames.take(i) =~= frames);
    }
}

/// Every pattern of the catalog resolved, in order, or the first dangling
/// tone reference anywhere in the pattern set.
pub open spec fn resolve_patterns_spec(
    tones: Seq<(String, Tone)>,
    patterns: Seq<(String, Vec<PatternFrameDescription>)>,
) -> Result<Seq<(Seq<char>, Seq<(u16, Seq<Tone>)>)>, ResolveIssue>
    decreases patterns.len(),
{
    if patterns.len() == 0 {
        Ok(Seq::empty())
    } else {
        match resolve_patterns_spec(tones, patterns.drop_last()) {
            Err(e) => Err(e),
            Ok(rs) => match resolve_pattern_spec(tones, patterns.last().1@) {
                Err(e) => Err(e),
                Ok(ns) => Ok(rs.push((patterns.last().0@, ns))),
            },
        }
    }
}

proof fn lemma_resolve_patterns_err_stable(
    tones: Seq<(String, Tone)>,
    patterns: Seq<(String, Vec<PatternFrameDescription>)>,
    i: int,
)
    requires
        0 <= i <= patterns.len(),
        resolve_patterns_spec(tones, patterns.take(i)) is Err,
    ensures
        resolve_patterns_spec(tones, patterns) == resolve_patterns_spec(tones, patterns.take(i)),
    decreases patterns.len() - i,
{
    if i < patterns.len() {
        assert(patterns.take(i + 1).drop_last() =~= patterns.take(i));
        lemma_resolve_patterns_err_stable(tones, patterns, i + 1);
    } else {
        assert(patterns.take(i) =~= patterns);
    }
}

/// The resolved pattern registered under `name`: the first match.
pub open spec fn lookup_pattern(
    resolved: Seq<(Seq<char>, Seq<(u16, Seq<Tone>)>)>,
    name: Seq<char>,
) -> Option<Seq<(u16, Seq<Tone>)>>
    decreases resolved.len(),
{
    if resolved.len() == 0 {
        None
    } else if resolved[0].0 == name {
        Some(resolved[0].1)
    } else {
        lookup_pattern(resolved.drop_first(), name)
    }
}

/// The model of an already-resolved pattern map.
pub open spec fn patterns_model(ps: Seq<(String, Vec<Note>)>) -> Seq<
    (Seq<char>, Seq<(u16, Seq<Tone>)>),
> {
    ps.map_values(|p: (String, Vec<Note>)| (p.0@, notes_model(p.1@)))
}

fn find_pattern<'a>(patterns: &'a Vec<(String, Vec<Note>)>, name: &String) -> (r: Option<
    &'a Vec<Note>,
>)
    ensures
        r is Some <==> lookup_pattern(patterns_model(patterns@), name@) is Some,
        r is Some ==> notes_model(r->0@) == lookup_pattern(patterns_model(patterns@), name@)->0,
{
    let ghost model = patterns_model(patterns@);
    proof {
        assert(model.skip(0) =~= model);
    }
    for i in 0..patterns.len()
        invariant
            model == patterns_model(patterns@),
            lookup_pattern(model, name@) == lookup_pattern(model.skip(i as int), name@),
    {
        proof {
            assert(model.skip(i as int)[0] == model[i as int]);
            assert(model[i as int] == (patterns@[i as int].0@, notes_model(
                patterns@[i as int].1@,
            )));
            assert(model.skip(i as int).drop_first() =~= model.skip(i + 1));
        }
        if patterns[i].0 == *name {
            return Some(&patterns[i].1);
        }
    }
    proof {
        assert(model.skip(model.len() as int).len() == 0);
    }
    None
}

/// Whether every frame of the pattern still fits in the 16-bit frame range
/// after the placement offset is added.
pub open spec fn frames_fit(notes: Seq<(u16, Seq<Tone>)>, off: u16) -> bool {
    forall|i: int| 0 <= i < notes.len() ==> (#[trigger] notes[i]).0 + off <= 65535
}

/// The pattern's notes shifted by the placement offset.
pub open spec fn shift_notes(notes: Seq<(u16, Seq<Tone>)>, off: u16) -> Seq<(u16, Seq<Tone>)> {
    notes.map_values(|m: (u16, Seq<Tone>)| (((m.0 + off) as u16, m.1)))
}

/// The placed notes of one track entry: each referenced pattern's resolved
/// notes shifted by the entry's offset, concatenated in reference order.
/// Fails on the first dangling pattern reference or frame overflow.
pub open spec fn resolve_track_frame_spec(
    resolved: Seq<(Seq<char>, Seq<(u16, Seq<Tone>)>)>,
    names: Seq<String>,
    off: u16,
) -> Result<Seq<(u16, Seq<Tone>)>, ResolveIssue>
    decreases names.len(),
{
    if names.len() == 0 {
        Ok(Seq::empty())
    } else {
        match resolve_track_frame_spec(resolved, names.drop_last(), off) {
            Err(e) => Err(e),
            Ok(acc) => match lookup_pattern(resolved, names.last()@) {
                None => Err(ResolveIssue::UnknownPattern(names.last()@)),
                Some(pn) => if frames_fit(pn, off) {
                    Ok(acc + shift_notes(pn, off))
                } else {
                    Err(ResolveIssue::FrameOverflow(names.last()@))
                },
            },
        }
    }
}

proof fn lemma_resolve_track_frame_err_stable(
    resolved: Seq<(Seq<char>, Seq<(u16, Seq<Tone>)>)>,
    names: Seq<String>,
    off: u16,
    i: int,
)
    requires
        0 <= i <= names.len(),
        resolve_track_frame_spec(resolved, names.take(i), off) is Err,
    ensures
        resolve_track_frame_spec(resolved, names, off) == resolve_track_frame_spec(
            resolved,
            names.take(i),
            off,
        ),
    decreases names.len() - i,
{
    if i < names.len() {
        assert(names.take(i + 1).drop_last() =~= names.take(i));
        lemma_resolve_track_frame_err_stable(resolved, names, off, i + 1);
    } else {
        assert(names.take(i) =~= names);
    }
}

/// All placed notes of the track, across every entry in order, before
/// merging; or the first failure.
pub open spec fn resolve_track_spec(
    resolved: Seq<(Seq<char>, Seq<(u16, Seq<Tone>)>)>,
    track: Seq<TrackFrameDescription>,
) -> Result<Seq<(u16, Seq<Tone>)>, ResolveIssue>
    decreases track.len(),
{
    if track.len() == 0 {
        Ok(Seq::empty())
    } else {
        match resolve_track_spec(resolved, track.drop_last()) {
            Err(e) => Err(e),
            Ok(acc) => match resolve_track_frame_spec(
                resolved,
                track.last().patterns@,
                track.last().frame,
            ) {
                Err(e) => Err(e),
                Ok(ns) => Ok(acc + ns),
            },
        }
    }
}

proof fn lemma_resolve_track_err_stable(
    resolved: Seq<(Seq<char>, Seq<(u16, Seq<Tone>)>)>,
    track: Seq<TrackFrameDescription>,
    i: int,
)
    requires
        0 <= i <= track.len(),
        resolve_track_spec(resolved, track.take(i)) is Err,
    ensures
        resolve_track_spec(resolved, track) == resolve_track_spec(resolved, track.take(i)),
    decreases track.len() - i,
{
    if i < track.len() {
        assert(track.take(i + 1).drop_last() =~= track.take(i));
        lemma_resolve_track_err_stable(resolved, track, i + 1);
    } else {
        assert(track.take(i) =~= track);
    }
}

/// Where a note with frame `f` and voices `v` lands in the merged,
/// frame-sorted note list `s`: appended to the entry already holding `f`,
/// or inserted at the position that keeps the frames sorted.
pub open spec fn insert_note(s: Seq<(u16, Seq<Tone>)>, f: u16, v: Seq<Tone>) -> Seq<
    (u16, Seq<Tone>),
>
    decreases s.len(),
{
    if s.len() == 0 {
        seq![(f, v)]
    } else if f < s[0].0 {
        seq![(f, v)] + s
    } else if f == s[0].0 {
        seq![(s[0].0, s[0].1 + v)] + s.drop_first()
    } else {
        seq![s[0]] + insert_note(s.drop_first(), f, v)
    }
}

/// The merged form of the placed notes: every note folded into a
/// frame-sorted list, concatenating the voices of notes that land on the
/// same frame in encounter order.
pub open spec fn merge_notes_spec(s: Seq<(u16, Seq<Tone>)>) -> Seq<(u16, Seq<Tone>)>
    decreases s.len(),
{
    if s.len() == 0 {
        Seq::empty()
    } else {
        insert_note(merge_notes_spec(s.drop_last()), s.last().0, s.last().1)
    }
}

/// The complete resolution pipeline: resolve every pattern, place each
/// track entry's patterns at its offset, and merge simultaneous notes.
pub open spec fn resolve_spec(song: SongDescription) -> Result<Seq<(u16, Seq<Tone>)>, ResolveIssue> {
    match resolve_patterns_spec(song.tones@, song.patterns@) {
        Err(e) => Err(e),
        Ok(resolved) => match resolve_track_spec(resolved, song.track@) {
            Err(e) => Err(e),
            Ok(placed) => Ok(merge_notes_spec(placed)),
        },
    }
}

fn copy_tones(src: &Vec<Tone>) -> (r: Vec<Tone>)
    ensures
        r@ == src@,
{
    let mut r: Vec<Tone> = Vec::new();
    for i in 0..src.len()
        invariant
            r@ == src@.take(i as int),
    {
        r.push(src[i]);
        proof {
            assert(r@ =~= src@.take(i + 1));
        }
    }
    proof {
        assert(src@.take(src@.len() as int) =~= src@);
    }
    r
}

proof fn lemma_notes_model_push(s: Seq<Note>, n: Note)
    ensures
        notes_model(s.push(n)) == notes_model(s).push(note_model(n)),
{
    assert(notes_model(s.push(n)) =~~= notes_model(s).push(note_model(n)));
}

proof fn lemma_notes_model_concat(a: Seq<Note>, b: Seq<Note>)
    ensures
        notes_model(a + b) == notes_model(a) + notes_model(b),
{
    assert(notes_model(a + b) =~~= notes_model(a) + notes_model(b));
}

fn shift_pattern_notes(pn: &Vec<Note>, off: u16) -> (r: Option<Vec<Note>>)
    ensures
        r is Some <==> frames_fit(notes_model(pn@), off),
        r is Some ==> notes_model(r->0@) == shift_notes(notes_model(pn@), off),
{
    let ghost model = notes_model(pn@);
    let mut out: Vec<Note> = Vec::new();
    for k in 0..pn.len()
        invariant
            model == notes_model(pn@),
            frames_fit(model.take(k as int), off),
            notes_model(out@) == shift_notes(model.take(k as int), off),
    {
        let sum: u32 = pn[k].frame as u32 + off as u32;
        proof {
            assert(model[k as int] == note_model(pn@[k as int]));
        }
        if sum > 65535 {
            proof {
                assert(!frames_fit(model, off));
            }
            return None;
        }
        let ghost prev = out@;
        let voices = copy_tones(&pn[k].voices);
        let note = Note::new(sum as u16, voices);
        out.push(note);
        proof {
            assert forall|j: int| 0 <= j < k + 1 implies (#[trigger] model.take(k + 1)[j]).0 + off
                <= 65535 by {
                if j < k {
                    assert((model.take(k as int)[j]).0 + off <= 65535);
                    assert(model.take(k + 1)[j] == model.take(k as int)[j]);
                } else {
                    assert(model.take(k + 1)[j] == model[k as int]);
                }
            }
            assert(frames_fit(model.take(k + 1), off));
            assert(notes_model(prev).len() == prev.len());
            assert(shift_notes(model.take(k as int), off).len() == model.take(k as int).len());
            assert(prev.len() == k as int);
            assert(out@ == prev.push(note));
            assert(notes_model(out@).len() == out@.len());
            assert(shift_notes(model.take(k + 1), off).len() == k + 1);
            assert forall|j: int| 0 <= j < k + 1 implies notes_model(out@)[j] == shift_notes(
                model.take(k + 1),
                off,
            )[j] by {
                assert(notes_model(out@)[j] == note_model(out@[j]));
                assert(shift_notes(model.take(k + 1), off)[j] == (((model.take(k + 1)[j].0
                    + off) as u16, model.take(k + 1)[j].1)));
                if j < k {
                    assert(out@[j] == prev[j]);
                    assert(notes_model(prev)[j] == note_model(prev[j]));
                    assert(notes_model(prev)[j] == shift_notes(model.take(k as int), off)[j]);
                    assert(shift_notes(model.take(k as int), off)[j] == (((model.take(
                        k as int,
                    )[j].0 + off) as u16, model.take(k as int)[j].1)));
                    assert(model.take(k + 1)[j] == model.take(k as int)[j]);
                } else {
                    assert(out@[j] == note);
                    assert(model.take(k + 1)[j] == model[k as int]);
                    assert(model[k as int] == note_model(pn@[k as int]));
                }
            }
            assert(notes_model(out@) =~~= shift_notes(model.take(k + 1), off));
        }
    }
    proof {
        assert(model.take(model.len() as int) =~= model);
    }
    Some(out)
}

proof fn lemma_insert_note_at(s: Seq<(u16, Seq<Tone>)>, f: u16, v: Seq<Tone>, pos: int)
    requires
        0 <= pos <= s.len(),
        forall|j: int| 0 <= j < pos ==> (#[trigger] s[j]).0 < f,
        pos < s.len() ==> f <= s[pos].0,
    ensures
        pos < s.len() && s[pos].0 == f ==> insert_note(s, f, v) == s.update(
            pos,
            (f, (s[pos].1 + v)),
        ),
        !(pos < s.len() && s[pos].0 == f) ==> insert_note(s, f, v) == s.insert(pos, (f, v)),
    decreases pos,
{
    if pos == 0 {
        if s.len() == 0 {
            assert(insert_note(s, f, v) =~~= s.insert(0, (f, v)));
        } else if f < s[0].0 {
            assert(insert_note(s, f, v) == seq![(f, v)] + s);
            assert(seq![(f, v)] + s =~~= s.insert(0, (f, v)));
        } else {
            assert(f == s[0].0);
            assert(insert_note(s, f, v) == seq![(s[0].0, (s[0].1 + v))] + s.drop_first());
            assert(seq![(s[0].0, (s[0].1 + v))] + s.drop_first() =~~= s.update(
                0,
                (f, (s[0].1 + v)),
            ));
        }
    } else {
        assert(s[0].0 < f);
        let rest = s.drop_first();
        assert forall|j: int| 0 <= j < pos - 1 implies (#[trigger] rest[j]).0 < f by {
            assert(rest[j] == s[j + 1]);
        }
        assert(pos - 1 < rest.len() ==> f <= rest[pos - 1].0) by {
            if pos - 1 < rest.len() {
                assert(rest[pos - 1] == s[pos]);
            }
        }
        lemma_insert_note_at(rest, f, v, pos - 1);
        assert(insert_note(s, f, v) == seq![s[0]] + insert_note(rest, f, v));
        if pos < s.len() && s[pos].0 == f {
            assert(rest[pos - 1] == s[pos]);
            assert(insert_note(rest, f, v) == rest.update(pos - 1, (f, (s[pos].1 + v))));
            assert(seq![s[0]] + rest.update(pos - 1, (f, (s[pos].1 + v))) =~~= s.update(
                pos,
                (f, (s[pos].1 + v)),
            ));
        } else {
            if pos < s.len() {
                assert(rest[pos - 1] == s[pos]);
            }
            assert(insert_note(rest, f, v) == rest.insert(pos - 1, (f, v)));
            assert(seq![s[0]] + rest.insert(pos - 1, (f, v)) =~~= s.insert(pos, (f, v)));
        }
    }
}

fn insert_merged(result: &mut Vec<Note>, frame: u16, voices: Vec<Tone>)
    ensures
        notes_model(final(result)@) == insert_note(notes_model(old(result)@), frame, voices@),
{
    let ghost s = notes_model(old(result)@);
    let ghost v = voices@;
    let mut pos: usize = 0;
    while pos < result.len() && result[pos].frame < frame
        invariant
            pos <= result@.len(),
            result@ == old(result)@,
            s == notes_model(result@),
            forall|j: int| 0 <= j < pos ==> (#[trigger] s[j]).0 < frame,
        decreases result@.len() - pos,
    {
        proof {
            assert(s[pos as int] == note_model(result@[pos as int]));
        }
        pos += 1;
    }
    proof {
        assert(s.len() == result@.len());
        if pos < result.len() {
            assert(s[pos as int] == note_model(result@[pos as int]));
        }
        lemma_insert_note_at(s, frame, v, pos as int);
    }
    if pos < result.len() && result[pos].frame == frame {
        let mut n = result.remove(pos);
        let ghost removed = result@;
        let mut rest = voices;
        n.voices.append(&mut rest);
        result.insert(pos, n);
        proof {
            assert(notes_model(result@) =~~= s.update(pos as int, (frame, (s[pos as int].1 + v))));
        }
    } else {
        result.insert(pos, Note::new(frame, voices));
        proof {
            assert(notes_model(result@) =~~= s.insert(pos as int, (frame, v)));
        }
    }
}

impl SongDescription {
    fn resolve_frame_notes(&self, nds: &Vec<NoteDescription>) -> (r: Result<Vec<Tone>, ParseError>)
        ensures
            r is Ok <==> resolve_notes_spec(self.tones@, nds@) is Ok,
            r is Ok ==> r->Ok_0@ == resolve_notes_spec(self.tones@, nds@)->Ok_0,
            r is Err ==> (r->Err_0 matches ParseError::MalformedDescription(m) && m@
                == issue_message(resolve_notes_spec(self.tones@, nds@)->Err_0)),
    {
        let mut voices: Vec<Tone> = Vec::new();
        proof {
            assert(nds@.take(0) =~= Seq::<NoteDescription>::empty());
            assert(voices@ =~= Seq::<Tone>::empty());
        }
        for k in 0..nds.len()
            invariant
                resolve_notes_spec(self.tones@, nds@.take(k as int)) == Ok::<_, ResolveIssue>(
                    voices@,
                ),
        {
            proof {
                assert(nds@.take(k + 1).drop_last() =~= nds@.take(k as int));
                assert(nds@.take(k + 1).last() == nds@[k as int]);
            }
            let nd = &nds[k];
            match find_tone(&self.tones, &nd.tone) {
                None => {
                    proof {
                        assert(resolve_notes_spec(self.tones@, nds@.take(k + 1)) is Err);
                        lemma_resolve_notes_err_stable(self.tones@, nds@, k + 1);
                    }
                    return Err(
                        ParseError::MalformedDescription(
                            make_message("Unknown tone: ", nd.tone.as_str()),
                        ),
                    );
                },
                Some(tone) => {
                    match &nd.note {
                        Some(p) => {
                            let freq = p.0.as_frequency();
                            voices.push(tone.with_frequency(freq));
                        },
                        None => {
                            voices.push(tone);
                        },
                    }
                },
            }
            proof {
                assert(resolve_notes_spec(self.tones@, nds@.take(k + 1)) == Ok::<
                    _,
                    ResolveIssue,
                >(voices@));
            }
        }
        proof {
            assert(nds@.take(nds@.len() as int) =~= nds@);
        }
        Ok(voices)
    }

    fn resolve_pattern(&self, frames: &Vec<PatternFrameDescription>) -> (r: Result<
        Vec<Note>,
        ParseError,
    >)
        ensures
            r is Ok <==> resolve_pattern_spec(self.tones@, frames@) is Ok,
            r is Ok ==> notes_model(r->Ok_0@) == resolve_pattern_spec(self.tones@, frames@)->Ok_0,
            r is Err ==> (r->Err_0 matches ParseError::MalformedDescription(m) && m@
                == issue_message(resolve_pattern_spec(self.tones@, frames@)->Err_0)),
    {
        let mut notes: Vec<Note> = Vec::new();
        proof {
            assert(frames@.take(0) =~= Seq::<PatternFrameDescription>::empty());
            assert(notes_model(notes@) =~= Seq::<(u16, Seq<Tone>)>::empty());
        }
        for i in 0..frames.len()
            invariant
                resolve_pattern_spec(self.tones@, frames@.take(i as int)) == Ok::<
                    _,
                    ResolveIssue,
                >(notes_model(notes@)),
        {
            proof {
                assert(frames@.take(i + 1).drop_last() =~= frames@.take(i as int));
                assert(frames@.take(i + 1).last() == frames@[i as int]);
            }
            let ghost prev = notes@;
            match self.resolve_frame_notes(&frames[i].notes) {
                Err(e) => {
                    proof {
                        assert(resolve_pattern_spec(self.tones@, frames@.take(i + 1)) is Err);
                        lemma_resolve_pattern_err_stable(self.tones@, frames@, i + 1);
                    }
                    return Err(e);
                },
                Ok(vs) => {
                    let note = Note::new(frames[i].frame, vs);
                    notes.push(note);
                    proof {
                        lemma_notes_model_push(prev, note);
                        assert(resolve_pattern_spec(self.tones@, frames@.take(i + 1)) == Ok::<
                            _,
                            ResolveIssue,
                        >(notes_model(notes@)));
                    }
                },
            }
        }
        proof {
            assert(frames@.take(frames@.len() as int) =~= frames@);
        }
        Ok(notes)
    }

    fn resolve_track_frame(
        &self,
        frame: &TrackFrameDescription,
        patterns: &Vec<(String, Vec<Note>)>,
    ) -> (r: Result<Vec<Note>, ParseError>)
        ensures
            r is Ok <==> resolve_track_frame_spec(
                patterns_model(patterns@),
                frame.patterns@,
                frame.frame,
            ) is Ok,
            r is Ok ==> notes_model(r->Ok_0@) == resolve_track_frame_spec(
                patterns_model(patterns@),
                frame.patterns@,
                frame.frame,
            )->Ok_0,
            r is Err ==> (r->Err_0 matches ParseError::MalformedDescription(m) && m@
                == issue_message(
                resolve_track_frame_spec(
                    patterns_model(patterns@),
                    frame.patterns@,
                    frame.frame,
                )->Err_0,
            )),
    {
        let ghost resolved = patterns_model(patterns@);
        let mut notes: Vec<Note> = Vec::new();
        proof {
            assert(frame.patterns@.take(0) =~= Seq::<String>::empty());
            assert(notes_model(notes@) =~= Seq::<(u16, Seq<Tone>)>::empty());
        }
        for j in 0..frame.patterns.len()
            invariant
                resolved == patterns_model(patterns@),
                resolve_track_frame_spec(resolved, frame.patterns@.take(j as int), frame.frame)
                    == Ok::<_, ResolveIssue>(notes_model(notes@)),
        {
            proof {
                assert(frame.patterns@.take(j + 1).drop_last() =~= frame.patterns@.take(j as int));
                assert(frame.patterns@.take(j + 1).last() == frame.patterns@[j as int]);
            }
            let name = &frame.patterns[j];
            let ghost prev = notes@;
            match find_pattern(patterns, name) {
                None => {
                    proof {
                        assert(resolve_track_frame_spec(
                            resolved,
                            frame.patterns@.take(j + 1),
                            frame.frame,
                        ) is Err);
                        lemma_resolve_track_frame_err_stable(
                            resolved,
                            frame.patterns@,
                            frame.frame,
                            j + 1,
                        );
                    }
                    return Err(
                        ParseError::MalformedDescription(
                            make_message("Unknown pattern: ", name.as_str()),
                        ),
                    );
                },
                Some(pn) => {
                    match shift_pattern_notes(pn, frame.frame) {
                        None => {
                            proof {
                                assert(resolve_track_frame_spec(
                                    resolved,
                                    frame.patterns@.take(j + 1),
                                    frame.frame,
                                ) is Err);
                                lemma_resolve_track_frame_err_stable(
                                    resolved,
                                    frame.patterns@,
                                    frame.frame,
                                    j + 1,
                                );
                            }
                            return Err(
                                ParseError::MalformedDescription(
                                    make_message("Frame overflow in pattern: ", name.as_str()),
                                ),
                            );
                        },
                        Some(mut shifted) => {
                            let ghost sh = shifted@;
                            notes.append(&mut shifted);
                            proof {
                                lemma_notes_model_concat(prev, sh);
                                assert(resolve_track_frame_spec(
                                    resolved,
                                    frame.patterns@.take(j + 1),
                                    frame.frame,
                                ) == Ok::<_, ResolveIssue>(notes_model(notes@)));
                            }
                        },
                    }
                },
            }
        }
        proof {
            assert(frame.patterns@.take(frame.patterns@.len() as int) =~= frame.patterns@);
        }
        Ok(notes)
    }

    fn resolve_track(
        &self,
        frames: &Vec<TrackFrameDescription>,
        patterns: &Vec<(String, Vec<Note>)>,
    ) -> (r: Result<Track, ParseError>)
        ensures
            r is Ok <==> resolve_track_spec(patterns_model(patterns@), frames@) is Ok,
            r is Ok ==> notes_model(r->Ok_0.notes@) == merge_notes_spec(
                resolve_track_spec(patterns_model(patterns@), frames@)->Ok_0,
            ),
            r is Err ==> (r->Err_0 matches ParseError::MalformedDescription(m) && m@
                == issue_message(resolve_track_spec(patterns_model(patterns@), frames@)->Err_0)),
    {
        let ghost resolved = patterns_model(patterns@);
        let mut notes: Vec<Note> = Vec::new();
        proof {
            assert(frames@.take(0) =~= Seq::<TrackFrameDescription>::empty());
            assert(notes_model(notes@) =~= Seq::<(u16, Seq<Tone>)>::empty());
        }
        for i in 0..frames.len()
            invariant
                resolved == patterns_model(patterns@),
                resolve_track_spec(resolved, frames@.take(i as int)) == Ok::<_, ResolveIssue>(
                    notes_model(notes@),
                ),
        {
            proof {
                assert(frames@.take(i + 1).drop_last() =~= frames@.take(i as int));
                assert(frames@.take(i + 1).last() == frames@[i as int]);
            }
            let ghost prev = notes@;
            match self.resolve_track_frame(&frames[i], patterns) {
                Err(e) => {
                    proof {
                        assert(resolve_track_spec(resolved, frames@.take(i + 1)) is Err);
                        lemma_resolve_track_err_stable(resolved, frames@, i + 1);
                    }
                    return Err(e);
                },
                Ok(mut placed) => {
                    let ghost pl = placed@;
                    notes.append(&mut placed);
                    proof {
                        lemma_notes_model_concat(prev, pl);
                        assert(resolve_track_spec(resolved, frames@.take(i + 1)) == Ok::<
                            _,
                            ResolveIssue,
                        >(notes_model(notes@)));
                    }
                },
            }
        }
        proof {
            assert(frames@.take(frames@.len() as int) =~= frames@);
        }
        let merged = self.sort_and_merge_notes(notes);
        Ok(Track { notes: merged })
    }

    fn sort_and_merge_notes(&self, notes: Vec<Note>) -> (r: Vec<Note>)
        ensures
            notes_model(r@) == merge_notes_spec(notes_model(notes@)),
    {
        let ghost m = notes_model(notes@);
        let mut result: Vec<Note> = Vec::new();
        proof {
            assert(m.take(0) =~= Seq::<(u16, Seq<Tone>)>::empty());
            assert(notes_model(result@) =~= Seq::<(u16, Seq<Tone>)>::empty());
        }
        for i in 0..notes.len()
            invariant
                m == notes_model(notes@),
                notes_model(result@) == merge_notes_spec(m.take(i as int)),
        {
            let voices = copy_tones(&notes[i].voices);
            insert_merged(&mut result, notes[i].frame, voices);
            proof {
                assert(m.take(i + 1).drop_last() =~= m.take(i as int));
                assert(m.take(i + 1).last() == m[i as int]);
                assert(m[i as int] == note_model(notes@[i as int]));
                assert(merge_notes_spec(m.take(i + 1)) == insert_note(
                    merge_notes_spec(m.take(i as int)),
                    m[i as int].0,
                    m[i as int].1,
                ));
            }
        }
        proof {
            assert(m.take(m.len() as int) =~= m);
        }
        result
    }

    /// Resolve the description into a track: every pattern expanded at
    /// every placement, simultaneous notes merged, frames sorted.
    ///
    /// Succeeds exactly when every referenced tone and pattern exists and
    /// no placement overflows the 16-bit frame range, and then returns the
    /// merged, frame-sorted notes; otherwise reports the first failure in
    /// description order, naming the offending tone or pattern.
    pub fn resolve(&self) -> (r: Result<Track, ParseError>)
        ensures
            r is Ok <==> resolve_spec(*self) is Ok,
            r is Ok ==> notes_model(r->Ok_0.notes@) == resolve_spec(*self)->Ok_0,
            r is Err ==> (r->Err_0 matches ParseError::MalformedDescription(m) && m@
                == issue_message(resolve_spec(*self)->Err_0)),
    {
        let mut resolved: Vec<(String, Vec<Note>)> = Vec::new();
        proof {
            assert(self.patterns@.take(0) =~= Seq::<(String, Vec<PatternFrameDescription>)>::empty());
            assert(patterns_model(resolved@) =~= Seq::<(Seq<char>, Seq<(u16, Seq<Tone>)>)>::empty());
        }
        for i in 0..self.patterns.len()
            invariant
                resolve_patterns_spec(self.tones@, self.patterns@.take(i as int)) == Ok::<
                    _,
                    ResolveIssue,
                >(patterns_model(resolved@)),
        {
            proof {
                assert(self.patterns@.take(i + 1).drop_last() =~= self.patterns@.take(i as int));
                assert(self.patterns@.take(i + 1).last() == self.patterns@[i as int]);
            }
            let ghost prev = resolved@;
            match self.resolve_pattern(&self.patterns[i].1) {
                Err(e) => {
                    proof {
                        assert(resolve_patterns_spec(
                            self.tones@,
                            self.patterns@.take(i + 1),
                        ) is Err);
                        lemma_resolve_patterns_err_stable(self.tones@, self.patterns@, i + 1);
                    }
                    return Err(e);
                },
                Ok(notes) => {
                    let name = self.patterns[i].0.clone();
                    resolved.push((name, notes));
                    proof {
                        assert(patterns_model(resolved@) =~~= patterns_model(prev).push(
                            (self.patterns@[i as int].0@, resolve_pattern_spec(
                                self.tones@,
                                self.patterns@[i as int].1@,
                            )->Ok_0),
                        ));
                        assert(resolve_patterns_spec(self.tones@, self.patterns@.take(i + 1))
                            == Ok::<_, ResolveIssue>(patterns_model(resolved@)));
                    }
                },
            }
        }
        proof {
            assert(self.patterns@.take(self.patterns@.len() as int) =~= self.patterns@);
        }
        self.resolve_track(&self.track, &resolved)
    }
}

/// Whether the notes of `s` are strictly sorted by ascending frame, so no
/// frame value appears twice.
pub open spec fn sorted_strict(s: Seq<(u16, Seq<Tone>)>) -> bool {
    forall|i: int, j: int| 0 <= i < j < s.len() ==> (#[trigger] s[i]).0 < (#[trigger] s[j]).0
}

/// Whether some note of `s` lands on frame `f`.
pub open spec fn has_frame(s: Seq<(u16, Seq<Tone>)>, f: u16) -> bool {
    exists|i: int| 0 <= i < s.len() && (#[trigger] s[i]).0 == f
}

/// All voices contributed to frame `f` by the notes of `s`, concatenated
/// in encounter order.
pub open spec fn voices_at(s: Seq<(u16, Seq<Tone>)>, f: u16) -> Seq<Tone>
    decreases s.len(),
{
    if s.len() == 0 {
        Seq::empty()
    } else {
        voices_at(s.drop_last(), f) + (if s.last().0 == f {
            s.last().1
        } else {
            Seq::empty()
        })
    }
}

proof fn lemma_voices_at_absent(s: Seq<(u16, Seq<Tone>)>, f: u16)
    requires
        forall|i: int| 0 <= i < s.len() ==> (#[trigger] s[i]).0 != f,
    ensures
        voices_at(s, f) == Seq::<Tone>::empty(),
    decreases s.len(),
{
    if s.len() > 0 {
        assert(forall|i: int|
            0 <= i < s.drop_last().len() ==> #[trigger] s.drop_last()[i] == s[i]);
        lemma_voices_at_absent(s.drop_last(), f);
        assert(s.last().0 != f);
        assert(voices_at(s, f) =~= Seq::<Tone>::empty());
    }
}

proof fn lemma_voices_at_prepend(x: (u16, Seq<Tone>), s: Seq<(u16, Seq<Tone>)>, f: u16)
    ensures
        voices_at(seq![x] + s, f) == (if x.0 == f {
            x.1
        } else {
            Seq::<Tone>::empty()
        }) + voices_at(s, f),
    decreases s.len(),
{
    let px = if x.0 == f { x.1 } else { Seq::<Tone>::empty() };
    if s.len() == 0 {
        assert(seq![x] + s =~= seq![x]);
        assert((seq![x] + s).drop_last() =~= Seq::<(u16, Seq<Tone>)>::empty());
        assert((seq![x] + s).last() == x);
        assert(voices_at(Seq::<(u16, Seq<Tone>)>::empty(), f) == Seq::<Tone>::empty());
        assert(voices_at(s, f) == Seq::<Tone>::empty());
        assert(voices_at(seq![x] + s, f) == voices_at((seq![x] + s).drop_last(), f) + (if (seq![x]
            + s).last().0 == f {
            (seq![x] + s).last().1
        } else {
            Seq::<Tone>::empty()
        }));
        assert(voices_at(seq![x] + s, f) =~= px + voices_at(s, f));
    } else {
        lemma_voices_at_prepend(x, s.drop_last(), f);
        assert((seq![x] + s).drop_last() =~= seq![x] + s.drop_last());
        assert((seq![x] + s).last() == s.last());
        assert(voices_at(seq![x] + s, f) == voices_at(seq![x] + s.drop_last(), f) + (if s.last().0
            == f {
            s.last().1
        } else {
            Seq::<Tone>::empty()
        }));
        assert(voices_at(seq![x] + s, f) =~= px + voices_at(s, f));
    }
}

#[verifier::rlimit(60)]
proof fn lemma_insert_note_properties(s: Seq<(u16, Seq<Tone>)>, f: u16, v: Seq<Tone>)
    requires
        sorted_strict(s),
    ensures
        sorted_strict(insert_note(s, f, v)),
        forall|g: u16| #[trigger] has_frame(insert_note(s, f, v), g) <==> (has_frame(s, g) || g
            == f),
        forall|g: u16| #[trigger] voices_at(insert_note(s, f, v), g) == voices_at(s, g) + (if g
            == f {
            v
        } else {
            Seq::<Tone>::empty()
        }),
    decreases s.len(),
{
    let ins = insert_note(s, f, v);
    if s.len() == 0 {
        assert(ins == seq![(f, v)]);
        assert(sorted_strict(ins));
        assert forall|g: u16| has_frame(ins, g) implies (has_frame(s, g) || g == f) by {
            let i = choose|i: int| 0 <= i < ins.len() && (#[trigger] ins[i]).0 == g;
            assert(ins[0] == (f, v));
        }
        assert forall|g: u16| (has_frame(s, g) || g == f) implies has_frame(ins, g) by {
            assert(ins[0].0 == f);
        }
        assert(forall|g: u16| has_frame(ins, g) <==> (has_frame(s, g) || g == f));
        assert forall|g: u16| #[trigger] voices_at(ins, g) == voices_at(s, g) + (if g == f {
            v
        } else {
            Seq::<Tone>::empty()
        }) by {
            assert(ins.drop_last() =~= Seq::<(u16, Seq<Tone>)>::empty());
            assert(ins.last() == (f, v));
            assert(voices_at(Seq::<(u16, Seq<Tone>)>::empty(), g) == Seq::<Tone>::empty());
            assert(voices_at(s, g) == Seq::<Tone>::empty());
            assert(voices_at(ins, g) == voices_at(ins.drop_last(), g) + (if ins.last().0 == g {
                ins.last().1
            } else {
                Seq::<Tone>::empty()
            }));
            assert(voices_at(ins, g) =~= voices_at(s, g) + (if g == f {
                v
            } else {
                Seq::<Tone>::empty()
            }));
        }
    } else if f < s[0].0 {
        assert(ins == seq![(f, v)] + s);
        assert forall|g: u16| #[trigger] voices_at(ins, g) == voices_at(s, g) + (if g == f {
            v
        } else {
            Seq::<Tone>::empty()
        }) by {
            lemma_voices_at_prepend((f, v), s, g);
            if g == f {
                assert(forall|i: int| 0 <= i < s.len() ==> (#[trigger] s[i]).0 > f);
                lemma_voices_at_absent(s, g);
                assert(voices_at(ins, g) =~= voices_at(s, g) + v);
            } else {
                assert(voices_at(ins, g) =~= voices_at(s, g) + Seq::<Tone>::empty());
                assert(voices_at(s, g) + Seq::<Tone>::empty() =~= voices_at(s, g));
            }
        }
        assert forall|g: u16| has_frame(ins, g) <==> (has_frame(s, g) || g == f) by {
            if has_frame(ins, g) {
                let i = choose|i: int| 0 <= i < ins.len() && (#[trigger] ins[i]).0 == g;
                if i > 0 {
                    assert(s[i - 1].0 == g);
                }
            }
            if has_frame(s, g) {
                let i = choose|i: int| 0 <= i < s.len() && (#[trigger] s[i]).0 == g;
                assert(ins[i + 1].0 == g);
            }
            if g == f {
                assert(ins[0].0 == g);
            }
        }
        assert forall|i: int, j: int| 0 <= i < j < ins.len() implies (#[trigger] ins[i]).0 < (
        #[trigger] ins[j]).0 by {
            assert(ins[j] == s[j - 1]);
            if i == 0 {
                assert(ins[0].0 == f);
                if j - 1 > 0 {
                    assert(s[0].0 < s[j - 1].0);
                }
            } else {
                assert(ins[i] == s[i - 1]);
            }
        }
        assert(sorted_strict(ins));
    } else if f == s[0].0 {
        assert(ins == seq![(s[0].0, (s[0].1 + v))] + s.drop_first());
        let rest = s.drop_first();
        assert(forall|i: int| 0 <= i < rest.len() ==> #[trigger] rest[i] == s[i + 1]);
        assert forall|g: u16| #[trigger] voices_at(ins, g) == voices_at(s, g) + (if g == f {
            v
        } else {
            Seq::<Tone>::empty()
        }) by {
            lemma_voices_at_prepend((s[0].0, (s[0].1 + v)), rest, g);
            lemma_voices_at_prepend(s[0], rest, g);
            assert(seq![s[0]] + rest =~= s);
            if g == f {
                assert(forall|i: int| 0 <= i < rest.len() ==> (#[trigger] rest[i]).0 > f);
                lemma_voices_at_absent(rest, g);
                assert(voices_at(ins, g) =~= voices_at(s, g) + v);
            } else {
                assert(voices_at(ins, g) =~= voices_at(s, g) + Seq::<Tone>::empty());
                assert(voices_at(s, g) + Seq::<Tone>::empty() =~= voices_at(s, g));
            }
        }
        assert(ins.len() == s.len());
        assert forall|g: u16| has_frame(ins, g) implies (has_frame(s, g) || g == f) by {
            let i = choose|i: int| 0 <= i < ins.len() && (#[trigger] ins[i]).0 == g;
            if i == 0 {
                assert(ins[0] == (s[0].0, (s[0].1 + v)));
                assert(s[0].0 == g);
            } else {
                assert(ins[i] == rest[i - 1]);
                assert(rest[i - 1] == s[i]);
                assert(s[i].0 == g);
            }
        }
        assert forall|g: u16| (has_frame(s, g) || g == f) implies has_frame(ins, g) by {
            if has_frame(s, g) {
                let i = choose|i: int| 0 <= i < s.len() && (#[trigger] s[i]).0 == g;
                if i == 0 {
                    assert(ins[0] == (s[0].0, (s[0].1 + v)));
                    assert(ins[0].0 == g);
                } else {
                    assert(ins[i] == rest[i - 1]);
                    assert(ins[i].0 == g);
                }
            } else {
                assert(ins[0] == (s[0].0, (s[0].1 + v)));
                assert(ins[0].0 == g);
            }
        }
        assert(forall|g: u16| has_frame(ins, g) <==> (has_frame(s, g) || g == f));
        assert forall|i: int, j: int| 0 <= i < j < ins.len() implies (#[trigger] ins[i]).0 < (
        #[trigger] ins[j]).0 by {
            assert(ins[j] == rest[j - 1]);
            assert(rest[j - 1] == s[j]);
            if i == 0 {
                assert(ins[0].0 == s[0].0);
                assert(sorted_strict(ins));
    } else {
                assert(ins[i] == rest[i - 1]);
                assert(rest[i - 1] == s[i]);
            }
        }
        assert(sorted_strict(ins));
    } else {
        let rest = s.drop_first();
        assert(forall|i: int| 0 <= i < rest.len() ==> #[trigger] rest[i] == s[i + 1]);
        lemma_insert_note_properties(rest, f, v);
        assert(ins == seq![s[0]] + insert_note(rest, f, v));
        let insr = insert_note(rest, f, v);
        assert forall|g: u16| #[trigger] voices_at(ins, g) == voices_at(s, g) + (if g == f {
            v
        } else {
            Seq::<Tone>::empty()
        }) by {
            lemma_voices_at_prepend(s[0], insr, g);
            lemma_voices_at_prepend(s[0], rest, g);
            assert(seq![s[0]] + rest =~= s);
            assert(voices_at(insr, g) == voices_at(rest, g) + (if g == f {
                v
            } else {
                Seq::<Tone>::empty()
            }));
            assert(voices_at(ins, g) =~= voices_at(s, g) + (if g == f {
                v
            } else {
                Seq::<Tone>::empty()
            }));
        }
        assert(ins.len() == 1 + insr.len());
        assert forall|g: u16| has_frame(ins, g) implies (has_frame(s, g) || g == f) by {
            let i = choose|i: int| 0 <= i < ins.len() && (#[trigger] ins[i]).0 == g;
            if i == 0 {
                assert(ins[0] == s[0]);
                assert(s[0].0 == g);
            } else {
                assert(ins[i] == insr[i - 1]);
                assert(insr[i - 1].0 == g);
                assert(has_frame(insr, g));
                if g != f {
                    assert(has_frame(rest, g));
                    let k = choose|k: int| 0 <= k < rest.len() && (#[trigger] rest[k]).0 == g;
                    assert(rest[k] == s[k + 1]);
                    assert(s[k + 1].0 == g);
                }
            }
        }
        assert forall|g: u16| (has_frame(s, g) || g == f) implies has_frame(ins, g) by {
            assert(has_frame(insr, g) <==> (has_frame(rest, g) || g == f));
            if has_frame(s, g) {
                let i = choose|i: int| 0 <= i < s.len() && (#[trigger] s[i]).0 == g;
                if i == 0 {
                    assert(ins[0] == s[0]);
                    assert(ins[0].0 == g);
                } else {
                    assert(rest[i - 1] == s[i]);
                    assert(rest[i - 1].0 == g);
                    assert(has_frame(rest, g));
                    assert(has_frame(insr, g));
                    let k = choose|k: int| 0 <= k < insr.len() && (#[trigger] insr[k]).0 == g;
                    assert(ins[k + 1] == insr[k]);
                    assert(ins[k + 1].0 == g);
                }
            } else {
                assert(has_frame(insr, g));
                let k = choose|k: int| 0 <= k < insr.len() && (#[trigger] insr[k]).0 == g;
                assert(ins[k + 1] == insr[k]);
                assert(ins[k + 1].0 == g);
            }
        }
        assert(forall|g: u16| has_frame(ins, g) <==> (has_frame(s, g) || g == f));
        assert forall|i: int, j: int| 0 <= i < j < ins.len() implies (#[trigger] ins[i]).0 < (
        #[trigger] ins[j]).0 by {
            if i > 0 {
                assert(ins[i] == insr[i - 1]);
                assert(ins[j] == insr[j - 1]);
            } else {
                assert(ins[j] == insr[j - 1]);
                assert(has_frame(insr, insr[j - 1].0));
                if insr[j - 1].0 == f {
                    assert(s[0].0 < f);
                } else {
                    assert(has_frame(rest, insr[j - 1].0));
                    let k = choose|k: int|
                        0 <= k < rest.len() && (#[trigger] rest[k]).0 == insr[j - 1].0;
                    assert(s[0].0 < s[k + 1].0);
                }
            }
        }
        assert(sorted_strict(ins));
    }
}

/// Merging never loses or invents a frame, keeps the result strictly
/// sorted by ascending frame (so each frame appears exactly once), and
/// gives the note at each frame exactly the voices that the placed notes
/// contributed to that frame, concatenated in placement order.
pub proof fn lemma_merge_properties(placed: Seq<(u16, Seq<Tone>)>)
    ensures
        sorted_strict(merge_notes_spec(placed)),
        forall|g: u16| #[trigger] has_frame(merge_notes_spec(placed), g) <==> has_frame(placed, g),
        forall|g: u16| #[trigger] voices_at(merge_notes_spec(placed), g) == voices_at(placed, g),
    decreases placed.len(),
{
    let m = merge_notes_spec(placed);
    if placed.len() == 0 {
        assert forall|g: u16| #[trigger] voices_at(m, g) == voices_at(placed, g) by {}
    } else {
        let prefix = placed.drop_last();
        lemma_merge_properties(prefix);
        let mp = merge_notes_spec(prefix);
        lemma_insert_note_properties(mp, placed.last().0, placed.last().1);
        assert(m == insert_note(mp, placed.last().0, placed.last().1));
        assert forall|g: u16| #[trigger] voices_at(m, g) == voices_at(placed, g) by {
            assert(voices_at(m, g) == voices_at(mp, g) + (if g == placed.last().0 {
                placed.last().1
            } else {
                Seq::<Tone>::empty()
            }));
            assert(voices_at(placed, g) == voices_at(prefix, g) + (if placed.last().0 == g {
                placed.last().1
            } else {
                Seq::<Tone>::empty()
            }));
            if g != placed.last().0 {
                assert(voices_at(mp, g) + Seq::<Tone>::empty() =~= voices_at(mp, g));
                assert(voices_at(prefix, g) + Seq::<Tone>::empty() =~= voices_at(prefix, g));
            }
        }
        assert forall|g: u16| has_frame(m, g) <==> has_frame(placed, g) by {
            if has_frame(placed, g) {
                let i = choose|i: int| 0 <= i < placed.len() && (#[trigger] placed[i]).0 == g;
                if i < placed.len() - 1 {
                    assert(prefix[i].0 == g);
                    assert(has_frame(prefix, g));
                }
            }
            if has_frame(prefix, g) {
                let i = choose|i: int| 0 <= i < prefix.len() && (#[trigger] prefix[i]).0 == g;
                assert(placed[i].0 == g);
            }
            if g == placed.last().0 {
                assert(placed[placed.len() - 1].0 == g);
            }
        }
    }
}

/// Every note of a strictly frame-sorted list carries exactly the voices
/// that the list itself assigns to its frame.
pub proof fn lemma_sorted_entry_voices(s: Seq<(u16, Seq<Tone>)>)
    requires
        sorted_strict(s),
    ensures
        forall|i: int| 0 <= i < s.len() ==> (#[trigger] s[i]).1 == voices_at(s, s[i].0),
    decreases s.len(),
{
    if s.len() > 0 {
        let prefix = s.drop_last();
        assert(forall|i: int| 0 <= i < prefix.len() ==> #[trigger] prefix[i] == s[i]);
        lemma_sorted_entry_voices(prefix);
        assert forall|i: int| 0 <= i < s.len() implies (#[trigger] s[i]).1 == voices_at(
            s,
            s[i].0,
        ) by {
            if i < s.len() - 1 {
                assert(s.last().0 != s[i].0);
                assert(voices_at(s, s[i].0) == voices_at(prefix, s[i].0) + Seq::<Tone>::empty());
                assert(voices_at(prefix, prefix[i].0) == prefix[i].1);
                assert(voices_at(s, s[i].0) =~= s[i].1);
            } else {
                assert(forall|j: int| 0 <= j < prefix.len() ==> (#[trigger] prefix[j]).0
                    != s.last().0);
                lemma_voices_at_absent(prefix, s.last().0);
                assert(voices_at(s, s.last().0) =~= s.last().1);
            }
        }
    }
}

proof fn lemma_resolve_notes_missing(tones: Seq<(String, Tone)>, nds: Seq<NoteDescription>)
    ensures
        resolve_notes_spec(tones, nds) is Err <==> (exists|k: int|
            0 <= k < nds.len() && resolved_voice(tones, #[trigger] nds[k]) is None),
        resolve_notes_spec(tones, nds) is Err ==> (resolve_notes_spec(tones, nds)->Err_0 matches
            ResolveIssue::UnknownTone(n) && lookup_tone(tones, n) is None),
    decreases nds.len(),
{
    if nds.len() > 0 {
        let prefix = nds.drop_last();
        assert(forall|k: int| 0 <= k < prefix.len() ==> #[trigger] prefix[k] == nds[k]);
        lemma_resolve_notes_missing(tones, prefix);
        if resolve_notes_spec(tones, prefix) is Err {
            let k = choose|k: int|
                0 <= k < prefix.len() && resolved_voice(tones, #[trigger] prefix[k]) is None;
            assert(resolved_voice(tones, nds[k]) is None);
        } else {
            if resolved_voice(tones, nds.last()) is None {
                assert(resolved_voice(tones, nds[nds.len() - 1]) is None);
            } else {
                assert forall|k: int|
                    0 <= k < nds.len() implies !(resolved_voice(tones, #[trigger] nds[k]) is None) by {
                    if k < nds.len() - 1 {
                        assert(!(resolved_voice(tones, prefix[k]) is None));
                    }
                }
            }
        }
    }
}

proof fn lemma_resolve_pattern_missing(tones: Seq<(String, Tone)>, frames: Seq<PatternFrameDescription>)
    ensures
        resolve_pattern_spec(tones, frames) is Err <==> (exists|i: int, k: int|
            0 <= i < frames.len() && 0 <= k < frames[i].notes@.len() && #[trigger] resolved_voice(
                tones,
                frames[i].notes@[k],
            ) is None),
        resolve_pattern_spec(tones, frames) is Err ==> (resolve_pattern_spec(tones, frames)->Err_0
            matches ResolveIssue::UnknownTone(n) && lookup_tone(tones, n) is None),
    decreases frames.len(),
{
    if frames.len() > 0 {
        let prefix = frames.drop_last();
        assert(forall|i: int| 0 <= i < prefix.len() ==> #[trigger] prefix[i] == frames[i]);
        lemma_resolve_pattern_missing(tones, prefix);
        lemma_resolve_notes_missing(tones, frames.last().notes@);
        if resolve_pattern_spec(tones, prefix) is Err {
            let (i, k) = choose|i: int, k: int|
                0 <= i < prefix.len() && 0 <= k < prefix[i].notes@.len() && #[trigger] resolved_voice(
                    tones,
                    prefix[i].notes@[k],
                ) is None;
            assert(0 <= i < frames.len() && 0 <= k < frames[i].notes@.len() && resolved_voice(
                tones,
                frames[i].notes@[k],
            ) is None);
        } else if resolve_notes_spec(tones, frames.last().notes@) is Err {
            let k = choose|k: int|
                0 <= k < frames.last().notes@.len() && resolved_voice(
                    tones,
                    #[trigger] frames.last().notes@[k],
                ) is None;
            assert(frames[frames.len() - 1].notes@[k] == frames.last().notes@[k]);
            assert(0 <= frames.len() - 1 < frames.len() && 0 <= k < (frames[frames.len()
                - 1]).notes@.len() && resolved_voice(tones, frames[frames.len() - 1].notes@[k]) is None);
        } else {
            assert forall|i: int, k: int|
                0 <= i < frames.len() && 0 <= k < frames[i].notes@.len() implies !(
            #[trigger] resolved_voice(tones, frames[i].notes@[k]) is None) by {
                if i < frames.len() - 1 {
                    assert(prefix[i] == frames[i]);
                    assert(!(resolved_voice(tones, prefix[i].notes@[k]) is None));
                } else {
                    assert(frames[i].notes@[k] == frames.last().notes@[k]);
                    assert(!(resolved_voice(tones, frames.last().notes@[k]) is None));
                }
            }
        }
    }
}

proof fn lemma_resolve_patterns_missing(
    tones: Seq<(String, Tone)>,
    patterns: Seq<(String, Vec<PatternFrameDescription>)>,
)
    ensures
        resolve_patterns_spec(tones, patterns) is Err <==> (exists|p: int, i: int, k: int|
            0 <= p < patterns.len() && 0 <= i < patterns[p].1@.len() && 0 <= k
                < patterns[p].1@[i].notes@.len() && #[trigger] resolved_voice(
                tones,
                patterns[p].1@[i].notes@[k],
            ) is None),
        resolve_patterns_spec(tones, patterns) is Err ==> (resolve_patterns_spec(
            tones,
            patterns,
        )->Err_0 matches ResolveIssue::UnknownTone(n) && lookup_tone(tones, n) is None),
    decreases patterns.len(),
{
    if patterns.len() > 0 {
        let prefix = patterns.drop_last();
        assert(forall|p: int| 0 <= p < prefix.len() ==> #[trigger] prefix[p] == patterns[p]);
        lemma_resolve_patterns_missing(tones, prefix);
        lemma_resolve_pattern_missing(tones, patterns.last().1@);
        if resolve_patterns_spec(tones, prefix) is Err {
            let (p, i, k) = choose|p: int, i: int, k: int|
                0 <= p < prefix.len() && 0 <= i < prefix[p].1@.len() && 0 <= k
                    < prefix[p].1@[i].notes@.len() && #[trigger] resolved_voice(
                    tones,
                    prefix[p].1@[i].notes@[k],
                ) is None;
            assert(0 <= p < patterns.len() && 0 <= i < patterns[p].1@.len() && 0 <= k
                < patterns[p].1@[i].notes@.len() && resolved_voice(
                tones,
                patterns[p].1@[i].notes@[k],
            ) is None);
        } else if resolve_pattern_spec(tones, patterns.last().1@) is Err {
            let (i, k) = choose|i: int, k: int|
                0 <= i < patterns.last().1@.len() && 0 <= k < patterns.last().1@[i].notes@.len()
                    && #[trigger] resolved_voice(tones, patterns.last().1@[i].notes@[k]) is None;
            assert(patterns[patterns.len() - 1].1@[i] == patterns.last().1@[i]);
            assert(0 <= patterns.len() - 1 < patterns.len() && 0 <= i < (patterns[patterns.len()
                - 1]).1@.len() && 0 <= k < patterns[patterns.len() - 1].1@[i].notes@.len()
                && resolved_voice(tones, patterns[patterns.len() - 1].1@[i].notes@[k]) is None);
        } else {
            assert forall|p: int, i: int, k: int|
                0 <= p < patterns.len() && 0 <= i < patterns[p].1@.len() && 0 <= k
                    < patterns[p].1@[i].notes@.len() implies !(#[trigger] resolved_voice(
                tones,
                patterns[p].1@[i].notes@[k],
            ) is None) by {
                if p < patterns.len() - 1 {
                    assert(prefix[p] == patterns[p]);
                    assert(!(resolved_voice(tones, prefix[p].1@[i].notes@[k]) is None));
                } else {
                    assert(patterns[p].1@[i] == patterns.last().1@[i]);
                    assert(!(resolved_voice(tones, patterns.last().1@[i].notes@[k]) is None));
                }
            }
        }
    }
}

/// Referencing a tone name absent from the catalog anywhere in a pattern
/// makes resolution fail: no track is produced, and the reported error
/// names a tone that is indeed absent from the catalog.
pub proof fn lemma_unknown_tone_rejected(song: SongDescription, p: int, i: int, k: int)
    requires
        0 <= p < song.patterns@.len(),
        0 <= i < song.patterns@[p].1@.len(),
        0 <= k < song.patterns@[p].1@[i].notes@.len(),
        lookup_tone(song.tones@, song.patterns@[p].1@[i].notes@[k].tone@) is None,
    ensures
        resolve_spec(song) is Err,
        resolve_spec(song)->Err_0 matches ResolveIssue::UnknownTone(n) && lookup_tone(
            song.tones@,
            n,
        ) is None,
{
    lemma_resolve_patterns_missing(song.tones@, song.patterns@);
    assert(resolved_voice(song.tones@, song.patterns@[p].1@[i].notes@[k]) is None);
}

proof fn lemma_resolve_track_frame_missing(
    resolved: Seq<(Seq<char>, Seq<(u16, Seq<Tone>)>)>,
    names: Seq<String>,
    off: u16,
)
    requires
        forall|j: int|
            0 <= j < names.len() && lookup_pattern(resolved, (#[trigger] names[j])@) is Some
                ==> frames_fit(lookup_pattern(resolved, names[j]@)->0, off),
    ensures
        resolve_track_frame_spec(resolved, names, off) is Err <==> (exists|j: int|
            0 <= j < names.len() && lookup_pattern(resolved, (#[trigger] names[j])@) is None),
        resolve_track_frame_spec(resolved, names, off) is Err ==> (resolve_track_frame_spec(
            resolved,
            names,
            off,
        )->Err_0 matches ResolveIssue::UnknownPattern(n) && lookup_pattern(resolved, n) is None),
    decreases names.len(),
{
    if names.len() > 0 {
        let prefix = names.drop_last();
        assert(forall|j: int| 0 <= j < prefix.len() ==> #[trigger] prefix[j] == names[j]);
        lemma_resolve_track_frame_missing(resolved, prefix, off);
        if resolve_track_frame_spec(resolved, prefix, off) is Err {
            let j = choose|j: int|
                0 <= j < prefix.len() && lookup_pattern(resolved, (#[trigger] prefix[j])@) is None;
            assert(lookup_pattern(resolved, names[j]@) is None);
        } else if lookup_pattern(resolved, names.last()@) is None {
            assert(lookup_pattern(resolved, names[names.len() - 1]@) is None);
        } else {
            assert(frames_fit(lookup_pattern(resolved, names[names.len() - 1]@)->0, off));
            assert(!(resolve_track_frame_spec(resolved, names, off) is Err));
            assert forall|j: int|
                0 <= j < names.len() implies !(lookup_pattern(
                resolved,
                (#[trigger] names[j])@,
            ) is None) by {
                if j < names.len() - 1 {
                    assert(!(lookup_pattern(resolved, prefix[j]@) is None));
                }
            }
        }
    }
}

proof fn lemma_resolve_track_missing(
    resolved: Seq<(Seq<char>, Seq<(u16, Seq<Tone>)>)>,
    track: Seq<TrackFrameDescription>,
)
    requires
        forall|t: int, j: int|
            0 <= t < track.len() && 0 <= j < track[t].patterns@.len() && #[trigger] lookup_pattern(
                resolved,
                track[t].patterns@[j]@,
            ) is Some ==> frames_fit(
                lookup_pattern(resolved, track[t].patterns@[j]@)->0,
                track[t].frame,
            ),
    ensures
        resolve_track_spec(resolved, track) is Err <==> (exists|t: int, j: int|
            0 <= t < track.len() && 0 <= j < track[t].patterns@.len() && #[trigger] lookup_pattern(
                resolved,
                track[t].patterns@[j]@,
            ) is None),
        resolve_track_spec(resolved, track) is Err ==> (resolve_track_spec(
            resolved,
            track,
        )->Err_0 matches ResolveIssue::UnknownPattern(n) && lookup_pattern(resolved, n) is None),
    decreases track.len(),
{
    if track.len() > 0 {
        let prefix = track.drop_last();
        assert(forall|t: int| 0 <= t < prefix.len() ==> #[trigger] prefix[t] == track[t]);
        lemma_resolve_track_missing(resolved, prefix);
        assert forall|j: int|
            0 <= j < track.last().patterns@.len() && lookup_pattern(
                resolved,
                (#[trigger] track.last().patterns@[j])@,
            ) is Some implies frames_fit(
            lookup_pattern(resolved, track.last().patterns@[j]@)->0,
            track.last().frame,
        ) by {
            assert(track[track.len() - 1].patterns@[j] == track.last().patterns@[j]);
        }
        lemma_resolve_track_frame_missing(resolved, track.last().patterns@, track.last().frame);
        if resolve_track_spec(resolved, prefix) is Err {
            let (t, j) = choose|t: int, j: int|
                0 <= t < prefix.len() && 0 <= j < prefix[t].patterns@.len()
                    && #[trigger] lookup_pattern(resolved, prefix[t].patterns@[j]@) is None;
            assert(0 <= t < track.len() && 0 <= j < track[t].patterns@.len() && lookup_pattern(
                resolved,
                track[t].patterns@[j]@,
            ) is None);
        } else if resolve_track_frame_spec(resolved, track.last().patterns@, track.last().frame) is Err {
            let j = choose|j: int|
                0 <= j < track.last().patterns@.len() && lookup_pattern(
                    resolved,
                    (#[trigger] track.last().patterns@[j])@,
                ) is None;
            assert(track[track.len() - 1].patterns@[j] == track.last().patterns@[j]);
            assert(0 <= track.len() - 1 < track.len() && 0 <= j < (track[track.len()
                - 1]).patterns@.len() && lookup_pattern(
                resolved,
                track[track.len() - 1].patterns@[j]@,
            ) is None);
        } else {
            assert forall|t: int, j: int|
                0 <= t < track.len() && 0 <= j < track[t].patterns@.len() implies !(
            #[trigger] lookup_pattern(resolved, track[t].patterns@[j]@) is None) by {
                if t < track.len() - 1 {
                    assert(prefix[t] == track[t]);
                    assert(!(lookup_pattern(resolved, prefix[t].patterns@[j]@) is None));
                } else {
                    assert(track[t].patterns@[j] == track.last().patterns@[j]);
                    assert(!(lookup_pattern(resolved, track.last().patterns@[j]@) is None));
                }
            }
        }
    }
}

/// Referencing a pattern name absent from the pattern map in the track
/// makes resolution fail, provided every tone reference resolves and no
/// placement overflows the frame range (either of those failures would be
/// reported first): the error names a pattern that is indeed absent.
pub proof fn lemma_unknown_pattern_rejected(song: SongDescription, t: int, j: int)
    requires
        resolve_patterns_spec(song.tones@, song.patterns@) is Ok,
        0 <= t < song.track@.len(),
        0 <= j < song.track@[t].patterns@.len(),
        lookup_pattern(
            resolve_patterns_spec(song.tones@, song.patterns@)->Ok_0,
            song.track@[t].patterns@[j]@,
        ) is None,
        forall|u: int, w: int|
            0 <= u < song.track@.len() && 0 <= w < song.track@[u].patterns@.len()
                && #[trigger] lookup_pattern(
                resolve_patterns_spec(song.tones@, song.patterns@)->Ok_0,
                song.track@[u].patterns@[w]@,
            ) is Some ==> frames_fit(
                lookup_pattern(
                    resolve_patterns_spec(song.tones@, song.patterns@)->Ok_0,
                    song.track@[u].patterns@[w]@,
                )->0,
                song.track@[u].frame,
            ),
    ensures
        resolve_spec(song) is Err,
        resolve_spec(song)->Err_0 matches ResolveIssue::UnknownPattern(n) && lookup_pattern(
            resolve_patterns_spec(song.tones@, song.patterns@)->Ok_0,
            n,
        ) is None,
{
    let resolved = resolve_patterns_spec(song.tones@, song.patterns@)->Ok_0;
    lemma_resolve_track_missing(resolved, song.track@);
}

proof fn lemma_voices_at_one(s: Seq<(u16, Seq<Tone>)>, i: int, f: u16)
    requires
        0 <= i < s.len(),
        s[i].0 == f,
        forall|k: int| 0 <= k < s.len() && k != i ==> (#[trigger] s[k]).0 != f,
    ensures
        voices_at(s, f) == s[i].1,
    decreases s.len(),
{
    let prefix = s.drop_last();
    assert(forall|k: int| 0 <= k < prefix.len() ==> #[trigger] prefix[k] == s[k]);
    if i == s.len() - 1 {
        assert(forall|k: int| 0 <= k < prefix.len() ==> (#[trigger] prefix[k]).0 != f);
        lemma_voices_at_absent(prefix, f);
        assert(voices_at(s, f) =~= s[i].1);
    } else {
        lemma_voices_at_one(prefix, i, f);
        assert(s.last().0 != f);
        assert(voices_at(s, f) =~= s[i].1);
    }
}

proof fn lemma_voices_at_two(s: Seq<(u16, Seq<Tone>)>, i: int, j: int, f: u16)
    requires
        0 <= i < j < s.len(),
        s[i].0 == f,
        s[j].0 == f,
        forall|k: int| 0 <= k < s.len() && k != i && k != j ==> (#[trigger] s[k]).0 != f,
    ensures
        voices_at(s, f) == s[i].1 + s[j].1,
    decreases s.len(),
{
    let prefix = s.drop_last();
    assert(forall|k: int| 0 <= k < prefix.len() ==> #[trigger] prefix[k] == s[k]);
    if j == s.len() - 1 {
        lemma_voices_at_one(prefix, i, f);
        assert(voices_at(s, f) == voices_at(prefix, f) + s[j].1);
    } else {
        lemma_voices_at_two(prefix, i, j, f);
        assert(s.last().0 != f);
        assert(voices_at(s, f) =~= s[i].1 + s[j].1);
    }
}

/// Placing two patterns so that both contribute a note at the same
/// absolute frame yields exactly one merged note at that frame, and its
/// voice list is the concatenation of the two contributions in placement
/// order (so its length is the sum of the two voice counts).
pub proof fn lemma_two_placements_merge(placed: Seq<(u16, Seq<Tone>)>, i: int, j: int)
    requires
        0 <= i < j < placed.len(),
        placed[i].0 == placed[j].0,
        forall|k: int|
            0 <= k < placed.len() && k != i && k != j ==> (#[trigger] placed[k]).0 != placed[i].0,
    ensures
        exists|m: int|
            0 <= m < merge_notes_spec(placed).len() && (#[trigger] merge_notes_spec(placed)[m]).0
                == placed[i].0 && merge_notes_spec(placed)[m].1 == placed[i].1 + placed[j].1,
        forall|m: int, n: int|
            0 <= m < n < merge_notes_spec(placed).len() ==> (#[trigger] merge_notes_spec(
                placed,
            )[m]).0 != (#[trigger] merge_notes_spec(placed)[n]).0,
{
    let f = placed[i].0;
    let merged = merge_notes_spec(placed);
    lemma_merge_properties(placed);
    lemma_sorted_entry_voices(merged);
    lemma_voices_at_two(placed, i, j, f);
    assert(has_frame(placed, f));
    assert(has_frame(merged, f));
    let m = choose|m: int| 0 <= m < merged.len() && (#[trigger] merged[m]).0 == f;
    assert(merged[m].1 == voices_at(merged, merged[m].0));
    assert(voices_at(merged, f) == voices_at(placed, f));
    assert(merged[m].1 == placed[i].1 + placed[j].1);
}

} // verus!
