//! Track format
//!
//! tone = {freq:u32}{dur:u32}{vol:u16}{flags:u16} = 12 B
//! note = {frame_num:u16}{voice_count:u16}{tones:&[tone]} = 4 + (T * 12) B
//! track = {notes:&[note]}{last_frame:u16}

use vstd::prelude::*;

verus! {

/// Note pitch key: one of the 17 canonical pitch-class spellings
/// (sharp and flat spellings of the same semitone are distinct names).
#[derive(Debug, Clone, Copy, PartialEq, Eq, Structural)]
pub enum NotePitchKey {
    /// C.
    C,
    /// C♯.
    Cs,
    /// D♭.
    Db,
    /// D.
    D,
    /// D♯.
    Ds,
    /// E♭.
    Eb,
    /// E.
    E,
    /// F.
    F,
    /// F♯.
    Fs,
    /// G♭.
    Gb,
    /// G.
    G,
    /// G♯.
    Gs,
    /// A♭.
    Ab,
    /// A.
    A,
    /// A♯.
    As,
    /// B♭.
    Bb,
    /// B.
    B,
}

impl NotePitchKey {
    /// Semitone distance of this pitch class above C, in `0..12`.
    pub open spec fn semitones_above_c_spec(self) -> u8 {
        match self {
            Self::C => 0,
            Self::Cs | Self::Db => 1,
            Self::D => 2,
            Self::Ds | Self::Eb => 3,
            Self::E => 4,
            Self::F => 5,
            Self::Fs | Self::Gb => 6,
            Self::G => 7,
            Self::Gs | Self::Ab => 8,
            Self::A => 9,
            Self::As | Self::Bb => 10,
            Self::B => 11,
        }
    }

    fn semitones_above_c(&self) -> (r: u8)
        ensures
            r == self.semitones_above_c_spec(),
    {
        match self {
            Self::C => 0,
            Self::Cs | Self::Db => 1,
            Self::D => 2,
            Self::Ds | Self::Eb => 3,
            Self::E => 4,
            Self::F => 5,
            Self::Fs | Self::Gb => 6,
            Self::G => 7,
            Self::Gs | Self::Ab => 8,
            Self::A => 9,
            Self::As | Self::Bb => 10,
            Self::B => 11,
        }
    }
}

/// `2^(r/12)` for `r` in `0..12`, as a fixed-point integer scaled by `2^32`
/// and truncated. These are the equal-temperament semitone ratios.
pub open spec fn twelfth_root_ratio(r: int) -> int {
    if r == 0 {
        4294967296
    } else if r == 1 {
        4550359341
    } else if r == 2 {
        4820937788
    } else if r == 3 {
        5107605667
    } else if r == 4 {
        5411319704
    } else if r == 5 {
        5733093519
    } else if r == 6 {
        6074000999
    } else if r == 7 {
        6435179894
    } else if r == 8 {
        6817835603
    } else if r == 9 {
        7223245205
    } else if r == 10 {
        7652761716
    } else {
        8107818609
    }
}

fn twelfth_root_ratio_exec(r: u32) -> (out: u64)
    requires
        r < 12,
    ensures
        out == twelfth_root_ratio(r as int),
        out <= 8107818609,
{
    if r == 0 {
        4294967296
    } else if r == 1 {
        4550359341
    } else if r == 2 {
        4820937788
    } else if r == 3 {
        5107605667
    } else if r == 4 {
        5411319704
    } else if r == 5 {
        5733093519
    } else if r == 6 {
        6074000999
    } else if r == 7 {
        6435179894
    } else if r == 8 {
        6817835603
    } else if r == 9 {
        7223245205
    } else if r == 10 {
        7652761716
    } else {
        8107818609
    }
}

/// `2^e` for the small exponents the frequency computation needs.
pub open spec fn pow2_small(e: int) -> int {
    if e <= 0 {
        1
    } else if e == 1 {
        2
    } else if e == 2 {
        4
    } else if e == 3 {
        8
    } else if e == 4 {
        16
    } else if e == 5 {
        32
    } else if e == 6 {
        64
    } else if e == 7 {
        128
    } else if e == 8 {
        256
    } else if e == 9 {
        512
    } else {
        1024
    }
}

fn pow2_small_exec(e: u32) -> (out: u64)
    requires
        e <= 10,
    ensures
        out == pow2_small(e as int),
        out <= 1024,
{
    if e == 0 {
        1
    } else if e == 1 {
        2
    } else if e == 2 {
        4
    } else if e == 3 {
        8
    } else if e == 4 {
        16
    } else if e == 5 {
        32
    } else if e == 6 {
        64
    } else if e == 7 {
        128
    } else if e == 8 {
        256
    } else if e == 9 {
        512
    } else {
        1024
    }
}

/// Frequency in Hz of the pitch `s` semitones above C4, truncated to an
/// integer and clamped to `u16`: `440 * 2^((s - 9) / 12)`, evaluated in
/// fixed-point arithmetic (ratios scaled by `2^32`, then truncated).
pub open spec fn frequency_of_semitones(s: int) -> u16 {
    let t = s - 9 + 1596;
    let r = t % 12;
    let q = t / 12 - 133;
    if q >= 8 {
        65535
    } else if q <= -11 {
        0
    } else {
        let scaled = 440 * twelfth_root_ratio(r);
        let v = if q >= 0 {
            (scaled * pow2_small(q)) / 4294967296
        } else {
            scaled / (pow2_small(-q) * 4294967296)
        };
        if v > 65535 {
            65535
        } else {
            v as u16
        }
    }
}

/// Note pitch.
#[derive(Debug, Clone, Copy, PartialEq, Eq, Structural)]
pub struct NotePitch {
    /// Key.
    pub key: NotePitchKey,
    /// Octave.
    pub octave: i8,
}

impl NotePitch {
    /// Build a new note pitch.
    pub fn new(key: NotePitchKey, octave: i8) -> (r: Self)
        ensures
            r.key == key,
            r.octave == octave,
    {
        Self { key, octave }
    }

    /// Semitone distance of this pitch from C4 (octave 4 is the reference).
    pub open spec fn semitones_above_c4_spec(self) -> int {
        (self.octave - 4) * 12 + self.key.semitones_above_c_spec()
    }

    fn semitones_above_c4(&self) -> (r: i16)
        ensures
            r == self.semitones_above_c4_spec(),
    {
        let octave_length: i16 = 12;
        (self.octave as i16 - 4) * octave_length + self.key.semitones_above_c() as i16
    }

    /// The frequency this pitch denotes, as a pure function of key and octave.
    pub open spec fn frequency_spec(self) -> u16 {
        frequency_of_semitones(self.semitones_above_c4_spec())
    }

    /// Compute the note frequency.
    pub fn as_frequency(&self) -> (r: u16)
        ensures
            r == self.frequency_spec(),
    {
        let semitones = self.semitones_above_c4();
        let t: u32 = (semitones as i32 - 9 + 1596) as u32;
        let r: u32 = t % 12;
        let q: i32 = (t / 12) as i32 - 133;
        if q >= 8 {
            65535
        } else if q <= -11 {
            0
        } else {
            let ratio: u64 = twelfth_root_ratio_exec(r);
            let scaled: u64 = 440 * ratio;
            let v: u64 = if q >= 0 {
                let p: u64 = pow2_small_exec(q as u32);
                assert(scaled * p <= 3567440187960u64 * 1024) by (nonlinear_arith)
                    requires
                        scaled <= 3567440187960u64,
                        p <= 1024u64,
                ;
                (scaled * p) / 4294967296
            } else {
                let p: u64 = pow2_small_exec((-q) as u32);
                scaled / (p * 4294967296)
            };
            if v > 65535 {
                65535
            } else {
                v as u16
            }
        }
    }
}

/// Calling the pitch-to-frequency conversion twice with identical inputs
/// yields identical outputs: the frequency is a pure function of the
/// pitch-class key and the octave alone.
pub proof fn lemma_frequency_deterministic(a: NotePitch, b: NotePitch)
    requires
        a.key == b.key,
        a.octave == b.octave,
    ensures
        a.frequency_spec() == b.frequency_spec(),
{
}

/// A tone: the atomic playable unit, an opaque audio-parameter quadruple.
#[derive(Debug, Clone, Copy, PartialEq, Eq, Structural)]
pub struct Tone {
    /// Frequency parameter.
    pub frequency: u32,
    /// Duration parameter.
    pub duration: u32,
    /// Volume parameter.
    pub volume: u16,
    /// Engine flags.
    pub flags: u16,
}

impl Tone {
    /// The same tone with its frequency component replaced by `frequency`,
    /// all other parameters kept.
    pub open spec fn with_frequency_spec(self, frequency: u16) -> Tone {
        Tone { frequency: frequency as u32, duration: self.duration, volume: self.volume, flags: self.flags }
    }

    /// Clone this tone, overriding its frequency component.
    pub fn with_frequency(&self, frequency: u16) -> (r: Tone)
        ensures
            r == self.with_frequency_spec(frequency),
    {
        Tone {
            frequency: frequency as u32,
            duration: self.duration,
            volume: self.volume,
            flags: self.flags,
        }
    }

    /// The 12-byte wire form of a tone: each field little-endian.
    pub open spec fn to_bytes(self) -> Seq<u8> {
        u32_le_bytes(self.frequency) + u32_le_bytes(self.duration) + u16_le_bytes(self.volume)
            + u16_le_bytes(self.flags)
    }
}

/// The two bytes of `x`, least significant first.
pub open spec fn u16_le_bytes(x: u16) -> Seq<u8> {
    seq![(x & 0xff) as u8, ((x >> 8) & 0xff) as u8]
}

/// The four bytes of `x`, least significant first.
pub open spec fn u32_le_bytes(x: u32) -> Seq<u8> {
    seq![
        (x & 0xff) as u8,
        ((x >> 8) & 0xff) as u8,
        ((x >> 16) & 0xff) as u8,
        ((x >> 24) & 0xff) as u8,
    ]
}

fn push_u16_le(out: &mut Vec<u8>, x: u16)
    ensures
        final(out)@ == old(out)@ + u16_le_bytes(x),
{
    assert((x & 0xff) < 256 && ((x >> 8) & 0xff) < 256) by (bit_vector);
    out.push((x & 0xff) as u8);
    out.push(((x >> 8) & 0xff) as u8);
    assert(out@ =~= old(out)@ + u16_le_bytes(x));
}

fn push_u32_le(out: &mut Vec<u8>, x: u32)
    ensures
        final(out)@ == old(out)@ + u32_le_bytes(x),
{
    assert((x & 0xff) < 256 && ((x >> 8) & 0xff) < 256 && ((x >> 16) & 0xff) < 256 && ((x
        >> 24) & 0xff) < 256) by (bit_vector);
    out.push((x & 0xff) as u8);
    out.push(((x >> 8) & 0xff) as u8);
    out.push(((x >> 16) & 0xff) as u8);
    out.push(((x >> 24) & 0xff) as u8);
    assert(out@ =~= old(out)@ + u32_le_bytes(x));
}

fn push_tone(out: &mut Vec<u8>, tone: &Tone)
    ensures
        final(out)@ == old(out)@ + tone.to_bytes(),
{
    push_u32_le(out, tone.frequency);
    push_u32_le(out, tone.duration);
    push_u16_le(out, tone.volume);
    push_u16_le(out, tone.flags);
    assert(out@ =~= old(out)@ + tone.to_bytes());
}

/// The mathematical model of a note: its frame and the tones of its voices.
pub open spec fn note_model(n: Note) -> (u16, Seq<Tone>) {
    (n.frame, n.voices@)
}

/// The model of a note sequence, element by element.
pub open spec fn notes_model(s: Seq<Note>) -> Seq<(u16, Seq<Tone>)> {
    s.map_values(|n: Note| note_model(n))
}

/// The wire form of the voice list `s`: each tone's 12 bytes, in order.
pub open spec fn tones_bytes(s: Seq<Tone>) -> Seq<u8>
    decreases s.len(),
{
    if s.len() == 0 {
        Seq::empty()
    } else {
        tones_bytes(s.drop_last()) + s.last().to_bytes()
    }
}

/// The wire form of one note: frame, then voice count (a 16-bit field,
/// so a count above `u16::MAX` wraps as the narrowing cast does), then
/// every voice's tone.
pub open spec fn note_bytes(m: (u16, Seq<Tone>)) -> Seq<u8> {
    u16_le_bytes(m.0) + u16_le_bytes(((m.1.len() % 0x10000) as u16)) + tones_bytes(m.1)
}

/// The wire form of a note sequence: each note's bytes, in order.
pub open spec fn track_notes_bytes(s: Seq<(u16, Seq<Tone>)>) -> Seq<u8>
    decreases s.len(),
{
    if s.len() == 0 {
        Seq::empty()
    } else {
        track_notes_bytes(s.drop_last()) + note_bytes(s.last())
    }
}

/// The highest frame value among the notes of `s` (0 when `s` is empty).
pub open spec fn max_frame(s: Seq<(u16, Seq<Tone>)>) -> u16
    decreases s.len(),
{
    if s.len() == 0 {
        0
    } else if s.last().0 >= max_frame(s.drop_last()) {
        s.last().0
    } else {
        max_frame(s.drop_last())
    }
}

/// The complete wire form of a track: every note's bytes, then — only when
/// the track is non-empty — the highest frame value once more as a trailing
/// end-of-track marker.
pub open spec fn track_bytes(s: Seq<(u16, Seq<Tone>)>) -> Seq<u8> {
    if s.len() == 0 {
        Seq::empty()
    } else {
        track_notes_bytes(s) + u16_le_bytes(max_frame(s))
    }
}

/// A note: one or more tones (voices) starting at one absolute frame.
#[derive(Debug)]
pub struct Note {
    /// Frame to play.
    pub frame: u16,
    /// Tones.
    pub voices: Vec<Tone>,
}

impl Note {
    /// Build a new note.
    pub fn new(frame: u16, voices: Vec<Tone>) -> (r: Self)
        ensures
            r.frame == frame,
            r.voices == voices,
    {
        Self { frame, voices }
    }

    /// Append this note's wire form to `out`.
    pub fn write(&self, out: &mut Vec<u8>)
        ensures
            final(out)@ == old(out)@ + note_bytes(note_model(*self)),
    {
        push_u16_le(out, self.frame);
        let count: u16 = (self.voices.len() % 0x10000) as u16;
        push_u16_le(out, count);
        let ghost mid = out@;
        for i in 0..self.voices.len()
            invariant
                out@ == mid + tones_bytes(self.voices@.take(i as int)),
        {
            let ghost pre = out@;
            push_tone(out, &self.voices[i]);
            proof {
                assert(self.voices@.take(i + 1).drop_last() =~= self.voices@.take(i as int));
                assert(self.voices@.take(i + 1).last() == self.voices@[i as int]);
                assert(out@ =~= mid + tones_bytes(self.voices@.take(i + 1)));
            }
        }
        proof {
            assert(self.voices@.take(self.voices@.len() as int) =~= self.voices@);
            assert(out@ =~= old(out)@ + note_bytes(note_model(*self)));
        }
    }
}

/// Music track: the fully resolved, frame-sorted sequence of notes.
#[derive(Debug)]
pub struct Track {
    /// Notes.
    pub notes: Vec<Note>,
}

impl Track {
    /// Append the track's complete wire form to `out`.
    pub fn write(&self, out: &mut Vec<u8>)
        ensures
            final(out)@ == old(out)@ + track_bytes(notes_model(self.notes@)),
    {
        let ghost model = notes_model(self.notes@);
        for i in 0..self.notes.len()
            invariant
                model == notes_model(self.notes@),
                out@ == old(out)@ + track_notes_bytes(model.take(i as int)),
        {
            self.notes[i].write(out);
            proof {
                assert(model.take(i + 1).drop_last() =~= model.take(i as int));
                assert(model.take(i + 1).last() == note_model(self.notes@[i as int]));
                assert(out@ =~= old(out)@ + track_notes_bytes(model.take(i + 1)));
            }
        }
        proof {
            assert(model.take(model.len() as int) =~= model);
        }
        if let Some(last_frame) = self.get_last_frame() {
            push_u16_le(out, last_frame);
        }
    }

    fn get_last_frame(&self) -> (r: Option<u16>)
        ensures
            r is Some <==> self.notes@.len() > 0,
            r is Some ==> r->0 == max_frame(notes_model(self.notes@)),
    {
        let ghost model = notes_model(self.notes@);
        if self.notes.len() == 0 {
            return None;
        }
        let mut best: u16 = 0;
        for i in 0..self.notes.len()
            invariant
                model == notes_model(self.notes@),
                self.notes@.len() > 0,
                best == max_frame(model.take(i as int)),
        {
            if self.notes[i].frame >= best {
                best = self.notes[i].frame;
            }
            proof {
                assert(model.take(i + 1).drop_last() =~= model.take(i as int));
                assert(model.take(i + 1).last() == note_model(self.notes@[i as int]));
            }
        }
        proof {
            assert(model.take(model.len() as int) =~= model);
        }
        Some(best)
    }
}

/// The wire size of a note list: `4 + 12 * v` bytes for a note with `v`
/// voices, summed over the notes.
pub open spec fn notes_wire_len(s: Seq<(u16, Seq<Tone>)>) -> int
    decreases s.len(),
{
    if s.len() == 0 {
        0
    } else {
        notes_wire_len(s.drop_last()) + 4 + 12 * s.last().1.len()
    }
}

proof fn lemma_tones_bytes_len(s: Seq<Tone>)
    ensures
        tones_bytes(s).len() == 12 * s.len(),
    decreases s.len(),
{
    if s.len() > 0 {
        lemma_tones_bytes_len(s.drop_last());
    }
}

proof fn lemma_track_notes_bytes_len(s: Seq<(u16, Seq<Tone>)>)
    ensures
        track_notes_bytes(s).len() == notes_wire_len(s),
    decreases s.len(),
{
    if s.len() > 0 {
        lemma_track_notes_bytes_len(s.drop_last());
        lemma_tones_bytes_len(s.last().1);
    }
}

/// Encoding a track of `N` notes with voice counts `v_1 .. v_N` produces
/// exactly `sum(4 + 12 * v_i) + 2` bytes when `N > 0` (the two extra bytes
/// are the trailing end-of-track marker), and 0 bytes when `N = 0`.
pub proof fn lemma_track_bytes_len(s: Seq<(u16, Seq<Tone>)>)
    ensures
        s.len() == 0 ==> track_bytes(s).len() == 0,
        s.len() > 0 ==> track_bytes(s).len() == notes_wire_len(s) + 2,
{
    lemma_track_notes_bytes_len(s);
}

/// Encoding the same resolved track twice yields byte-identical output:
/// the wire form is a pure function of the notes alone.
pub proof fn lemma_encoding_deterministic(a: Seq<(u16, Seq<Tone>)>, b: Seq<(u16, Seq<Tone>)>)
    requires
        a == b,
    ensures
        track_bytes(a) == track_bytes(b),
{
}

} // verus!
