//! Various units that are useful to express music, together with conversions to and from strings.
use crate::text::{
    all_digits, append_i64, append_u64, dec_digits, dec_int, decimal_signed, decimal_unsigned,
    ends_with_char, is_digit, lacks, lemma_dec_int_parses, lemma_lacks_concat,
    lemma_not_starts_at, lemma_split_cons, lemma_split_nonempty, lemma_split_single,
    lemma_trim_end_all_stops, lemma_trim_start_all_prefix, parse_i8, parse_u64, parse_u8,
    push_char, signed_in_range, split, starts_with, str_ends_with_char, str_eq,
    str_split, str_starts_with, str_strip_prefix, str_trim_end_all, str_trim_start_all, str_views,
    trim_end_all,
    trim_start_all, unsigned_in_range, i8_parse_error, u8_parse_error, u64_parse_error,
};
use vstd::prelude::*;

verus! {

// === Duration ===============================================================================

/// Duration of a note.
#[derive(Clone, Copy, Debug, PartialEq, Eq, Structural)]
pub enum Duration {
    /// Raw ticks of the sequencer.
    Ticks(u64),
    /// Beats, and beats per bar. Note: This is unlike MIDI, which usually assumes a beat is a
    /// quarter note.
    Beats(u64, u64),
    /// Beginning of note duration, until explicit end.
    Begin,
    /// End of note duration (required matching Begin).
    End,
}

/// The text form of a duration: `<ticks>t`, `<beats>/<beats per bar>`, `*` or `-`.
pub open spec fn duration_text(d: Duration) -> Seq<char> {
    match d {
        Duration::Ticks(t) => dec_digits(t as nat).push('t'),
        Duration::Beats(b, bpb) => dec_digits(b as nat) + seq!['/'] + dec_digits(bpb as nat),
        Duration::Begin => seq!['*'],
        Duration::End => seq!['-'],
    }
}

/// Text that is neither `*`, `-`, ticks (ending in `t`) nor of the shape `<a>/<b>`.
pub open spec fn duration_shape_invalid(s: Seq<char>) -> bool {
    &&& s != seq!['*']
    &&& s != seq!['-']
    &&& !ends_with_char(s, 't')
    &&& split(s, '/').len() != 2
}

/// The duration that a text denotes, if any.
pub open spec fn duration_from_text(s: Seq<char>) -> Option<Duration> {
    if s == seq!['*'] {
        Some(Duration::Begin)
    } else if s == seq!['-'] {
        Some(Duration::End)
    } else if ends_with_char(s, 't') {
        let t = trim_end_all(s, 't');
        if unsigned_in_range(t, u64::MAX as int) {
            Some(Duration::Ticks(decimal_unsigned(t)->0 as u64))
        } else {
            None
        }
    } else {
        let parts = split(s, '/');
        if parts.len() == 2 && unsigned_in_range(parts[0], u64::MAX as int) && unsigned_in_range(
            parts[1],
            u64::MAX as int,
        ) {
            Some(
                Duration::Beats(
                    decimal_unsigned(parts[0])->0 as u64,
                    decimal_unsigned(parts[1])->0 as u64,
                ),
            )
        } else {
            None
        }
    }
}

/// The message for a text that is no duration: std's message for the first number that does not
/// read, or `invalid duration: <s>` for text of no duration's shape.
pub open spec fn duration_error(s: Seq<char>) -> Seq<char> {
    if ends_with_char(s, 't') && s != seq!['*'] && s != seq!['-'] {
        u64_parse_error(trim_end_all(s, 't'))
    } else {
        let parts = split(s, '/');
        if parts.len() == 2 {
            if !unsigned_in_range(parts[0], u64::MAX as int) {
                u64_parse_error(parts[0])
            } else {
                u64_parse_error(parts[1])
            }
        } else {
            "invalid duration: "@ + s
        }
    }
}

impl Duration {
    /// Parses the text form of a duration (see `duration_text`).
    pub fn parse(s: &str) -> (r: Result<Duration, String>)
        ensures
            r is Ok <==> duration_from_text(s@) is Some,
            r matches Ok(d) ==> duration_from_text(s@) == Some(d),
            r matches Err(e) ==> e@ == duration_error(s@),
            duration_shape_invalid(s@) ==> (r matches Err(e) && e@ == "invalid duration: "@ + s@),
    {
        let star = "*";
        let dash = "-";
        proof {
            reveal_strlit("*");
            reveal_strlit("-");
        }
        assert(star@ =~= seq!['*']);
        assert(dash@ =~= seq!['-']);
        if str_eq(s, star) {
            Ok(Duration::Begin)
        } else if str_eq(s, dash) {
            Ok(Duration::End)
        } else if str_ends_with_char(s, 't') {
            let t = str_trim_end_all(s, 't');
            match parse_u64(t) {
                Ok(v) => Ok(Duration::Ticks(v)),
                Err(e) => Err(e),
            }
        } else {
            let parts = str_split(s, '/');
            assert(parts@.len() == split(s@, '/').len());
            if parts.len() == 2 {
                assert(parts@[0]@ == split(s@, '/')[0]);
                assert(parts@[1]@ == split(s@, '/')[1]);
                let beats = match parse_u64(parts[0]) {
                    Ok(v) => v,
                    Err(e) => {
                        return Err(e);
                    },
                };
                let per_bar = match parse_u64(parts[1]) {
                    Ok(v) => v,
                    Err(e) => {
                        return Err(e);
                    },
                };
                Ok(Duration::Beats(beats, per_bar))
            } else {
                let mut msg = String::new();
                msg.append("invalid duration: ");
                msg.append(s);
                Err(msg)
            }
        }
    }

    /// The text form of this duration (see `duration_text`).
    pub fn to_string(&self) -> (r: String)
        ensures
            r@ == duration_text(*self),
    {
        let mut r = String::new();
        match *self {
            Duration::Ticks(t) => {
                append_u64(&mut r, t);
                push_char(&mut r, 't');
            },
            Duration::Beats(b, bpb) => {
                append_u64(&mut r, b);
                push_char(&mut r, '/');
                append_u64(&mut r, bpb);
            },
            Duration::Begin => push_char(&mut r, '*'),
            Duration::End => push_char(&mut r, '-'),
        }
        assert(r@ =~= duration_text(*self));
        r
    }
}

impl core::str::FromStr for Duration {
    type Err = String;

    fn from_str(s: &str) -> (r: Result<Self, String>)
        ensures
            r is Ok <==> duration_from_text(s@) is Some,
            r matches Ok(d) ==> duration_from_text(s@) == Some(d),
            r matches Err(e) ==> e@ == duration_error(s@),
            duration_shape_invalid(s@) ==> (r matches Err(e) && e@ == "invalid duration: "@ + s@),
    {
        Duration::parse(s)
    }
}


// === Note ===================================================================================

/// Musical scales/modes: the first element is the key, with relative note of the second element.
#[derive(Clone, Copy, Debug, PartialEq, Eq, Hash, Structural)]
pub enum Note {
    /// Raw MIDI note / chromatic scales.
    Raw(i8),
    /// Major scales (ionian mode).
    Maj(u8, i8),
    /// Natural minor scales (aeolian mode).
    Min(u8, i8),
    /// Harmonic minor scales.
    HMin(u8, i8),
    /// Melodic minor scales.
    MMin(u8, i8),
    /// Phrygian modes.
    Phr(u8, i8),
    /// Dorian modes.
    Dor(u8, i8),
    /// Lydian modes.
    Lyd(u8, i8),
    /// Mixolydian modes.
    Mix(u8, i8),
    /// Locrian modes.
    Loc(u8, i8),
    /// Minor pentatonic scales.
    MinPent(u8, i8),
    /// Major pentatonic scales.
    MajPent(u8, i8),
    /// Blues scales (minor pentatonic with added flat fifth "blue note").
    Blues(u8, i8),
}

/// Number of scale kinds (every variant of `Note` but `Raw`), numbered in declaration order.
pub open spec fn num_scales() -> int {
    12
}

/// The scale kind of a note (`num_scales()` for a raw note).
pub open spec fn scale_kind(n: Note) -> int {
    match n {
        Note::Raw(_) => 12,
        Note::Maj(_, _) => 0,
        Note::Min(_, _) => 1,
        Note::HMin(_, _) => 2,
        Note::MMin(_, _) => 3,
        Note::Phr(_, _) => 4,
        Note::Dor(_, _) => 5,
        Note::Lyd(_, _) => 6,
        Note::Mix(_, _) => 7,
        Note::Loc(_, _) => 8,
        Note::MinPent(_, _) => 9,
        Note::MajPent(_, _) => 10,
        Note::Blues(_, _) => 11,
    }
}

/// The key of a scale note.
pub open spec fn scale_key(n: Note) -> u8 {
    match n {
        Note::Raw(_) => 0,
        Note::Maj(k, _) | Note::Min(k, _) | Note::HMin(k, _) | Note::MMin(k, _) | Note::Phr(k, _)
        | Note::Dor(k, _) | Note::Lyd(k, _) | Note::Mix(k, _) | Note::Loc(k, _) | Note::MinPent(
            k,
            _,
        ) | Note::MajPent(k, _) | Note::Blues(k, _) => k,
    }
}

/// The degree (relative note) of a scale note, or the raw MIDI note.
pub open spec fn scale_offset(n: Note) -> i8 {
    match n {
        Note::Raw(o) => o,
        Note::Maj(_, o) | Note::Min(_, o) | Note::HMin(_, o) | Note::MMin(_, o) | Note::Phr(_, o)
        | Note::Dor(_, o) | Note::Lyd(_, o) | Note::Mix(_, o) | Note::Loc(_, o) | Note::MinPent(
            _,
            o,
        ) | Note::MajPent(_, o) | Note::Blues(_, o) => o,
    }
}

/// The note of scale kind `kind` with the given key and degree.
pub open spec fn scale_note(kind: int, key: u8, off: i8) -> Note {
    if kind == 0 {
        Note::Maj(key, off)
    } else if kind == 1 {
        Note::Min(key, off)
    } else if kind == 2 {
        Note::HMin(key, off)
    } else if kind == 3 {
        Note::MMin(key, off)
    } else if kind == 4 {
        Note::Phr(key, off)
    } else if kind == 5 {
        Note::Dor(key, off)
    } else if kind == 6 {
        Note::Lyd(key, off)
    } else if kind == 7 {
        Note::Mix(key, off)
    } else if kind == 8 {
        Note::Loc(key, off)
    } else if kind == 9 {
        Note::MinPent(key, off)
    } else if kind == 10 {
        Note::MajPent(key, off)
    } else {
        Note::Blues(key, off)
    }
}

/// Semitones above the key of each degree within one octave of a scale kind.
pub open spec fn scale_steps(kind: int) -> Seq<int> {
    if kind == 0 {
        seq![0, 2, 4, 5, 7, 9, 11]
    } else if kind == 1 {
        seq![0, 2, 3, 5, 7, 8, 10]
    } else if kind == 2 {
        seq![0, 2, 3, 5, 7, 8, 11]
    } else if kind == 3 {
        seq![0, 2, 3, 5, 7, 8, 9, 10, 11]
    } else if kind == 4 {
        seq![0, 1, 3, 5, 7, 8, 10]
    } else if kind == 5 {
        seq![0, 2, 3, 5, 7, 9, 10]
    } else if kind == 6 {
        seq![0, 2, 4, 6, 7, 9, 11]
    } else if kind == 7 {
        seq![0, 2, 4, 5, 7, 9, 10]
    } else if kind == 8 {
        seq![0, 1, 3, 5, 6, 8, 10]
    } else if kind == 9 {
        seq![0, 3, 5, 7, 10]
    } else if kind == 10 {
        seq![0, 2, 4, 7, 9]
    } else {
        seq![0, 3, 5, 6, 7, 10]
    }
}

/// The pitch (MIDI note number, possibly out of MIDI range) of degree `off` of a scale: degrees
/// wrap into octaves of 12 semitones, also below the key.
pub open spec fn scale_pitch(kind: int, key: int, off: int) -> int {
    let len = scale_steps(kind).len() as int;
    key + (off / len) * 12 + scale_steps(kind)[off % len]
}

/// The pitch of a note as a MIDI note number, possibly out of the MIDI range `0..=127`.
pub open spec fn note_pitch(n: Note) -> int {
    match n {
        Note::Raw(v) => v as int,
        _ => scale_pitch(scale_kind(n), scale_key(n) as int, scale_offset(n) as int),
    }
}

/// The text that starts a note of scale kind `kind`: its name and `@`.
pub open spec fn scale_prefix(kind: int) -> Seq<char> {
    if kind == 0 {
        seq!['m', 'a', 'j', '@']
    } else if kind == 1 {
        seq!['m', 'i', 'n', '@']
    } else if kind == 2 {
        seq!['h', 'm', 'i', 'n', '@']
    } else if kind == 3 {
        seq!['m', 'm', 'i', 'n', '@']
    } else if kind == 4 {
        seq!['p', 'h', 'r', '@']
    } else if kind == 5 {
        seq!['d', 'o', 'r', '@']
    } else if kind == 6 {
        seq!['l', 'y', 'd', '@']
    } else if kind == 7 {
        seq!['m', 'i', 'x', '@']
    } else if kind == 8 {
        seq!['l', 'o', 'c', '@']
    } else if kind == 9 {
        seq!['m', 'i', 'n', 'p', 'e', 'n', 't', '@']
    } else if kind == 10 {
        seq!['m', 'a', 'j', 'p', 'e', 'n', 't', '@']
    } else {
        seq!['b', 'l', 'u', 'e', 's', '@']
    }
}

/// The text form of a note: `@<note>` or `<scale>@<key>:<degree>`.
pub open spec fn note_text(n: Note) -> Seq<char> {
    match n {
        Note::Raw(v) => seq!['@'] + dec_int(v as int),
        _ => scale_prefix(scale_kind(n)) + dec_digits(scale_key(n) as nat) + seq![':'] + dec_int(
            scale_offset(n) as int,
        ),
    }
}

/// The first scale kind at or after `k` whose prefix starts `s` (`num_scales()` if none does).
pub open spec fn first_scale_from(s: Seq<char>, k: int) -> int
    decreases 12 - k,
{
    if k >= 12 {
        12
    } else if starts_with(s, scale_prefix(k)) {
        k
    } else {
        first_scale_from(s, k + 1)
    }
}

/// The scale kind whose prefix starts `s` (`num_scales()` if none does).
pub open spec fn scale_of_text(s: Seq<char>) -> int {
    first_scale_from(s, 0)
}

/// The pieces of a scale note's text after its prefix, split at `:`.
pub open spec fn scale_text_fields(s: Seq<char>) -> Seq<Seq<char>> {
    split(trim_start_all(s, scale_prefix(scale_of_text(s))), ':')
}

/// Text of a scale note whose key parses but which has no `:` before the degree, so that there
/// is no degree to read: `Note::parse` requires text of another shape, and reading the text
/// with `FromStr` fails on it.
pub open spec fn note_parse_panics(s: Seq<char>) -> bool {
    &&& !starts_with(s, seq!['@'])
    &&& scale_of_text(s) < 12
    &&& unsigned_in_range(scale_text_fields(s)[0], 255)
    &&& scale_text_fields(s).len() < 2
}

/// Text that starts neither with `@` nor with a scale prefix.
pub open spec fn note_unknown(s: Seq<char>) -> bool {
    !starts_with(s, seq!['@']) && scale_of_text(s) == 12
}

/// The note that a text denotes, if any.
pub open spec fn note_from_text(s: Seq<char>) -> Option<Note> {
    if starts_with(s, seq!['@']) {
        let t = trim_start_all(s, seq!['@']);
        if signed_in_range(t, -128, 127) {
            Some(Note::Raw(decimal_signed(t)->0 as i8))
        } else {
            None
        }
    } else if scale_of_text(s) == 12 {
        None
    } else {
        let f = scale_text_fields(s);
        if unsigned_in_range(f[0], 255) && f.len() >= 2 && signed_in_range(f[1], -128, 127) {
            Some(
                scale_note(
                    scale_of_text(s),
                    decimal_unsigned(f[0])->0 as u8,
                    decimal_signed(f[1])->0 as i8,
                ),
            )
        } else {
            None
        }
    }
}

pub proof fn lemma_scale_note_parts(n: Note)
    ensures
        scale_kind(n) < 12 ==> n == scale_note(scale_kind(n), scale_key(n), scale_offset(n)),
        0 <= scale_kind(n) <= 12,
{
}

/// Returns the text that starts scale kind `kind`.
fn scale_prefix_str(kind: usize) -> (r: &'static str)
    requires
        kind < 12,
    ensures
        r@ == scale_prefix(kind as int),
{
    let r = if kind == 0 {
        "maj@"
    } else if kind == 1 {
        "min@"
    } else if kind == 2 {
        "hmin@"
    } else if kind == 3 {
        "mmin@"
    } else if kind == 4 {
        "phr@"
    } else if kind == 5 {
        "dor@"
    } else if kind == 6 {
        "lyd@"
    } else if kind == 7 {
        "mix@"
    } else if kind == 8 {
        "loc@"
    } else if kind == 9 {
        "minpent@"
    } else if kind == 10 {
        "majpent@"
    } else {
        "blues@"
    };
    proof {
        reveal_strlit("maj@");
        reveal_strlit("min@");
        reveal_strlit("hmin@");
        reveal_strlit("mmin@");
        reveal_strlit("phr@");
        reveal_strlit("dor@");
        reveal_strlit("lyd@");
        reveal_strlit("mix@");
        reveal_strlit("loc@");
        reveal_strlit("minpent@");
        reveal_strlit("majpent@");
        reveal_strlit("blues@");
    }
    assert(r@ =~= scale_prefix(kind as int));
    r
}

/// Returns the semitone steps of scale kind `kind`.
fn scale_steps_vec(kind: usize) -> (r: Vec<i32>)
    requires
        kind < 12,
    ensures
        r@.len() == scale_steps(kind as int).len(),
        forall|i: int| 0 <= i < r@.len() ==> r@[i] as int == #[trigger] scale_steps(kind as int)[i],
{
    let r: Vec<i32> = if kind == 0 {
        vec![0, 2, 4, 5, 7, 9, 11]
    } else if kind == 1 {
        vec![0, 2, 3, 5, 7, 8, 10]
    } else if kind == 2 {
        vec![0, 2, 3, 5, 7, 8, 11]
    } else if kind == 3 {
        vec![0, 2, 3, 5, 7, 8, 9, 10, 11]
    } else if kind == 4 {
        vec![0, 1, 3, 5, 7, 8, 10]
    } else if kind == 5 {
        vec![0, 2, 3, 5, 7, 9, 10]
    } else if kind == 6 {
        vec![0, 2, 4, 6, 7, 9, 11]
    } else if kind == 7 {
        vec![0, 2, 4, 5, 7, 9, 10]
    } else if kind == 8 {
        vec![0, 1, 3, 5, 6, 8, 10]
    } else if kind == 9 {
        vec![0, 3, 5, 7, 10]
    } else if kind == 10 {
        vec![0, 2, 4, 7, 9]
    } else {
        vec![0, 3, 5, 6, 7, 10]
    };
    r
}

/// Convert a note (in scale dimension) to octave index and offset into that octave.
fn get_octave_offset(note: i8, octave_len: u8) -> (r: (i32, i32))
    requires
        0 < octave_len,
    ensures
        r.0 == (note as int) / (octave_len as int),
        r.1 == (note as int) % (octave_len as int),
        -128 <= r.0 < 128,
        0 <= r.1 < octave_len,
{
    let note = note as i32;
    let octave_len = octave_len as i32;
    let octave = if note >= 0 {
        note / octave_len
    } else {
        (note + 1) / octave_len - 1
    };
    assert(octave == (note as int) / (octave_len as int) && -128 <= octave < 128 && note - octave
        * octave_len == (note as int) % (octave_len as int) && 0 <= note - octave * octave_len
        < octave_len && -40000 < octave * octave_len < 40000) by (nonlinear_arith)
        requires
            0 < octave_len <= 255,
            -128 <= note < 128,
            note >= 0 ==> octave == note / octave_len,
            note < 0 ==> octave == -((-(note as int + 1)) / (octave_len as int)) - 1,
    {
    }
    let offset = note - octave * octave_len;
    (octave, offset)
}

/// The message for a text that is no note: std's message for the number that does not read, or
/// `unknown note: <s>` or `missing degree: <s>`.
pub open spec fn note_error(s: Seq<char>) -> Seq<char> {
    if starts_with(s, seq!['@']) {
        i8_parse_error(trim_start_all(s, seq!['@']))
    } else if scale_of_text(s) == 12 {
        "unknown note: "@ + s
    } else {
        let f = scale_text_fields(s);
        if !unsigned_in_range(f[0], 255) {
            u8_parse_error(f[0])
        } else if f.len() < 2 {
            "missing degree: "@ + s
        } else {
            i8_parse_error(f[1])
        }
    }
}

impl Note {
    /// The scale kind, key and degree of this note (kind `num_scales()` for a raw note).
    fn parts(&self) -> (r: (usize, u8, i8))
        ensures
            r.0 as int == scale_kind(*self),
            r.1 == scale_key(*self),
            r.2 == scale_offset(*self),
    {
        match *self {
            Note::Raw(o) => (12, 0, o),
            Note::Maj(k, o) => (0, k, o),
            Note::Min(k, o) => (1, k, o),
            Note::HMin(k, o) => (2, k, o),
            Note::MMin(k, o) => (3, k, o),
            Note::Phr(k, o) => (4, k, o),
            Note::Dor(k, o) => (5, k, o),
            Note::Lyd(k, o) => (6, k, o),
            Note::Mix(k, o) => (7, k, o),
            Note::Loc(k, o) => (8, k, o),
            Note::MinPent(k, o) => (9, k, o),
            Note::MajPent(k, o) => (10, k, o),
            Note::Blues(k, o) => (11, k, o),
        }
    }

    /// The note of scale kind `kind` with the given key and degree.
    fn from_parts(kind: usize, key: u8, off: i8) -> (r: Note)
        requires
            kind < 12,
        ensures
            r == scale_note(kind as int, key, off),
    {
        if kind == 0 {
            Note::Maj(key, off)
        } else if kind == 1 {
            Note::Min(key, off)
        } else if kind == 2 {
            Note::HMin(key, off)
        } else if kind == 3 {
            Note::MMin(key, off)
        } else if kind == 4 {
            Note::Phr(key, off)
        } else if kind == 5 {
            Note::Dor(key, off)
        } else if kind == 6 {
            Note::Lyd(key, off)
        } else if kind == 7 {
            Note::Mix(key, off)
        } else if kind == 8 {
            Note::Loc(key, off)
        } else if kind == 9 {
            Note::MinPent(key, off)
        } else if kind == 10 {
            Note::MajPent(key, off)
        } else {
            Note::Blues(key, off)
        }
    }

    /// The pitch of this note (see `note_pitch`), computed in `i32`.
    fn pitch(&self) -> (r: i32)
        ensures
            r as int == note_pitch(*self),
    {
        let (kind, key, off) = self.parts();
        if kind == 12 {
            return off as i32;
        }
        let steps = scale_steps_vec(kind);
        let len = steps.len();
        let (octave, offset) = get_octave_offset(off, len as u8);
        let step = steps[offset as usize];
        assert(0 <= step <= 11) by {
            assert(scale_steps(kind as int)[offset as int] == step as int);
        }
        (key as i32) + octave * 12 + step
    }

    /// Convert a note to a raw MIDI note; fails when the pitch is outside `0..=127`.
    pub fn to_midi(&self) -> (r: Result<u8, String>)
        ensures
            0 <= note_pitch(*self) <= 127 ==> r == Ok::<u8, String>(note_pitch(*self) as u8),
            !(0 <= note_pitch(*self) <= 127) ==> (r matches Err(e) && e@ == "invalid note: "@
                + note_text(*self)),
    {
        let ret = self.pitch();
        if ret < 0 || ret > 127 {
            let mut msg = String::new();
            msg.append("invalid note: ");
            let t = self.to_string();
            msg.append(t.as_str());
            Err(msg)
        } else {
            Ok(ret as u8)
        }
    }

    /// The text form of this note (see `note_text`).
    pub fn to_string(&self) -> (r: String)
        ensures
            r@ == note_text(*self),
    {
        let (kind, key, off) = self.parts();
        let mut r = String::new();
        if kind == 12 {
            push_char(&mut r, '@');
            append_i64(&mut r, off as i64);
        } else {
            r.append(scale_prefix_str(kind));
            append_u64(&mut r, key as u64);
            push_char(&mut r, ':');
            append_i64(&mut r, off as i64);
        }
        assert(r@ =~= note_text(*self));
        r
    }

    /// Parses the text form of a note (see `note_text`). Parsing a number fails with std's message.
    pub fn parse(s: &str) -> (r: Result<Note, String>)
        requires
            !note_parse_panics(s@),
        ensures
            r matches Err(e) ==> e@ == note_error(s@),
            r is Ok <==> note_from_text(s@) is Some,
            r matches Ok(n) ==> note_from_text(s@) == Some(n),
            note_unknown(s@) ==> (r matches Err(e) && e@ == "unknown note: "@ + s@),
    {
        Note::parse_fields(s)
    }

    /// Parses a note; a scale note whose text lacks the `:` before its degree is an error.
    pub(crate) fn parse_fields(s: &str) -> (r: Result<Note, String>)
        ensures
            r matches Err(e) ==> e@ == note_error(s@),
            note_parse_panics(s@) ==> (r matches Err(e) && e@ == "missing degree: "@ + s@),
            r is Ok <==> note_from_text(s@) is Some,
            r matches Ok(n) ==> note_from_text(s@) == Some(n),
            note_unknown(s@) ==> (r matches Err(e) && e@ == "unknown note: "@ + s@),
    {
        let at = "@";
        proof {
            reveal_strlit("@");
        }
        assert(at@ =~= seq!['@']);
        if str_starts_with(s, at) {
            let t = str_trim_start_all(s, at);
            return match parse_i8(t) {
                Ok(v) => Ok(Note::Raw(v)),
                Err(e) => Err(e),
            };
        }
        let mut kind: usize = 0;
        while kind < 12 && !str_starts_with(s, scale_prefix_str(kind))
            invariant
                kind <= 12,
                first_scale_from(s@, kind as int) == scale_of_text(s@),
            decreases 12 - kind,
        {
            kind = kind + 1;
        }
        if kind == 12 {
            let mut msg = String::new();
            msg.append("unknown note: ");
            msg.append(s);
            return Err(msg);
        }
        assert(scale_of_text(s@) == kind as int);
        let rest = str_trim_start_all(s, scale_prefix_str(kind));
        let fields = str_split(rest, ':');
        proof {
            lemma_split_nonempty(rest@, ':');
        }
        assert(fields@.len() == scale_text_fields(s@).len());
        assert(fields@[0]@ == str_views(fields@)[0]);
        let key = match parse_u8(fields[0]) {
            Ok(v) => v,
            Err(e) => {
                return Err(e);
            },
        };
        if fields.len() < 2 {
            let mut msg = String::new();
            msg.append("missing degree: ");
            msg.append(s);
            return Err(msg);
        }
        assert(fields@[1]@ == str_views(fields@)[1]);
        let off = match parse_i8(fields[1]) {
            Ok(v) => v,
            Err(e) => {
                return Err(e);
            },
        };
        Ok(Note::from_parts(kind, key, off))
    }
}


impl core::str::FromStr for Note {
    type Err = String;

    /// Reads the text form of a note (see `note_from_text`); a scale note without a degree is an
    /// error.
    fn from_str(s: &str) -> (r: Result<Self, String>)
        ensures
            r is Ok <==> note_from_text(s@) is Some,
            r matches Err(e) ==> e@ == note_error(s@),
            r matches Ok(n) ==> note_from_text(s@) == Some(n),
            note_unknown(s@) ==> (r matches Err(e) && e@ == "unknown note: "@ + s@),
            note_parse_panics(s@) ==> (r matches Err(e) && e@ == "missing degree: "@ + s@),
    {
        Note::parse_fields(s)
    }
}

impl From<&Note> for Result<u8, String> {
    /// The raw MIDI note of `note` (see `Note::to_midi`).
    fn from(note: &Note) -> (r: Result<u8, String>)
        ensures
            0 <= note_pitch(*note) <= 127 ==> r == Ok::<u8, String>(note_pitch(*note) as u8),
            !(0 <= note_pitch(*note) <= 127) ==> (r matches Err(e) && e@ == "invalid note: "@
                + note_text(*note)),
    {
        note.to_midi()
    }
}

/// The error of this conversion holds a message built at run time, which no spec value can name;
/// what `from` returns is stated in its own contract instead.
impl vstd::std_specs::convert::FromSpecImpl<&Note> for Result<u8, String> {
    open spec fn obeys_from_spec() -> bool {
        false
    }

    open spec fn from_spec(note: &Note) -> Result<u8, String> {
        arbitrary()
    }
}

// === Velocity ===============================================================================

/// Common note velocities.
#[derive(Clone, Copy, Debug, PartialEq, Eq, Structural)]
pub enum Velocity {
    Raw(u8),
    Silent,
    Pppp,
    Ppp,
    Pp,
    P,
    Mp,
    Mf,
    F,
    Ff,
    Fff,
    Ffff,
}

/// The raw MIDI velocity of a velocity.
pub open spec fn velocity_value(v: Velocity) -> u8 {
    match v {
        Velocity::Raw(x) => x,
        Velocity::Silent => 0,
        Velocity::Pppp => 8,
        Velocity::Ppp => 20,
        Velocity::Pp => 31,
        Velocity::P => 42,
        Velocity::Mp => 53,
        Velocity::Mf => 64,
        Velocity::F => 80,
        Velocity::Ff => 96,
        Velocity::Fff => 112,
        Velocity::Ffff => 127,
    }
}

/// The named velocities, in order.
pub open spec fn named_velocity(i: int) -> Velocity {
    if i == 0 {
        Velocity::Silent
    } else if i == 1 {
        Velocity::Pppp
    } else if i == 2 {
        Velocity::Ppp
    } else if i == 3 {
        Velocity::Pp
    } else if i == 4 {
        Velocity::P
    } else if i == 5 {
        Velocity::Mp
    } else if i == 6 {
        Velocity::Mf
    } else if i == 7 {
        Velocity::F
    } else if i == 8 {
        Velocity::Ff
    } else if i == 9 {
        Velocity::Fff
    } else {
        Velocity::Ffff
    }
}

/// The word for the `i`-th named velocity.
pub open spec fn velocity_word(i: int) -> Seq<char> {
    if i == 0 {
        seq!['-']
    } else if i == 1 {
        seq!['p', 'p', 'p', 'p']
    } else if i == 2 {
        seq!['p', 'p', 'p']
    } else if i == 3 {
        seq!['p', 'p']
    } else if i == 4 {
        seq!['p']
    } else if i == 5 {
        seq!['m', 'p']
    } else if i == 6 {
        seq!['m', 'f']
    } else if i == 7 {
        seq!['f']
    } else if i == 8 {
        seq!['f', 'f']
    } else if i == 9 {
        seq!['f', 'f', 'f']
    } else {
        seq!['f', 'f', 'f', 'f']
    }
}

/// The text form of a velocity: its word, or `@<value>` for a raw velocity.
pub open spec fn velocity_text(v: Velocity) -> Seq<char> {
    match v {
        Velocity::Raw(x) => seq!['@'] + dec_digits(x as nat),
        Velocity::Silent => velocity_word(0),
        Velocity::Pppp => velocity_word(1),
        Velocity::Ppp => velocity_word(2),
        Velocity::Pp => velocity_word(3),
        Velocity::P => velocity_word(4),
        Velocity::Mp => velocity_word(5),
        Velocity::Mf => velocity_word(6),
        Velocity::F => velocity_word(7),
        Velocity::Ff => velocity_word(8),
        Velocity::Fff => velocity_word(9),
        Velocity::Ffff => velocity_word(10),
    }
}

/// The first named velocity at or after `i` whose word is `w`.
pub open spec fn velocity_from_word_from(w: Seq<char>, i: int) -> Option<Velocity>
    decreases 11 - i,
{
    if i >= 11 {
        None
    } else if w == velocity_word(i) {
        Some(named_velocity(i))
    } else {
        velocity_from_word_from(w, i + 1)
    }
}

/// The named velocity whose word is `w`, if any.
pub open spec fn velocity_from_word(w: Seq<char>) -> Option<Velocity> {
    velocity_from_word_from(w, 0)
}

/// What the text of a velocity reads as: `@<value>` for a raw velocity, the value read as std
/// reads a `u8`; otherwise a velocity word in any letter case.
pub open spec fn velocity_from_text(s: Seq<char>) -> Option<Velocity> {
    if s.len() > 0 && s[0] == '@' {
        match decimal_unsigned(s.drop_first()) {
            Some(v) => if v <= 255 {
                Some(Velocity::Raw(v as u8))
            } else {
                None
            },
            None => None,
        }
    } else {
        velocity_from_word(folded(s))
    }
}

/// What std's `str::to_lowercase` returns for a text (Unicode lowercase mapping).
pub uninterp spec fn lowercase(s: Seq<char>) -> Seq<char>;

pub open spec fn is_ascii_text(s: Seq<char>) -> bool {
    forall|i: int| 0 <= i < s.len() ==> (#[trigger] s[i] as int) < 128
}

pub open spec fn ascii_lower_char(c: char) -> char {
    if 'A' <= c && c <= 'Z' {
        ((c as int) + 32) as char
    } else {
        c
    }
}

pub open spec fn ascii_lower(s: Seq<char>) -> Seq<char> {
    s.map_values(|c: char| ascii_lower_char(c))
}

/// The lowercase form of a text: the ASCII mapping for ASCII text, else std's Unicode mapping.
pub open spec fn folded(s: Seq<char>) -> Seq<char> {
    if is_ascii_text(s) {
        ascii_lower(s)
    } else {
        lowercase(s)
    }
}

/// Lowercases a text with std's `str::to_lowercase`. On ASCII text this maps `A`-`Z` to
/// `a`-`z` and keeps every other character; the Unicode mapping of other text is not stated.
#[verifier::external_body]
fn to_lowercase(s: &str) -> (r: String)
    ensures
        r@ == lowercase(s@),
        is_ascii_text(s@) ==> r@ == ascii_lower(s@),
{
    s.to_lowercase()
}

/// Returns the word of the `i`-th named velocity.
fn velocity_word_str(i: usize) -> (r: &'static str)
    requires
        i < 11,
    ensures
        r@ == velocity_word(i as int),
{
    let r = if i == 0 {
        "-"
    } else if i == 1 {
        "pppp"
    } else if i == 2 {
        "ppp"
    } else if i == 3 {
        "pp"
    } else if i == 4 {
        "p"
    } else if i == 5 {
        "mp"
    } else if i == 6 {
        "mf"
    } else if i == 7 {
        "f"
    } else if i == 8 {
        "ff"
    } else if i == 9 {
        "fff"
    } else {
        "ffff"
    };
    proof {
        reveal_strlit("-");
        reveal_strlit("pppp");
        reveal_strlit("ppp");
        reveal_strlit("pp");
        reveal_strlit("p");
        reveal_strlit("mp");
        reveal_strlit("mf");
        reveal_strlit("f");
        reveal_strlit("ff");
        reveal_strlit("fff");
        reveal_strlit("ffff");
    }
    assert(r@ =~= velocity_word(i as int));
    r
}

impl Velocity {
    /// The `i`-th named velocity.
    fn named(i: usize) -> (r: Velocity)
        ensures
            r == named_velocity(i as int),
    {
        if i == 0 {
            Velocity::Silent
        } else if i == 1 {
            Velocity::Pppp
        } else if i == 2 {
            Velocity::Ppp
        } else if i == 3 {
            Velocity::Pp
        } else if i == 4 {
            Velocity::P
        } else if i == 5 {
            Velocity::Mp
        } else if i == 6 {
            Velocity::Mf
        } else if i == 7 {
            Velocity::F
        } else if i == 8 {
            Velocity::Ff
        } else if i == 9 {
            Velocity::Fff
        } else {
            Velocity::Ffff
        }
    }

    /// Conversion to raw MIDI velocity.
    pub fn value(&self) -> (r: u8)
        ensures
            r == velocity_value(*self),
    {
        match *self {
            Velocity::Raw(v) => v,
            Velocity::Silent => 0,
            Velocity::Pppp => 8,
            Velocity::Ppp => 20,
            Velocity::Pp => 31,
            Velocity::P => 42,
            Velocity::Mp => 53,
            Velocity::Mf => 64,
            Velocity::F => 80,
            Velocity::Ff => 96,
            Velocity::Fff => 112,
            Velocity::Ffff => 127,
        }
    }

    /// Parses the text form of a velocity (see `velocity_from_text`): `@<value>` or a velocity
    /// word in any letter case.
    pub fn parse(s: &str) -> (r: Result<Velocity, String>)
        ensures
            r is Ok <==> velocity_from_text(s@) is Some,
            r matches Ok(v) ==> velocity_from_text(s@) == Some(v),
            r matches Err(e) ==> e@ == "unknown velocity: "@ + s@,
    {
        let at = "@";
        proof {
            reveal_strlit("@");
        }
        assert(at@ =~= seq!['@']);
        assert(starts_with(s@, at@) <==> (s@.len() > 0 && s@[0] == '@')) by {
            if s@.len() > 0 {
                assert(s@.take(1) =~= seq![s@[0]]);
                if starts_with(s@, at@) {
                    assert(s@.take(1)[0] == at@[0]);
                }
            }
        }
        if let Some(t) = str_strip_prefix(s, at) {
            assert(t@ =~= s@.drop_first());
            if let Ok(v) = parse_u8(t) {
                return Ok(Velocity::Raw(v));
            }
            let mut msg = String::new();
            msg.append("unknown velocity: ");
            msg.append(s);
            return Err(msg);
        }
        let lower = to_lowercase(s);
        assert(lower@ == folded(s@));
        let mut i: usize = 0;
        while i < 11 && !str_eq(lower.as_str(), velocity_word_str(i))
            invariant
                i <= 11,
                lower@ == folded(s@),
                velocity_from_word_from(lower@, i as int) == velocity_from_word(folded(s@)),
            decreases 11 - i,
        {
            i = i + 1;
        }
        if i < 11 {
            Ok(Velocity::named(i))
        } else {
            let mut msg = String::new();
            msg.append("unknown velocity: ");
            msg.append(s);
            Err(msg)
        }
    }

    /// The text form of this velocity (see `velocity_text`).
    pub fn to_string(&self) -> (r: String)
        ensures
            r@ == velocity_text(*self),
    {
        let mut r = String::new();
        let i: usize = match *self {
            Velocity::Raw(x) => {
                push_char(&mut r, '@');
                append_u64(&mut r, x as u64);
                assert(r@ =~= velocity_text(*self));
                return r;
            },
            Velocity::Silent => 0,
            Velocity::Pppp => 1,
            Velocity::Ppp => 2,
            Velocity::Pp => 3,
            Velocity::P => 4,
            Velocity::Mp => 5,
            Velocity::Mf => 6,
            Velocity::F => 7,
            Velocity::Ff => 8,
            Velocity::Fff => 9,
            Velocity::Ffff => 10,
        };
        r.append(velocity_word_str(i));
        assert(r@ =~= velocity_text(*self));
        r
    }
}

impl core::str::FromStr for Velocity {
    type Err = String;

    fn from_str(s: &str) -> (r: Result<Self, String>)
        ensures
            r is Ok <==> velocity_from_text(s@) is Some,
            r matches Ok(v) ==> velocity_from_text(s@) == Some(v),
            r matches Err(e) ==> e@ == "unknown velocity: "@ + s@,
    {
        Velocity::parse(s)
    }
}

impl From<&Velocity> for u8 {
    fn from(velocity: &Velocity) -> (r: u8) {
        velocity.value()
    }
}

impl vstd::std_specs::convert::FromSpecImpl<&Velocity> for u8 {
    open spec fn obeys_from_spec() -> bool {
        true
    }

    open spec fn from_spec(velocity: &Velocity) -> u8 {
        velocity_value(*velocity)
    }
}


// === Laws ===================================================================================

/// Within the first octave, the degrees of each scale lie these numbers of semitones above its
/// key: major 0 2 4 5 7 9 11; natural minor 0 2 3 5 7 8 10; harmonic minor 0 2 3 5 7 8 11;
/// melodic minor (as this library lays it out) 0 2 3 5 7 8 9 10 11; phrygian 0 1 3 5 7 8 10;
/// dorian 0 2 3 5 7 9 10; lydian 0 2 4 6 7 9 11; mixolydian 0 2 4 5 7 9 10; locrian 0 1 3 5 6 8
/// 10; minor pentatonic 0 3 5 7 10; major pentatonic 0 2 4 7 9; blues 0 3 5 6 7 10.
pub proof fn lemma_scale_degree_pitches(k: u8, d: i8)
    ensures
        0 <= d < 7 ==> note_pitch(Note::Maj(k, d)) == k + seq![0int, 2, 4, 5, 7, 9, 11][d as int],
        0 <= d < 7 ==> note_pitch(Note::Min(k, d)) == k + seq![0int, 2, 3, 5, 7, 8, 10][d as int],
        0 <= d < 7 ==> note_pitch(Note::HMin(k, d)) == k + seq![0int, 2, 3, 5, 7, 8, 11][d as int],
        0 <= d < 9 ==> note_pitch(Note::MMin(k, d)) == k + seq![0int, 2, 3, 5, 7, 8, 9, 10, 11][d as int],
        0 <= d < 7 ==> note_pitch(Note::Phr(k, d)) == k + seq![0int, 1, 3, 5, 7, 8, 10][d as int],
        0 <= d < 7 ==> note_pitch(Note::Dor(k, d)) == k + seq![0int, 2, 3, 5, 7, 9, 10][d as int],
        0 <= d < 7 ==> note_pitch(Note::Lyd(k, d)) == k + seq![0int, 2, 4, 6, 7, 9, 11][d as int],
        0 <= d < 7 ==> note_pitch(Note::Mix(k, d)) == k + seq![0int, 2, 4, 5, 7, 9, 10][d as int],
        0 <= d < 7 ==> note_pitch(Note::Loc(k, d)) == k + seq![0int, 1, 3, 5, 6, 8, 10][d as int],
        0 <= d < 5 ==> note_pitch(Note::MinPent(k, d)) == k + seq![0int, 3, 5, 7, 10][d as int],
        0 <= d < 5 ==> note_pitch(Note::MajPent(k, d)) == k + seq![0int, 2, 4, 7, 9][d as int],
        0 <= d < 6 ==> note_pitch(Note::Blues(k, d)) == k + seq![0int, 3, 5, 6, 7, 10][d as int],
        note_pitch(Note::Raw(d)) == d,
{
    let x = d as int;
    assert(0 <= x < 5 ==> x / 5 == 0 && x % 5 == x) by (nonlinear_arith);
    assert(0 <= x < 6 ==> x / 6 == 0 && x % 6 == x) by (nonlinear_arith);
    assert(0 <= x < 7 ==> x / 7 == 0 && x % 7 == x) by (nonlinear_arith);
    assert(0 <= x < 9 ==> x / 9 == 0 && x % 9 == x) by (nonlinear_arith);
}

/// Natural minor is major with its third, sixth and seventh degrees a semitone lower, and
/// harmonic minor is natural minor with its seventh degree raised again, in every octave.
pub proof fn lemma_minor_scales(k: u8, d: i8)
    ensures
        note_pitch(Note::Min(k, d)) == note_pitch(Note::Maj(k, d)) - (if d % 7 == 2 || d % 7 == 5
            || d % 7 == 6 {
            1int
        } else {
            0int
        }),
        note_pitch(Note::HMin(k, d)) == note_pitch(Note::Min(k, d)) + (if d % 7 == 6 {
            1int
        } else {
            0int
        }),
{
}

/// Every note's text names its scale: `maj@`, `min@`, `hmin@`, `mmin@`, `phr@`, `dor@`, `lyd@`,
/// `mix@`, `loc@`, `minpent@`, `majpent@` or `blues@`, then the key, `:` and the degree; a raw
/// note is `@` and its number.
pub proof fn lemma_note_text_names(k: u8, d: i8)
    ensures
        note_text(Note::Maj(k, d)) == "maj@"@ + dec_digits(k as nat) + ":"@ + dec_int(d as int),
        note_text(Note::Min(k, d)) == "min@"@ + dec_digits(k as nat) + ":"@ + dec_int(d as int),
        note_text(Note::HMin(k, d)) == "hmin@"@ + dec_digits(k as nat) + ":"@ + dec_int(d as int),
        note_text(Note::MMin(k, d)) == "mmin@"@ + dec_digits(k as nat) + ":"@ + dec_int(d as int),
        note_text(Note::Phr(k, d)) == "phr@"@ + dec_digits(k as nat) + ":"@ + dec_int(d as int),
        note_text(Note::Dor(k, d)) == "dor@"@ + dec_digits(k as nat) + ":"@ + dec_int(d as int),
        note_text(Note::Lyd(k, d)) == "lyd@"@ + dec_digits(k as nat) + ":"@ + dec_int(d as int),
        note_text(Note::Mix(k, d)) == "mix@"@ + dec_digits(k as nat) + ":"@ + dec_int(d as int),
        note_text(Note::Loc(k, d)) == "loc@"@ + dec_digits(k as nat) + ":"@ + dec_int(d as int),
        note_text(Note::MinPent(k, d)) == "minpent@"@ + dec_digits(k as nat) + ":"@ + dec_int(
            d as int,
        ),
        note_text(Note::MajPent(k, d)) == "majpent@"@ + dec_digits(k as nat) + ":"@ + dec_int(
            d as int,
        ),
        note_text(Note::Blues(k, d)) == "blues@"@ + dec_digits(k as nat) + ":"@ + dec_int(
            d as int,
        ),
        note_text(Note::Raw(d)) == "@"@ + dec_int(d as int),
{
    reveal_strlit("maj@");
    reveal_strlit("min@");
    reveal_strlit("hmin@");
    reveal_strlit("mmin@");
    reveal_strlit("phr@");
    reveal_strlit("dor@");
    reveal_strlit("lyd@");
    reveal_strlit("mix@");
    reveal_strlit("loc@");
    reveal_strlit("minpent@");
    reveal_strlit("majpent@");
    reveal_strlit("blues@");
    reveal_strlit(":");
    reveal_strlit("@");
    let tail = dec_digits(k as nat) + ":"@ + dec_int(d as int);
    assert("maj@"@ =~= scale_prefix(0));
    assert("min@"@ =~= scale_prefix(1));
    assert("hmin@"@ =~= scale_prefix(2));
    assert("mmin@"@ =~= scale_prefix(3));
    assert("phr@"@ =~= scale_prefix(4));
    assert("dor@"@ =~= scale_prefix(5));
    assert("lyd@"@ =~= scale_prefix(6));
    assert("mix@"@ =~= scale_prefix(7));
    assert("loc@"@ =~= scale_prefix(8));
    assert("minpent@"@ =~= scale_prefix(9));
    assert(":"@ =~= seq![':']);
    assert("@"@ =~= seq!['@']);
    assert("majpent@"@ =~= scale_prefix(10));
    assert("blues@"@ =~= scale_prefix(11));
}

/// The MIDI velocities of the named dynamics rise from silence to fortississimo: `-` 0, `pppp`
/// 8, `ppp` 20, `pp` 31, `p` 42, `mp` 53, `mf` 64, `f` 80, `ff` 96, `fff` 112, `ffff` 127; a raw
/// velocity is its own value.
pub proof fn lemma_velocity_values(x: u8)
    ensures
        velocity_value(Velocity::Silent) == 0,
        velocity_value(Velocity::Pppp) == 8,
        velocity_value(Velocity::Ppp) == 20,
        velocity_value(Velocity::Pp) == 31,
        velocity_value(Velocity::P) == 42,
        velocity_value(Velocity::Mp) == 53,
        velocity_value(Velocity::Mf) == 64,
        velocity_value(Velocity::F) == 80,
        velocity_value(Velocity::Ff) == 96,
        velocity_value(Velocity::Fff) == 112,
        velocity_value(Velocity::Ffff) == 127,
        velocity_value(Velocity::Silent) < velocity_value(Velocity::Pppp) < velocity_value(
            Velocity::Ppp,
        ) < velocity_value(Velocity::Pp) < velocity_value(Velocity::P) < velocity_value(
            Velocity::Mp,
        ) < velocity_value(Velocity::Mf) < velocity_value(Velocity::F) < velocity_value(
            Velocity::Ff,
        ) < velocity_value(Velocity::Fff) < velocity_value(Velocity::Ffff),
        velocity_value(Velocity::Raw(x)) == x,
{
}

/// The text of each velocity is its dynamic's name: `-`, `pppp`, `ppp`, `pp`, `p`, `mp`, `mf`,
/// `f`, `ff`, `fff`, `ffff`, or `@` and a raw value.
pub proof fn lemma_velocity_text_names(x: u8)
    ensures
        velocity_text(Velocity::Silent) == "-"@,
        velocity_text(Velocity::Pppp) == "pppp"@,
        velocity_text(Velocity::Ppp) == "ppp"@,
        velocity_text(Velocity::Pp) == "pp"@,
        velocity_text(Velocity::P) == "p"@,
        velocity_text(Velocity::Mp) == "mp"@,
        velocity_text(Velocity::Mf) == "mf"@,
        velocity_text(Velocity::F) == "f"@,
        velocity_text(Velocity::Ff) == "ff"@,
        velocity_text(Velocity::Fff) == "fff"@,
        velocity_text(Velocity::Ffff) == "ffff"@,
        velocity_text(Velocity::Raw(x)) == "@"@ + dec_digits(x as nat),
{
    reveal_strlit("-");
    reveal_strlit("pppp");
    reveal_strlit("ppp");
    reveal_strlit("pp");
    reveal_strlit("p");
    reveal_strlit("mp");
    reveal_strlit("mf");
    reveal_strlit("f");
    reveal_strlit("ff");
    reveal_strlit("fff");
    reveal_strlit("ffff");
    reveal_strlit("@");
    assert("-"@ =~= velocity_word(0));
    assert("pppp"@ =~= velocity_word(1));
    assert("ppp"@ =~= velocity_word(2));
    assert("pp"@ =~= velocity_word(3));
    assert("p"@ =~= velocity_word(4));
    assert("mp"@ =~= velocity_word(5));
    assert("mf"@ =~= velocity_word(6));
    assert("f"@ =~= velocity_word(7));
    assert("ff"@ =~= velocity_word(8));
    assert("fff"@ =~= velocity_word(9));
    assert("ffff"@ =~= velocity_word(10));
    assert("@"@ =~= seq!['@']);
}

/// The text of each duration: ticks as `<n>t`, beats as `<beats>/<beats per bar>`, the start of
/// a held note as `*` and its end as `-`.
pub proof fn lemma_duration_text_forms(a: u64, b: u64)
    ensures
        duration_text(Duration::Ticks(a)) == dec_digits(a as nat) + "t"@,
        duration_text(Duration::Beats(a, b)) == dec_digits(a as nat) + "/"@ + dec_digits(b as nat),
        duration_text(Duration::Begin) == "*"@,
        duration_text(Duration::End) == "-"@,
{
    reveal_strlit("t");
    reveal_strlit("/");
    reveal_strlit("*");
    reveal_strlit("-");
    assert(dec_digits(a as nat).push('t') =~= dec_digits(a as nat) + "t"@);
    assert("/"@ =~= seq!['/']);
    assert("*"@ =~= seq!['*']);
    assert("-"@ =~= seq!['-']);
}


/// The first four characters tell the scale prefixes apart.
proof fn lemma_scale_prefixes_differ(j: int, k: int)
    requires
        0 <= j < 12,
        0 <= k < 12,
        j != k,
    ensures
        scale_prefix(j).len() >= 4,
        scale_prefix(k).len() >= 4,
        scale_prefix(j)[0] != scale_prefix(k)[0] || scale_prefix(j)[1] != scale_prefix(k)[1]
            || scale_prefix(j)[2] != scale_prefix(k)[2] || scale_prefix(j)[3] != scale_prefix(k)[3],
{
}

/// Text that starts with the prefix of scale `k` is read as scale `k` by a search from any
/// scale up to `k`.
proof fn lemma_first_scale_from(s: Seq<char>, j: int, k: int)
    requires
        0 <= j <= k < 12,
        starts_with(s, scale_prefix(k)),
    ensures
        first_scale_from(s, j) == k,
    decreases k - j,
{
    if j < k {
        lemma_first_scale_from(s, j + 1, k);
        lemma_scale_prefixes_differ(j, k);
        let pj = scale_prefix(j);
        let pk = scale_prefix(k);
        if starts_with(s, pj) {
            assert forall|t: int| 0 <= t < 4 implies s[t] == pj[t] && s[t] == pk[t] by {
                assert(s.take(pj.len() as int)[t] == s[t]);
                assert(s.take(pk.len() as int)[t] == s[t]);
            }
            assert(s[0] == pj[0] && s[1] == pj[1] && s[2] == pj[2] && s[3] == pj[3]);
            assert(s[0] == pk[0] && s[1] == pk[1] && s[2] == pk[2] && s[3] == pk[3]);
        }
    }
}

/// Text made of a scale prefix and anything after it is read as that scale.
proof fn lemma_scale_of_text(k: int, rest: Seq<char>)
    requires
        0 <= k < 12,
    ensures
        scale_of_text(scale_prefix(k) + rest) == k,
{
    let s = scale_prefix(k) + rest;
    assert(s.take(scale_prefix(k).len() as int) =~= scale_prefix(k));
    lemma_first_scale_from(s, 0, k);
}

/// Two different velocity words differ in length or in one of their first two characters.
proof fn lemma_velocity_words_differ(i: int, j: int)
    requires
        0 <= j < i < 11,
    ensures
        velocity_word(j) != velocity_word(i),
{
    let wi = velocity_word(i);
    let wj = velocity_word(j);
    assert(wi.len() != wj.len() || wi[0] != wj[0] || wi[1] != wj[1]);
}

/// A search from any word up to the `i`-th finds the `i`-th named velocity for its word.
proof fn lemma_velocity_word_from(i: int, j: int)
    requires
        0 <= j <= i < 11,
    ensures
        velocity_from_word_from(velocity_word(i), j) == Some(named_velocity(i)),
    decreases i - j,
{
    if j < i {
        lemma_velocity_word_from(i, j + 1);
        lemma_velocity_words_differ(i, j);
    }
}

/// The word of each named velocity reads back as that velocity.
proof fn lemma_velocity_word(i: int)
    requires
        0 <= i < 11,
    ensures
        velocity_from_word(velocity_word(i)) == Some(named_velocity(i)),
{
    lemma_velocity_word_from(i, 0);
}


/// Every character of a number's decimal text is a digit or `-`, so it holds no separator.
pub proof fn lemma_dec_int_lacks(v: int, c: char)
    requires
        !is_digit(c),
        c != '-',
    ensures
        lacks(dec_int(v), c),
        dec_int(v).len() > 0,
        dec_int(v)[0] != c,
        dec_int(v).last() != c,
{
    lemma_dec_int_parses(v);
    assert(dec_int(v)[dec_int(v).len() - 1] == dec_int(v).last());
}

/// The texts of units have no space or comma, the separators of instruction arguments.
pub proof fn lemma_unit_texts_lack(n: Note, v: Velocity, d: Duration, c: char)
    requires
        c == ' ' || c == ',',
    ensures
        lacks(note_text(n), c),
        lacks(velocity_text(v), c),
        lacks(duration_text(d), c),
{
    let at = seq!['@'];
    assert(lacks(at, c));
    match n {
        Note::Raw(x) => {
            lemma_dec_int_lacks(x as int, c);
            lemma_lacks_concat(at, dec_int(x as int), c);
        },
        _ => {
            let k = scale_kind(n);
            lemma_scale_note_parts(n);
            assert(lacks(scale_prefix(k), c)) by {
                assert forall|i: int| 0 <= i < scale_prefix(k).len() implies #[trigger] scale_prefix(
                    k,
                )[i] != c by {
                    if k == 0 { } else if k == 1 { } else if k == 2 { } else if k == 3 { } else if k
                        == 4 { } else if k == 5 { } else if k == 6 { } else if k == 7 { } else if k
                        == 8 { } else if k == 9 { } else if k == 10 { } else { }
                }
            }
            lemma_dec_int_lacks(scale_key(n) as int, c);
            assert(dec_int(scale_key(n) as int) == dec_digits(scale_key(n) as nat));
            lemma_dec_int_lacks(scale_offset(n) as int, c);
            let colon = seq![':'];
            assert(lacks(colon, c));
            lemma_lacks_concat(scale_prefix(k), dec_digits(scale_key(n) as nat), c);
            lemma_lacks_concat(scale_prefix(k) + dec_digits(scale_key(n) as nat), colon, c);
            lemma_lacks_concat(
                scale_prefix(k) + dec_digits(scale_key(n) as nat) + colon,
                dec_int(scale_offset(n) as int),
                c,
            );
        },
    }
    match v {
        Velocity::Raw(x) => {
            lemma_dec_int_lacks(x as int, c);
            assert(dec_int(x as int) == dec_digits(x as nat));
            lemma_lacks_concat(at, dec_digits(x as nat), c);
        },
        _ => {
            assert forall|i: int| 0 <= i < velocity_text(v).len() implies #[trigger] velocity_text(
                v,
            )[i] != c by {}
        },
    }
    match d {
        Duration::Ticks(t) => {
            lemma_dec_int_lacks(t as int, c);
            assert(dec_int(t as int) == dec_digits(t as nat));
            lemma_lacks_concat(dec_digits(t as nat), seq!['t'], c);
            assert(dec_digits(t as nat) + seq!['t'] =~= dec_digits(t as nat).push('t'));
        },
        Duration::Beats(b, per_bar) => {
            lemma_dec_int_lacks(b as int, c);
            lemma_dec_int_lacks(per_bar as int, c);
            assert(dec_int(b as int) == dec_digits(b as nat));
            assert(dec_int(per_bar as int) == dec_digits(per_bar as nat));
            lemma_lacks_concat(dec_digits(b as nat), seq!['/'], c);
            lemma_lacks_concat(dec_digits(b as nat) + seq!['/'], dec_digits(per_bar as nat), c);
        },
        _ => {},
    }
}

/// Printing a note and parsing the text gives the note back.
pub proof fn lemma_note_text_round_trip(n: Note)
    ensures
        !note_parse_panics(note_text(n)),
        note_from_text(note_text(n)) == Some(n),
{
    let at = seq!['@'];
    lemma_scale_note_parts(n);
    match n {
        Note::Raw(v) => {
            let d = dec_int(v as int);
            let t = at + d;
            assert(t.take(1) =~= at);
            lemma_dec_int_lacks(v as int, '@');
            lemma_not_starts_at(d, at, 0);
            lemma_trim_start_all_prefix(at, d);
            lemma_dec_int_parses(v as int);
        },
        _ => {
            let k = scale_kind(n);
            let key = scale_key(n);
            let off = scale_offset(n);
            let p = scale_prefix(k);
            let dk = dec_digits(key as nat);
            let doff = dec_int(off as int);
            let rest = dk + seq![':'] + doff;
            let t = p + rest;
            assert(note_text(n) == t) by {
                assert(p + dk + seq![':'] + doff =~= t);
            }
            assert(t[0] == p[0]);
            lemma_not_starts_at(t, at, 0);
            lemma_scale_of_text(k, rest);
            lemma_dec_int_lacks(key as int, ':');
            lemma_dec_int_lacks(key as int, '@');
            lemma_dec_int_lacks(off as int, ':');
            assert(dec_int(key as int) == dk);
            assert(rest[0] == dk[0]);
            crate::text::lemma_dec_digits(key as nat);
            assert(is_digit(dk[0]));
            assert('a' <= p[0] <= 'z');
            lemma_not_starts_at(rest, p, 0);
            lemma_trim_start_all_prefix(p, rest);
            lemma_split_cons(dk, doff, ':');
            lemma_split_single(doff, ':');
            assert(scale_text_fields(t) =~= seq![dk, doff]);
            lemma_dec_int_parses(key as int);
            lemma_dec_int_parses(off as int);
        },
    }
}

/// Printing a duration and parsing the text gives the duration back.
pub proof fn lemma_duration_text_round_trip(d: Duration)
    ensures
        duration_from_text(duration_text(d)) == Some(d),
{
    match d {
        Duration::Ticks(t) => {
            let dt = dec_digits(t as nat);
            lemma_dec_int_lacks(t as int, 't');
            assert(dec_int(t as int) == dt);
            let s = dt.push('t');
            assert(s.len() >= 2);
            assert(s != seq!['*']);
            assert(s != seq!['-']);
            lemma_trim_end_all_stops(dt, 't');
            lemma_dec_int_parses(t as int);
        },
        Duration::Beats(b, bpb) => {
            let db = dec_digits(b as nat);
            let dp = dec_digits(bpb as nat);
            lemma_dec_int_lacks(b as int, '/');
            lemma_dec_int_lacks(bpb as int, '/');
            lemma_dec_int_lacks(bpb as int, 't');
            assert(dec_int(b as int) == db);
            assert(dec_int(bpb as int) == dp);
            let s = db + seq!['/'] + dp;
            assert(s.len() >= 3);
            assert(s != seq!['*']);
            assert(s != seq!['-']);
            assert(s.last() == dp.last());
            lemma_split_cons(db, dp, '/');
            lemma_split_single(dp, '/');
            assert(split(s, '/') =~= seq![db, dp]);
            lemma_dec_int_parses(b as int);
            lemma_dec_int_parses(bpb as int);
        },
        Duration::Begin => {},
        Duration::End => {},
    }
}

/// Printing a velocity and parsing the text gives the velocity back.
pub proof fn lemma_velocity_text_round_trip(v: Velocity)
    ensures
        velocity_from_text(velocity_text(v)) == Some(v),
{
    if let Velocity::Raw(x) = v {
        let t = velocity_text(v);
        assert(t.drop_first() =~= dec_digits(x as nat));
        lemma_dec_int_parses(x as int);
        return;
    }
    let i: int = match v {
        Velocity::Raw(_) => 0,
        Velocity::Silent => 0,
        Velocity::Pppp => 1,
        Velocity::Ppp => 2,
        Velocity::Pp => 3,
        Velocity::P => 4,
        Velocity::Mp => 5,
        Velocity::Mf => 6,
        Velocity::F => 7,
        Velocity::Ff => 8,
        Velocity::Fff => 9,
        Velocity::Ffff => 10,
    };
    let w = velocity_word(i);
    assert(velocity_text(v) == w);
    assert(w[0] != '@');
    assert(is_ascii_text(w));
    assert(ascii_lower(w) =~= w);
    lemma_velocity_word(i);
}

proof fn lemma_div_mod_step(a: int, n: int, q: int)
    requires
        n > 0,
    ensures
        (a + q * n) / n == a / n + q,
        (a + q * n) % n == a % n,
{
    vstd::arithmetic::div_mod::lemma_fundamental_div_mod(a, n);
    assert(a + q * n == n * (a / n + q) + a % n) by (nonlinear_arith)
        requires
            a == n * (a / n) + a % n,
    ;
    vstd::arithmetic::div_mod::lemma_fundamental_div_mod_converse(a + q * n, n, a / n + q, a % n);
}

/// Raising a scale degree by the number of degrees of the scale raises the pitch by an octave.
pub proof fn lemma_scale_octave(kind: int, key: u8, off: int)
    requires
        0 <= kind < 12,
        -128 <= off,
        off + scale_steps(kind).len() <= 127,
    ensures
        note_pitch(scale_note(kind, key, (off + scale_steps(kind).len()) as i8)) == note_pitch(
            scale_note(kind, key, off as i8),
        ) + 12,
{
    let len = scale_steps(kind).len() as int;
    lemma_div_mod_step(off, len, 1);
    lemma_scale_note_parts(scale_note(kind, key, off as i8));
    lemma_scale_note_parts(scale_note(kind, key, (off + len) as i8));
}

/// The scale kind of the mode that starts on degree `degree` (1 to 6) of the major scale:
/// dorian, phrygian, lydian, mixolydian, natural minor (aeolian) and locrian.
pub open spec fn mode_of_degree(degree: int) -> int {
    if degree == 1 {
        5
    } else if degree == 2 {
        4
    } else if degree == 3 {
        6
    } else if degree == 4 {
        7
    } else if degree == 5 {
        1
    } else {
        8
    }
}

/// Modes are rotations of the major scale: the mode starting on the major scale's `degree`-th
/// degree, keyed on that degree's pitch, spans the same pitches as the major scale.
pub proof fn lemma_mode_rotation(degree: int, key: u8, off: int)
    requires
        1 <= degree <= 6,
        -128 <= off,
        off + degree <= 127,
        note_pitch(Note::Maj(key, degree as i8)) <= 255,
    ensures
        note_pitch(scale_note(mode_of_degree(degree), note_pitch(Note::Maj(key, degree as i8)) as u8, off as i8))
            == note_pitch(Note::Maj(key, (off + degree) as i8)),
{
    let m = mode_of_degree(degree);
    let q = off / 7;
    let r = off % 7;
    vstd::arithmetic::div_mod::lemma_fundamental_div_mod(off, 7);
    let p = note_pitch(Note::Maj(key, degree as i8));
    assert((degree as i8) as int == degree);
    assert(degree / 7 == 0 && degree % 7 == degree);
    assert(p == scale_pitch(0, key as int, degree));
    assert(p == key + scale_steps(0)[degree]);
    lemma_scale_note_parts(scale_note(m, p as u8, off as i8));
    if r + degree < 7 {
        lemma_div_mod_step(r + degree, 7, q);
        assert(off + degree == (r + degree) + q * 7);
    } else {
        lemma_div_mod_step(r + degree - 7, 7, q + 1);
        assert(off + degree == (r + degree - 7) + (q + 1) * 7);
    }
    assert(scale_steps(0)[degree] + scale_steps(m)[r] == (if r + degree < 7 { 0int } else { 12int })
        + scale_steps(0)[(r + degree) % 7]);
}

/// Notes keyed near middle C (keys 55 to 64) with degrees within 20 of the key convert to valid
/// MIDI notes in every scale.
pub proof fn lemma_scale_near_middle_in_range(kind: int, key: u8, off: i8)
    requires
        0 <= kind < 12,
        55 <= key < 65,
        -20 <= off <= 20,
    ensures
        0 <= note_pitch(scale_note(kind, key, off)) <= 127,
{
    let len = scale_steps(kind).len() as int;
    lemma_scale_note_parts(scale_note(kind, key, off));
    assert(5 <= len <= 9);
    assert(-4 <= (off as int) / len <= 4) by (nonlinear_arith)
        requires
            5 <= len <= 9,
            -20 <= off <= 20,
    ;
    vstd::arithmetic::div_mod::lemma_fundamental_div_mod(off as int, len);
    let st = scale_steps(kind)[(off as int) % len];
    assert(0 <= st <= 11);
}

} // verus!
