//! The settings file of the clip evolution program: one setting per line, `<name> <value>`;
//! empty lines and lines starting with `#` are ignored.
use crate::sequencer::{notes_error, notes_field, parse_notes};
use crate::text::{
    bool_parse_error, bool_text, decimal_unsigned, parse_bool, parse_u32, parse_u8, parse_usize,
    split, starts_with, str_split, str_starts_with, str_strip_prefix, str_views, u32_parse_error,
    u8_parse_error, unsigned_in_range, usize_parse_error,
};
use crate::units::{duration_error, duration_from_text, note_from_text, Duration, Note};
use vstd::prelude::*;

verus! {

/// The weights of the fitness terms.
#[derive(Clone, Copy, Debug, PartialEq, Eq, Structural)]
pub enum Weight {
    Chord,
    Melody,
    ChanBalance,
    Rest,
    Dup,
}

/// One line of the settings file. Real-valued settings keep their text, which is read as a
/// floating-point number where the setting is applied.
#[derive(Clone, Debug, PartialEq)]
pub enum ConfigSetting {
    /// An empty line or a comment.
    Nothing,
    SendClock(bool),
    MidiVer(u32),
    /// Control changes to generate: channel, control, and the range of values.
    Cc(Vec<(u8, u8, (u8, u8))>),
    /// The range of channels to generate notes on.
    Channels(u8, u8),
    BeatsPerBar(u32),
    NoteScale(Vec<Note>),
    NoteMin(Vec<Note>),
    NoteMax(Vec<Note>),
    Weight(Weight, String),
    SkipAllocated(bool),
    ClipInitLen(usize),
    ClipFixedLen(bool),
    SongContinue(bool),
    ClipTail(Duration),
    PopulationSize(usize),
    MutationProbability(String),
    TournamentSize(usize),
    PopulationPath(String),
}

/// A field that reads as the number `v`, at most `max`.
pub open spec fn number_field(t: Seq<char>, v: int, max: int) -> bool {
    unsigned_in_range(t, max) && decimal_unsigned(t) == Some(v)
}

/// Pieces that each read as a byte.
pub open spec fn all_bytes(pieces: Seq<Seq<char>>) -> bool {
    forall|i: int| 0 <= i < pieces.len() ==> unsigned_in_range(#[trigger] pieces[i], 255)
}

/// A `<chan>,<control>,<low>-<high>` field; any further arguments are ignored, but every
/// `-`-separated value must read.
pub open spec fn cc_field(t: Seq<char>, cc: (u8, u8, (u8, u8))) -> bool {
    let args = split(t, ',');
    &&& args.len() >= 3
    &&& number_field(args[0], cc.0 as int, 255)
    &&& number_field(args[1], cc.1 as int, 255)
    &&& all_bytes(split(args[2], '-'))
    &&& split(args[2], '-').len() >= 2
    &&& number_field(split(args[2], '-')[0], cc.2.0 as int, 255)
    &&& number_field(split(args[2], '-')[1], cc.2.1 as int, 255)
}

/// The message for the first of `pieces` that is no byte.
pub open spec fn first_byte_error(pieces: Seq<Seq<char>>) -> Seq<char>
    decreases pieces.len(),
{
    if pieces.len() == 0 {
        Seq::empty()
    } else if !unsigned_in_range(pieces[0], 255) {
        u8_parse_error(pieces[0])
    } else {
        first_byte_error(pieces.drop_first())
    }
}

/// The message for a control change field that does not read: std's message for the first
/// number that does not read, or `invalid cc setting: <t>`.
pub open spec fn cc_field_error(t: Seq<char>) -> Seq<char> {
    let args = split(t, ',');
    if args.len() < 3 {
        "invalid cc setting: "@ + t
    } else if !unsigned_in_range(args[0], 255) {
        u8_parse_error(args[0])
    } else if !unsigned_in_range(args[1], 255) {
        u8_parse_error(args[1])
    } else if !all_bytes(split(args[2], '-')) {
        first_byte_error(split(args[2], '-'))
    } else {
        "invalid cc setting: "@ + t
    }
}

/// The message for the first of `parts` that is no control change field.
pub open spec fn first_cc_error(parts: Seq<Seq<char>>) -> Seq<char>
    decreases parts.len(),
{
    if parts.len() == 0 {
        Seq::empty()
    } else if !(exists|cc: (u8, u8, (u8, u8))| cc_field(parts[0], cc)) {
        cc_field_error(parts[0])
    } else {
        first_cc_error(parts.drop_first())
    }
}

proof fn lemma_first_byte_error_skip(pieces: Seq<Seq<char>>, i: int)
    requires
        0 <= i <= pieces.len(),
        forall|j: int| 0 <= j < i ==> unsigned_in_range(#[trigger] pieces[j], 255),
    ensures
        first_byte_error(pieces) == first_byte_error(pieces.skip(i)),
    decreases i,
{
    if i > 0 {
        let t = pieces.drop_first();
        assert forall|j: int| 0 <= j < i - 1 implies unsigned_in_range(#[trigger] t[j], 255) by {
            assert(t[j] == pieces[j + 1]);
        }
        lemma_first_byte_error_skip(t, i - 1);
        assert(t.skip(i - 1) =~= pieces.skip(i));
        assert(unsigned_in_range(pieces[0], 255));
    } else {
        assert(pieces.skip(0) =~= pieces);
    }
}

proof fn lemma_first_cc_error_skip(parts: Seq<Seq<char>>, i: int, ccs: Seq<(u8, u8, (u8, u8))>)
    requires
        0 <= i <= parts.len(),
        i <= ccs.len(),
        forall|j: int| 0 <= j < i ==> cc_field(#[trigger] parts[j], ccs[j]),
    ensures
        first_cc_error(parts) == first_cc_error(parts.skip(i)),
    decreases i,
{
    if i > 0 {
        let t = parts.drop_first();
        assert forall|j: int| 0 <= j < i - 1 implies cc_field(#[trigger] t[j], ccs.drop_first()[j]) by {
            assert(t[j] == parts[j + 1]);
            assert(cc_field(parts[j + 1], ccs[j + 1]));
        }
        lemma_first_cc_error_skip(t, i - 1, ccs.drop_first());
        assert(t.skip(i - 1) =~= parts.skip(i));
        assert(cc_field(parts[0], ccs[0]));
    } else {
        assert(parts.skip(0) =~= parts);
    }
}

/// Space-separated control-change fields.
pub open spec fn cc_list(t: Seq<char>, ccs: Seq<(u8, u8, (u8, u8))>) -> bool {
    let parts = split(t, ' ');
    &&& parts.len() == ccs.len()
    &&& forall|i: int| 0 <= i < parts.len() ==> cc_field(#[trigger] parts[i], ccs[i])
}

/// The names of the settings, each with the space that follows it in the file.
pub open spec fn setting_key(k: int) -> Seq<char> {
    if k == 0 {
        "send_clock "@
    } else if k == 1 {
        "midi_ver "@
    } else if k == 2 {
        "cc "@
    } else if k == 3 {
        "channels "@
    } else if k == 4 {
        "beats_per_bar "@
    } else if k == 5 {
        "note_scale "@
    } else if k == 6 {
        "note_min "@
    } else if k == 7 {
        "note_max "@
    } else if k == 8 {
        "chord_weight "@
    } else if k == 9 {
        "melody_weight "@
    } else if k == 10 {
        "chan_balance_weight "@
    } else if k == 11 {
        "rest_weight "@
    } else if k == 12 {
        "dup_weight "@
    } else if k == 13 {
        "skip_allocated "@
    } else if k == 14 {
        "clip_init_len "@
    } else if k == 15 {
        "clip_fixed_len "@
    } else if k == 16 {
        "song_continue "@
    } else if k == 17 {
        "clip_tail "@
    } else if k == 18 {
        "population_size "@
    } else if k == 19 {
        "mutation_probability "@
    } else if k == 20 {
        "tournament_size "@
    } else {
        "population_path "@
    }
}

/// The number of settings.
pub open spec fn num_settings() -> int {
    22
}

/// The first setting at or after `k` whose name starts `s` (`num_settings()` if none does).
pub open spec fn first_setting_from(s: Seq<char>, k: int) -> int
    decreases num_settings() - k,
{
    if k >= num_settings() {
        num_settings()
    } else if starts_with(s, setting_key(k)) {
        k
    } else {
        first_setting_from(s, k + 1)
    }
}

/// Whether a setting's value reads as `c` for setting `k`.
pub open spec fn value_reads_as(k: int, v: Seq<char>, c: ConfigSetting) -> bool {
    if k == 0 {
        c matches ConfigSetting::SendClock(b) && v == bool_text(b)
    } else if k == 1 {
        c matches ConfigSetting::MidiVer(n) && number_field(v, n as int, u32::MAX as int)
    } else if k == 2 {
        c matches ConfigSetting::Cc(ccs) && cc_list(v, ccs@)
    } else if k == 3 {
        let parts = split(v, '-');
        &&& c matches ConfigSetting::Channels(lo, hi)
        &&& parts.len() >= 2
        &&& number_field(parts[0], lo as int, 255)
        &&& number_field(parts[1], hi as int, 255)
        &&& lo <= hi
    } else if k == 4 {
        c matches ConfigSetting::BeatsPerBar(n) && number_field(v, n as int, u32::MAX as int)
    } else if k == 5 {
        c matches ConfigSetting::NoteScale(ns) && notes_field(v, ns@)
    } else if k == 6 {
        c matches ConfigSetting::NoteMin(ns) && notes_field(v, ns@)
    } else if k == 7 {
        c matches ConfigSetting::NoteMax(ns) && notes_field(v, ns@)
    } else if k == 8 {
        c matches ConfigSetting::Weight(w, t) && w == Weight::Chord && t@ == v
    } else if k == 9 {
        c matches ConfigSetting::Weight(w, t) && w == Weight::Melody && t@ == v
    } else if k == 10 {
        c matches ConfigSetting::Weight(w, t) && w == Weight::ChanBalance && t@ == v
    } else if k == 11 {
        c matches ConfigSetting::Weight(w, t) && w == Weight::Rest && t@ == v
    } else if k == 12 {
        c matches ConfigSetting::Weight(w, t) && w == Weight::Dup && t@ == v
    } else if k == 13 {
        c matches ConfigSetting::SkipAllocated(b) && v == bool_text(b)
    } else if k == 14 {
        c matches ConfigSetting::ClipInitLen(n) && number_field(v, n as int, usize::MAX as int)
    } else if k == 15 {
        c matches ConfigSetting::ClipFixedLen(b) && v == bool_text(b)
    } else if k == 16 {
        c matches ConfigSetting::SongContinue(b) && v == bool_text(b)
    } else if k == 17 {
        c matches ConfigSetting::ClipTail(d) && duration_from_text(v) == Some(d)
    } else if k == 18 {
        c matches ConfigSetting::PopulationSize(n) && number_field(v, n as int, usize::MAX as int)
    } else if k == 19 {
        c matches ConfigSetting::MutationProbability(t) && t@ == v
    } else if k == 20 {
        c matches ConfigSetting::TournamentSize(n) && number_field(v, n as int, usize::MAX as int)
    } else {
        c matches ConfigSetting::PopulationPath(t) && t@ == v
    }
}

/// Whether the settings line `s` reads as `c`.
pub open spec fn config_line_reads_as(s: Seq<char>, c: ConfigSetting) -> bool {
    if s.len() == 0 || s[0] == '#' {
        c == ConfigSetting::Nothing
    } else {
        let k = first_setting_from(s, 0);
        k < num_settings() && value_reads_as(k, s.skip(setting_key(k).len() as int), c)
    }
}

/// The message for the value `v` of setting `k` that does not read: the message of the parser of
/// the first part that does not read, or `invalid channels: <v>` for a channel range that is not
/// one.
pub open spec fn value_error(k: int, v: Seq<char>) -> Seq<char> {
    if k == 0 || k == 13 || k == 15 || k == 16 {
        bool_parse_error(v)
    } else if k == 1 || k == 4 {
        u32_parse_error(v)
    } else if k == 14 || k == 18 || k == 20 {
        usize_parse_error(v)
    } else if k == 2 {
        first_cc_error(split(v, ' '))
    } else if k == 3 {
        let parts = split(v, '-');
        if parts.len() < 2 {
            "invalid channels: "@ + v
        } else if !unsigned_in_range(parts[0], 255) {
            u8_parse_error(parts[0])
        } else if !unsigned_in_range(parts[1], 255) {
            u8_parse_error(parts[1])
        } else {
            "invalid channels: "@ + v
        }
    } else if k == 5 || k == 6 || k == 7 {
        notes_error(v)
    } else if k == 17 {
        duration_error(v)
    } else {
        Seq::empty()
    }
}

/// The message for a settings line that does not read.
pub open spec fn config_error(s: Seq<char>) -> Seq<char> {
    let k = first_setting_from(s, 0);
    if k == num_settings() {
        "unknown configuration: "@ + s
    } else {
        value_error(k, s.skip(setting_key(k).len() as int))
    }
}

/// A line that is neither empty, a comment, nor a known setting.
pub open spec fn config_line_unknown(s: Seq<char>) -> bool {
    s.len() > 0 && s[0] != '#' && first_setting_from(s, 0) == num_settings()
}

/// What each line of the settings file sets: `send_clock`, `midi_ver`, `cc`, `channels`,
/// `beats_per_bar`, `note_scale`, `note_min`, `note_max`, the weights `chord_weight`,
/// `melody_weight`, `chan_balance_weight`, `rest_weight` and `dup_weight`, `skip_allocated`,
/// `clip_init_len`, `clip_fixed_len`, `song_continue`, `clip_tail`, `population_size`,
/// `mutation_probability`, `tournament_size` and `population_path`, each followed by a space
/// and its value, set the setting of that name.
pub proof fn lemma_setting_names(v: Seq<char>, c: ConfigSetting)
    ensures
        setting_key(0) == "send_clock "@,
        value_reads_as(0, v, c) ==> (c is SendClock),
        setting_key(1) == "midi_ver "@,
        value_reads_as(1, v, c) ==> (c is MidiVer),
        setting_key(2) == "cc "@,
        value_reads_as(2, v, c) ==> (c is Cc),
        setting_key(3) == "channels "@,
        value_reads_as(3, v, c) ==> (c is Channels),
        setting_key(4) == "beats_per_bar "@,
        value_reads_as(4, v, c) ==> (c is BeatsPerBar),
        setting_key(5) == "note_scale "@,
        value_reads_as(5, v, c) ==> (c is NoteScale),
        setting_key(6) == "note_min "@,
        value_reads_as(6, v, c) ==> (c is NoteMin),
        setting_key(7) == "note_max "@,
        value_reads_as(7, v, c) ==> (c is NoteMax),
        setting_key(8) == "chord_weight "@,
        value_reads_as(8, v, c) ==> (c matches ConfigSetting::Weight(w, _) && w == Weight::Chord),
        setting_key(9) == "melody_weight "@,
        value_reads_as(9, v, c) ==> (c matches ConfigSetting::Weight(w, _) && w == Weight::Melody),
        setting_key(10) == "chan_balance_weight "@,
        value_reads_as(10, v, c) ==> (c matches ConfigSetting::Weight(w, _) && w == Weight::ChanBalance),
        setting_key(11) == "rest_weight "@,
        value_reads_as(11, v, c) ==> (c matches ConfigSetting::Weight(w, _) && w == Weight::Rest),
        setting_key(12) == "dup_weight "@,
        value_reads_as(12, v, c) ==> (c matches ConfigSetting::Weight(w, _) && w == Weight::Dup),
        setting_key(13) == "skip_allocated "@,
        value_reads_as(13, v, c) ==> (c is SkipAllocated),
        setting_key(14) == "clip_init_len "@,
        value_reads_as(14, v, c) ==> (c is ClipInitLen),
        setting_key(15) == "clip_fixed_len "@,
        value_reads_as(15, v, c) ==> (c is ClipFixedLen),
        setting_key(16) == "song_continue "@,
        value_reads_as(16, v, c) ==> (c is SongContinue),
        setting_key(17) == "clip_tail "@,
        value_reads_as(17, v, c) ==> (c is ClipTail),
        setting_key(18) == "population_size "@,
        value_reads_as(18, v, c) ==> (c is PopulationSize),
        setting_key(19) == "mutation_probability "@,
        value_reads_as(19, v, c) ==> (c is MutationProbability),
        setting_key(20) == "tournament_size "@,
        value_reads_as(20, v, c) ==> (c is TournamentSize),
        setting_key(21) == "population_path "@,
        value_reads_as(21, v, c) ==> (c is PopulationPath),
{
}

/// The text of setting `k`'s name and the space after it.
fn setting_key_str(k: usize) -> (r: &'static str)
    requires
        k < 22,
    ensures
        r@ == setting_key(k as int),
{
    if k == 0 {
        "send_clock "
    } else if k == 1 {
        "midi_ver "
    } else if k == 2 {
        "cc "
    } else if k == 3 {
        "channels "
    } else if k == 4 {
        "beats_per_bar "
    } else if k == 5 {
        "note_scale "
    } else if k == 6 {
        "note_min "
    } else if k == 7 {
        "note_max "
    } else if k == 8 {
        "chord_weight "
    } else if k == 9 {
        "melody_weight "
    } else if k == 10 {
        "chan_balance_weight "
    } else if k == 11 {
        "rest_weight "
    } else if k == 12 {
        "dup_weight "
    } else if k == 13 {
        "skip_allocated "
    } else if k == 14 {
        "clip_init_len "
    } else if k == 15 {
        "clip_fixed_len "
    } else if k == 16 {
        "song_continue "
    } else if k == 17 {
        "clip_tail "
    } else if k == 18 {
        "population_size "
    } else if k == 19 {
        "mutation_probability "
    } else if k == 20 {
        "tournament_size "
    } else {
        "population_path "
    }
}

/// Reads the `<chan>,<control>,<low>-<high>` field of a control change setting.
fn parse_cc_field(t: &str) -> (r: Result<(u8, u8, (u8, u8)), String>)
    ensures
        r matches Ok(cc) ==> cc_field(t@, cc),
        (exists|cc: (u8, u8, (u8, u8))| cc_field(t@, cc)) ==> r is Ok,
        r matches Err(e) ==> e@ == cc_field_error(t@),
{
    let args = str_split(t, ',');
    if args.len() < 3 {
        let mut msg = String::new();
        msg.append("invalid cc setting: ");
        msg.append(t);
        return Err(msg);
    }
    assert(args@[0]@ == split(t@, ',')[0]);
    assert(args@[1]@ == split(t@, ',')[1]);
    assert(args@[2]@ == split(t@, ',')[2]);
    let chan = match parse_u8(args[0]) {
        Ok(v) => v,
        Err(e) => {
            return Err(e);
        },
    };
    let control = match parse_u8(args[1]) {
        Ok(v) => v,
        Err(e) => {
            return Err(e);
        },
    };
    let pieces = str_split(args[2], '-');
    let ghost vals = split(args@[2]@, '-');
    let mut values: Vec<u8> = Vec::new();
    let mut i: usize = 0;
    while i < pieces.len()
        invariant
            i <= pieces@.len(),
            str_views(pieces@) == vals,
            vals == split(args@[2]@, '-'),
            args@.len() >= 3,
            args@[2]@ == split(t@, ',')[2],
            split(t@, ',').len() == args@.len(),
            unsigned_in_range(split(t@, ',')[0], 255),
            unsigned_in_range(split(t@, ',')[1], 255),
            values@.len() == i,
            forall|j: int|
                0 <= j < i ==> unsigned_in_range(#[trigger] vals[j], 255) && decimal_unsigned(
                    vals[j],
                ) == Some(values@[j] as int),
        decreases pieces@.len() - i,
    {
        assert(pieces@[i as int]@ == vals[i as int]);
        match parse_u8(pieces[i]) {
            Ok(v) => {
                values.push(v);
            },
            Err(e) => {
                assert forall|cc: (u8, u8, (u8, u8))| !cc_field(t@, cc) by {
                    if cc_field(t@, cc) {
                        assert(all_bytes(vals));
                        assert(unsigned_in_range(vals[i as int], 255));
                    }
                }
                proof {
                    lemma_first_byte_error_skip(vals, i as int);
                    assert(vals.skip(i as int)[0] == vals[i as int]);
                    assert(!unsigned_in_range(vals[i as int], 255));
                    assert(!all_bytes(vals));
                    assert(first_byte_error(vals.skip(i as int)) == u8_parse_error(vals[i as int]));
                }
                return Err(e);
            },
        }
        i = i + 1;
    }
    if values.len() < 2 {
        let mut msg = String::new();
        msg.append("invalid cc setting: ");
        msg.append(t);
        return Err(msg);
    }
    Ok((chan, control, (values[0], values[1])))
}

/// Reads the space-separated control change fields of a setting.
fn parse_cc_list(v: &str) -> (r: Result<Vec<(u8, u8, (u8, u8))>, String>)
    ensures
        r matches Ok(ccs) ==> cc_list(v@, ccs@),
        (exists|ccs: Seq<(u8, u8, (u8, u8))>| cc_list(v@, ccs)) ==> r is Ok,
        r matches Err(e) ==> e@ == first_cc_error(split(v@, ' ')),
{
    let parts = str_split(v, ' ');
    let ghost ps = split(v@, ' ');
    let mut ccs: Vec<(u8, u8, (u8, u8))> = Vec::new();
    let mut i: usize = 0;
    while i < parts.len()
        invariant
            i <= parts@.len(),
            str_views(parts@) == ps,
            ps == split(v@, ' '),
            ccs@.len() == i,
            forall|j: int| 0 <= j < i ==> cc_field(#[trigger] ps[j], ccs@[j]),
        decreases parts@.len() - i,
    {
        assert(parts@[i as int]@ == ps[i as int]);
        match parse_cc_field(parts[i]) {
            Ok(cc) => {
                ccs.push(cc);
            },
            Err(e) => {
                assert forall|all: Seq<(u8, u8, (u8, u8))>| !cc_list(v@, all) by {
                    if cc_list(v@, all) {
                        assert(cc_field(ps[i as int], all[i as int]));
                    }
                }
                proof {
                    lemma_first_cc_error_skip(ps, i as int, ccs@);
                    assert(ps.skip(i as int)[0] == ps[i as int]);
                }
                return Err(e);
            },
        }
        i = i + 1;
    }
    Ok(ccs)
}

impl ConfigSetting {
    /// Reads one line of the settings file (see `config_line_reads_as`). Values that do not
    /// read fail with the message of their own parser.
    pub fn parse(line: &str) -> (r: Result<ConfigSetting, String>)
        ensures
            r matches Ok(c) ==> config_line_reads_as(line@, c),
            (exists|c: ConfigSetting| config_line_reads_as(line@, c)) ==> r is Ok,
            config_line_unknown(line@) ==> (r matches Err(e) && e@ == "unknown configuration: "@
                + line@),
            r matches Err(e) ==> e@ == config_error(line@),
    {
        let n = line.unicode_len();
        if n == 0 || line.get_char(0) == '#' {
            return Ok(ConfigSetting::Nothing);
        }
        let mut k: usize = 0;
        while k < 22 && !str_starts_with(line, setting_key_str(k))
            invariant
                k <= 22,
                first_setting_from(line@, k as int) == first_setting_from(line@, 0),
            decreases 22 - k,
        {
            k = k + 1;
        }
        if k == 22 {
            let mut msg = String::new();
            msg.append("unknown configuration: ");
            msg.append(line);
            return Err(msg);
        }
        let value = match str_strip_prefix(line, setting_key_str(k)) {
            Some(v) => v,
            None => line,
        };
        Self::parse_value(k, value)
    }

    /// Reads the value of setting `k`.
    fn parse_value(k: usize, v: &str) -> (r: Result<ConfigSetting, String>)
        requires
            k < 22,
        ensures
            r matches Ok(c) ==> value_reads_as(k as int, v@, c),
            (exists|c: ConfigSetting| value_reads_as(k as int, v@, c)) ==> r is Ok,
            r matches Err(e) ==> e@ == value_error(k as int, v@),
    {
        if k == 0 || k == 13 || k == 15 || k == 16 {
            let b = match parse_bool(v) {
                Ok(b) => b,
                Err(e) => {
                    return Err(e);
                },
            };
            Ok(
                if k == 0 {
                    ConfigSetting::SendClock(b)
                } else if k == 13 {
                    ConfigSetting::SkipAllocated(b)
                } else if k == 15 {
                    ConfigSetting::ClipFixedLen(b)
                } else {
                    ConfigSetting::SongContinue(b)
                },
            )
        } else if k == 1 || k == 4 {
            let n = match parse_u32(v) {
                Ok(n) => n,
                Err(e) => {
                    return Err(e);
                },
            };
            Ok(
                if k == 1 {
                    ConfigSetting::MidiVer(n)
                } else {
                    ConfigSetting::BeatsPerBar(n)
                },
            )
        } else if k == 14 || k == 18 || k == 20 {
            let n = match parse_usize(v) {
                Ok(n) => n,
                Err(e) => {
                    return Err(e);
                },
            };
            Ok(
                if k == 14 {
                    ConfigSetting::ClipInitLen(n)
                } else if k == 18 {
                    ConfigSetting::PopulationSize(n)
                } else {
                    ConfigSetting::TournamentSize(n)
                },
            )
        } else if k == 2 {
            match parse_cc_list(v) {
                Ok(ccs) => Ok(ConfigSetting::Cc(ccs)),
                Err(e) => Err(e),
            }
        } else if k == 3 {
            let parts = str_split(v, '-');
            if parts.len() < 2 {
                let mut msg = String::new();
                msg.append("invalid channels: ");
                msg.append(v);
                return Err(msg);
            }
            assert(parts@[0]@ == split(v@, '-')[0]);
            assert(parts@[1]@ == split(v@, '-')[1]);
            let lo = match parse_u8(parts[0]) {
                Ok(n) => n,
                Err(e) => {
                    return Err(e);
                },
            };
            let hi = match parse_u8(parts[1]) {
                Ok(n) => n,
                Err(e) => {
                    return Err(e);
                },
            };
            if lo > hi {
                let mut msg = String::new();
                msg.append("invalid channels: ");
                msg.append(v);
                return Err(msg);
            }
            Ok(ConfigSetting::Channels(lo, hi))
        } else if k == 5 || k == 6 || k == 7 {
            let notes = match parse_notes(v) {
                Ok(ns) => ns,
                Err(e) => {
                    return Err(e);
                },
            };
            Ok(
                if k == 5 {
                    ConfigSetting::NoteScale(notes)
                } else if k == 6 {
                    ConfigSetting::NoteMin(notes)
                } else {
                    ConfigSetting::NoteMax(notes)
                },
            )
        } else if k == 17 {
            match Duration::parse(v) {
                Ok(d) => Ok(ConfigSetting::ClipTail(d)),
                Err(e) => Err(e),
            }
        } else {
            let text = v.to_string();
            Ok(
                if k == 8 {
                    ConfigSetting::Weight(Weight::Chord, text)
                } else if k == 9 {
                    ConfigSetting::Weight(Weight::Melody, text)
                } else if k == 10 {
                    ConfigSetting::Weight(Weight::ChanBalance, text)
                } else if k == 11 {
                    ConfigSetting::Weight(Weight::Rest, text)
                } else if k == 12 {
                    ConfigSetting::Weight(Weight::Dup, text)
                } else if k == 19 {
                    ConfigSetting::MutationProbability(text)
                } else {
                    ConfigSetting::PopulationPath(text)
                },
            )
        }
    }
}

} // verus!
