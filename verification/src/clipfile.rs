//! The text file of a clip: one instruction per line, with comment lines (`#`), a comment and a
//! fitness recorded in `# comment: ` and `# fitness: ` lines, and a `.skip_allocated` directive
//! for players.
use crate::sequencer::{
    clip_arity_error, clip_error, clip_parses_to, clip_text, clip_text_readable, clip_unknown,
    lemma_clip_text_round_trip, ClipInst,
};
use crate::text::{append_u64, bool_text, dec_digits, parse_bool, starts_with, str_starts_with, str_strip_prefix};
use vstd::prelude::*;

verus! {

/// Whether std's `char::is_whitespace` holds of a character outside ASCII (the Unicode
/// `White_Space` property).
pub uninterp spec fn unicode_white_space(c: char) -> bool;

/// The Unicode `White_Space` property: among ASCII characters it holds of the space and of tab,
/// line feed, vertical tab, form feed and carriage return.
pub open spec fn whitespace(c: char) -> bool {
    if (c as u32) < 128 {
        c == ' ' || ('\t' <= c && c <= '\r')
    } else {
        unicode_white_space(c)
    }
}

/// Tests a character with std's `char::is_whitespace`, which is the Unicode `White_Space`
/// property; which characters beyond ASCII have it is left to that name.
#[verifier::external_body]
pub(crate) fn is_whitespace(c: char) -> (r: bool)
    ensures
        (c as u32) < 128 ==> r == (c == ' ' || ('\t' <= c && c <= '\r')),
        (c as u32) >= 128 ==> r == unicode_white_space(c),
{
    c.is_whitespace()
}

/// A line of nothing but whitespace (empty once trimmed).
pub open spec fn blank(s: Seq<char>) -> bool {
    forall|i: int| 0 <= i < s.len() ==> whitespace(#[trigger] s[i])
}

/// Whether a line is blank.
fn str_blank(s: &str) -> (r: bool)
    ensures
        r == blank(s@),
{
    let n = s.unicode_len();
    let mut i: usize = 0;
    while i < n
        invariant
            n == s@.len(),
            i <= n,
            forall|j: int| 0 <= j < i ==> whitespace(#[trigger] s@[j]),
        decreases n - i,
    {
        if !is_whitespace(s.get_char(i)) {
            return false;
        }
        i = i + 1;
    }
    true
}

/// A line of a clip file.
#[derive(Clone, Debug, PartialEq)]
pub enum ClipFileLine {
    /// `# comment: <text>`.
    Comment(String),
    /// `# fitness: <number>`; the number is read as a floating-point value where it is used.
    Fitness(String),
    /// A blank line or another comment.
    Ignored,
    /// `.skip_allocated <true or false>`; a value other than these is none.
    SkipAllocated(Option<bool>),
    /// An instruction.
    Inst(ClipInst),
}

/// The value of a `.skip_allocated` directive, if it reads.
pub open spec fn skip_allocated_value(s: Seq<char>) -> Option<bool> {
    if starts_with(s, ".skip_allocated "@) && s.skip(16) == bool_text(true) {
        Some(true)
    } else if starts_with(s, ".skip_allocated "@) && s.skip(16) == bool_text(false) {
        Some(false)
    } else {
        None
    }
}

/// Whether the clip file line `s` reads as `l`.
pub open spec fn clip_line_reads_as(s: Seq<char>, l: ClipFileLine) -> bool {
    if starts_with(s, "# comment: "@) {
        l matches ClipFileLine::Comment(t) && t@ == s.skip(11)
    } else if starts_with(s, "# fitness: "@) {
        l matches ClipFileLine::Fitness(t) && t@ == s.skip(11)
    } else if blank(s) || (s.len() > 0 && s[0] == '#') {
        l == ClipFileLine::Ignored
    } else if starts_with(s, ".skip_allocated"@) {
        l == ClipFileLine::SkipAllocated(skip_allocated_value(s))
    } else {
        l matches ClipFileLine::Inst(c) && clip_parses_to(s, c)
    }
}

impl ClipFileLine {
    /// Reads a line of a clip file (see `clip_line_reads_as`); an instruction that does not read
    /// fails with the instruction parser's message.
    pub fn parse(line: &str) -> (r: Result<ClipFileLine, String>)
        ensures
            r matches Ok(l) ==> clip_line_reads_as(line@, l),
            r is Err <==> (is_inst_line(line@) && !(exists|c: ClipInst| clip_parses_to(line@, c))),
            r matches Err(e) ==> e@ == clip_error(line@),
            is_inst_line(line@) ==> (clip_arity_error(line@) matches Some(m) ==> (r matches Err(e)
                && e@ == m)),
            is_inst_line(line@) && clip_unknown(line@) ==> (r matches Err(e) && e@
                == "unknown instruction: "@ + line@),
    {
        proof {
            reveal_strlit("# comment: ");
            reveal_strlit("# fitness: ");
            reveal_strlit(".skip_allocated ");
        }
        if let Some(text) = str_strip_prefix(line, "# comment: ") {
            return Ok(ClipFileLine::Comment(text.to_string()));
        }
        if let Some(text) = str_strip_prefix(line, "# fitness: ") {
            return Ok(ClipFileLine::Fitness(text.to_string()));
        }
        if str_blank(line) || (line.unicode_len() > 0 && line.get_char(0) == '#') {
            return Ok(ClipFileLine::Ignored);
        }
        if str_starts_with(line, ".skip_allocated") {
            let value = match str_strip_prefix(line, ".skip_allocated ") {
                Some(text) => match parse_bool(text) {
                    Ok(b) => Some(b),
                    Err(_) => None,
                },
                None => None,
            };
            return Ok(ClipFileLine::SkipAllocated(value));
        }
        match ClipInst::parse(line) {
            Ok(c) => Ok(ClipFileLine::Inst(c)),
            Err(e) => Err(e),
        }
    }
}

/// What a clip file records.
pub struct ClipFile {
    /// The text of the last comment line, if any.
    pub comment: Option<String>,
    /// The text of the last fitness line, if any.
    pub fitness: Option<String>,
    /// The instructions, in order.
    pub clip: Vec<ClipInst>,
}

/// The lines of a clip file that hold instructions: neither comments, blank, nor directives.
pub open spec fn is_inst_line(s: Seq<char>) -> bool {
    &&& !starts_with(s, "# comment: "@)
    &&& !starts_with(s, "# fitness: "@)
    &&& !(blank(s) || (s.len() > 0 && s[0] == '#'))
    &&& !starts_with(s, ".skip_allocated"@)
}

/// The instruction lines among `lines`, in order.
pub open spec fn inst_lines(lines: Seq<Seq<char>>) -> Seq<Seq<char>>
    decreases lines.len(),
{
    if lines.len() == 0 {
        seq![]
    } else if is_inst_line(lines.last()) {
        inst_lines(lines.drop_last()).push(lines.last())
    } else {
        inst_lines(lines.drop_last())
    }
}

/// Whether every instruction line reads.
pub open spec fn all_insts_read(lines: Seq<Seq<char>>) -> bool {
    forall|i: int|
        0 <= i < lines.len() && is_inst_line(#[trigger] lines[i]) ==> exists|c: ClipInst|
            clip_parses_to(lines[i], c)
}

/// The text after the prefix of the last line among `lines` that starts with `prefix`.
pub open spec fn last_with_prefix(lines: Seq<Seq<char>>, prefix: Seq<char>) -> Option<Seq<char>>
    decreases lines.len(),
{
    if lines.len() == 0 {
        None
    } else if starts_with(lines.last(), prefix) {
        Some(lines.last().skip(prefix.len() as int))
    } else {
        last_with_prefix(lines.drop_last(), prefix)
    }
}

/// The text of an optional string.
pub open spec fn opt_text(o: Option<String>) -> Option<Seq<char>> {
    match o {
        Some(s) => Some(s@),
        None => None,
    }
}

/// The views of lines.
pub open spec fn line_views(lines: Seq<String>) -> Seq<Seq<char>> {
    lines.map_values(|l: String| l@)
}

/// Reads the lines of a clip file. It fails at the first instruction line that does not read,
/// with `line <number>: ` and the instruction parser's message (lines are numbered from 1).
pub fn read_clip_file(lines: &Vec<String>) -> (r: Result<ClipFile, String>)
    ensures
        r is Ok <==> all_insts_read(line_views(lines@)),
        r matches Ok(f) ==> {
            &&& opt_text(f.comment) == last_with_prefix(line_views(lines@), "# comment: "@)
            &&& opt_text(f.fitness) == last_with_prefix(line_views(lines@), "# fitness: "@)
            &&& f.clip@.len() == inst_lines(line_views(lines@)).len()
            &&& forall|k: int|
                0 <= k < f.clip@.len() ==> clip_parses_to(
                    #[trigger] inst_lines(line_views(lines@))[k],
                    f.clip@[k],
                )
        },
        r matches Err(e) ==> exists|n: int|
            {
                &&& 0 <= n < lines@.len()
                &&& is_inst_line(lines@[n]@)
                &&& !(exists|c: ClipInst| clip_parses_to(lines@[n]@, c))
                &&& all_insts_read(line_views(lines@).take(n))
                &&& e@.take(("line "@ + dec_digits((n + 1) as nat) + ": "@).len() as int) == #[trigger] (
                "line "@ + dec_digits((n + 1) as nat) + ": "@)
                &&& e@ == "line "@ + dec_digits((n + 1) as nat) + ": "@ + clip_error(lines@[n]@)
                &&& clip_arity_error(lines@[n]@) matches Some(m) ==> e@ == "line "@ + dec_digits(
                    (n + 1) as nat,
                ) + ": "@ + m
                &&& clip_unknown(lines@[n]@) ==> e@ == "line "@ + dec_digits((n + 1) as nat)
                    + ": "@ + "unknown instruction: "@ + lines@[n]@
            },
{
    let ghost views = line_views(lines@);
    let mut comment: Option<String> = None;
    let mut fitness: Option<String> = None;
    let mut clip: Vec<ClipInst> = Vec::new();
    let mut i: usize = 0;
    while i < lines.len()
        invariant
            i <= lines@.len(),
            views == line_views(lines@),
            opt_text(comment) == last_with_prefix(views.take(i as int), "# comment: "@),
            opt_text(fitness) == last_with_prefix(views.take(i as int), "# fitness: "@),
            all_insts_read(views.take(i as int)),
            clip@.len() == inst_lines(views.take(i as int)).len(),
            forall|k: int|
                0 <= k < clip@.len() ==> clip_parses_to(
                    #[trigger] inst_lines(views.take(i as int))[k],
                    clip@[k],
                ),
        decreases lines@.len() - i,
    {
        let line = lines[i].as_str();
        proof {
            reveal_strlit("# comment: ");
            reveal_strlit("# fitness: ");
        }
        let ghost before = views.take(i as int);
        let ghost after = views.take(i + 1);
        assert(after.drop_last() =~= before);
        assert(after.last() == line@);
        match ClipFileLine::parse(line) {
            Ok(ClipFileLine::Comment(text)) => {
                comment = Some(text);
            },
            Ok(ClipFileLine::Fitness(text)) => {
                fitness = Some(text);
            },
            Ok(ClipFileLine::Inst(c)) => {
                clip.push(c);
            },
            Ok(_) => {},
            Err(e) => {
                let mut msg = String::new();
                msg.append("line ");
                append_u64(&mut msg, (i as u64) + 1);
                msg.append(": ");
                let ghost head = msg@;
                msg.append(e.as_str());
                assert(msg@ == head + e@);
                assert(msg@.take(head.len() as int) =~= head);
                assert(head == "line "@ + dec_digits((i + 1) as nat) + ": "@);
                assert(lines@[i as int]@ == line@);
                assert(views.take(i as int) == line_views(lines@).take(i as int));
                return Err(msg);
            },
        }
        proof {
            if starts_with(line@, "# comment: "@) {
                assert(line@[2] == line@.take(11)[2]);
                assert(!starts_with(line@, "# fitness: "@)) by {
                    if starts_with(line@, "# fitness: "@) {
                        assert(line@[2] == line@.take(11)[2]);
                    }
                }
            }
            assert(last_with_prefix(after, "# comment: "@) == (if starts_with(line@, "# comment: "@) {
                Some(line@.skip(11))
            } else {
                last_with_prefix(before, "# comment: "@)
            }));
            assert(last_with_prefix(after, "# fitness: "@) == (if starts_with(line@, "# fitness: "@) {
                Some(line@.skip(11))
            } else {
                last_with_prefix(before, "# fitness: "@)
            }));
            assert forall|j: int|
                0 <= j < after.len() && is_inst_line(#[trigger] after[j]) implies exists|c: ClipInst|
                clip_parses_to(after[j], c) by {
                if j < i {
                    assert(after[j] == before[j]);
                } else {
                    assert(clip_parses_to(after[j], clip@.last()));
                }
            }
        }
        i = i + 1;
    }
    assert(views.take(i as int) =~= views);
    Ok(ClipFile { comment, fitness, clip })
}

/// The lines of a clip file: the comment, the fitness if there is one, the directive to skip
/// allocated notes, then one line per instruction.
pub open spec fn clip_file_text(
    comment: Seq<char>,
    fitness: Option<Seq<char>>,
    skip_allocated: bool,
    clip: Seq<ClipInst>,
) -> Seq<Seq<char>> {
    let head = seq!["# comment: "@ + comment];
    let with_fitness = match fitness {
        Some(f) => head.push("# fitness: "@ + f),
        None => head,
    };
    with_fitness.push(".skip_allocated "@ + bool_text(skip_allocated)) + clip.map_values(
        |c: ClipInst| clip_text(c),
    )
}

/// The lines of a clip file for the given contents (see `clip_file_text`).
pub fn write_clip_file(
    comment: &str,
    fitness: Option<&str>,
    skip_allocated: bool,
    clip: &Vec<ClipInst>,
) -> (r: Vec<String>)
    ensures
        line_views(r@) == clip_file_text(
            comment@,
            match fitness {
                Some(f) => Some(f@),
                None => None,
            },
            skip_allocated,
            clip@,
        ),
{
    let mut lines: Vec<String> = Vec::new();
    let mut line = String::new();
    line.append("# comment: ");
    line.append(comment);
    lines.push(line);
    if let Some(f) = fitness {
        let mut line = String::new();
        line.append("# fitness: ");
        line.append(f);
        lines.push(line);
    }
    let mut line = String::new();
    line.append(".skip_allocated ");
    line.append(if skip_allocated {
        "true"
    } else {
        "false"
    });
    proof {
        reveal_strlit("true");
        reveal_strlit("false");
        assert("true"@ =~= bool_text(true));
        assert("false"@ =~= bool_text(false));
    }
    assert(line@ == ".skip_allocated "@ + bool_text(skip_allocated));
    lines.push(line);
    let ghost head = line_views(lines@);
    proof {
        let h = seq!["# comment: "@ + comment@];
        let wf = match fitness {
            Some(f) => h.push("# fitness: "@ + f@),
            None => h,
        };
        assert(head =~= wf.push(".skip_allocated "@ + bool_text(skip_allocated)));
    }
    let mut i: usize = 0;
    while i < clip.len()
        invariant
            i <= clip@.len(),
            line_views(lines@) == head + clip@.take(i as int).map_values(|c: ClipInst| clip_text(c)),
        decreases clip@.len() - i,
    {
        let text = clip[i].to_string();
        let ghost before = lines@;
        lines.push(text);
        assert(clip@.take(i + 1).map_values(|c: ClipInst| clip_text(c)) =~= clip@.take(
            i as int,
        ).map_values(|c: ClipInst| clip_text(c)).push(clip_text(clip@[i as int])));
        assert(line_views(lines@) =~= line_views(before).push(text@));
        i = i + 1;
    }
    assert(clip@.take(i as int) =~= clip@);
    assert(line_views(lines@) == clip_file_text(
        comment@,
        match fitness {
            Some(f) => Some(f@),
            None => None,
        },
        skip_allocated,
        clip@,
    ));
    lines
}

proof fn lemma_inst_lines_append(a: Seq<Seq<char>>, b: Seq<Seq<char>>)
    ensures
        inst_lines(a + b) == inst_lines(a) + inst_lines(b),
    decreases b.len(),
{
    if b.len() == 0 {
        assert(a + b =~= a);
        assert(inst_lines(a) + inst_lines(b) =~= inst_lines(a));
    } else {
        lemma_inst_lines_append(a, b.drop_last());
        assert((a + b).drop_last() =~= a + b.drop_last());
        assert((a + b).last() == b.last());
        if is_inst_line(b.last()) {
            assert(inst_lines(a) + inst_lines(b.drop_last()).push(b.last()) =~= (inst_lines(a)
                + inst_lines(b.drop_last())).push(b.last()));
        }
    }
}

proof fn lemma_last_with_prefix_append(a: Seq<Seq<char>>, b: Seq<Seq<char>>, p: Seq<char>)
    requires
        forall|i: int| 0 <= i < b.len() ==> !starts_with(#[trigger] b[i], p),
    ensures
        last_with_prefix(a + b, p) == last_with_prefix(a, p),
    decreases b.len(),
{
    if b.len() == 0 {
        assert(a + b =~= a);
    } else {
        let c = b.drop_last();
        assert forall|i: int| 0 <= i < c.len() implies !starts_with(#[trigger] c[i], p) by {
            assert(c[i] == b[i]);
        }
        lemma_last_with_prefix_append(a, c, p);
        assert((a + b).drop_last() =~= a + c);
        assert((a + b).last() == b[b.len() - 1]);
    }
}

/// The text of an instruction is an instruction line: it starts with a letter or `+`.
proof fn lemma_clip_text_is_inst_line(c: ClipInst)
    ensures
        is_inst_line(clip_text(c)),
{
    let t = clip_text(c);
    reveal_strlit("# comment: ");
    reveal_strlit("# fitness: ");
    reveal_strlit(".skip_allocated");
    assert(t.len() > 0);
    assert(t[0] == '+' || t[0] == 'j' || t[0] == 'n' || t[0] == 's' || t[0] == 'c');
    assert(!blank(t)) by {
        assert(!whitespace(t[0]));
    }
    assert(!starts_with(t, "# comment: "@)) by {
        if starts_with(t, "# comment: "@) {
            assert(t[0] == t.take(11)[0]);
        }
    }
    assert(!starts_with(t, "# fitness: "@)) by {
        if starts_with(t, "# fitness: "@) {
            assert(t[0] == t.take(11)[0]);
        }
    }
    assert(!starts_with(t, ".skip_allocated"@)) by {
        if starts_with(t, ".skip_allocated"@) {
            assert(t[0] == t.take(15)[0]);
        }
    }
}

/// What is written to a clip file reads back: its comment, its fitness, and one instruction line
/// per instruction, whose text reads as the instruction (for instructions whose text reads back,
/// see `clip_text_readable`).
pub proof fn lemma_clip_file_round_trip(
    comment: Seq<char>,
    fitness: Option<Seq<char>>,
    skip_allocated: bool,
    clip: Seq<ClipInst>,
)
    requires
        forall|k: int| 0 <= k < clip.len() ==> clip_text_readable(#[trigger] clip[k]),
    ensures
        ({
            let lines = clip_file_text(comment, fitness, skip_allocated, clip);
            &&& all_insts_read(lines)
            &&& last_with_prefix(lines, "# comment: "@) == Some(comment)
            &&& last_with_prefix(lines, "# fitness: "@) == fitness
            &&& inst_lines(lines) == clip.map_values(|c: ClipInst| clip_text(c))
            &&& forall|k: int|
                0 <= k < clip.len() ==> clip_parses_to(#[trigger] inst_lines(lines)[k], clip[k])
        }),
{
    reveal_strlit("# comment: ");
    reveal_strlit("# fitness: ");
    reveal_strlit(".skip_allocated ");
    reveal_strlit(".skip_allocated");
    let texts = clip.map_values(|c: ClipInst| clip_text(c));
    let cl = "# comment: "@ + comment;
    let h = seq![cl];
    let wf = match fitness {
        Some(f) => h.push("# fitness: "@ + f),
        None => h,
    };
    let sl = ".skip_allocated "@ + bool_text(skip_allocated);
    let head = wf.push(sl);
    let lines = clip_file_text(comment, fitness, skip_allocated, clip);
    assert(lines == head + texts);
    assert forall|k: int| 0 <= k < texts.len() implies is_inst_line(#[trigger] texts[k])
        && clip_parses_to(texts[k], clip[k]) by {
        lemma_clip_text_is_inst_line(clip[k]);
        lemma_clip_text_round_trip(clip[k]);
    }
    // The head lines are no instruction lines.
    assert(cl.take(11) =~= "# comment: "@);
    assert(sl.take(16) =~= ".skip_allocated "@);
    assert(sl.take(15) =~= ".skip_allocated"@);
    assert(!starts_with(sl, "# comment: "@)) by {
        if starts_with(sl, "# comment: "@) {
            assert(sl[0] == sl.take(11)[0]);
        }
    }
    assert(!starts_with(sl, "# fitness: "@)) by {
        if starts_with(sl, "# fitness: "@) {
            assert(sl[0] == sl.take(11)[0]);
        }
    }
    assert(!starts_with(cl, "# fitness: "@)) by {
        if starts_with(cl, "# fitness: "@) {
            assert(cl[2] == cl.take(11)[2]);
        }
    }
    assert(starts_with(cl, "# comment: "@));
    assert(starts_with(sl, ".skip_allocated"@));
    assert(!is_inst_line(cl));
    assert(!is_inst_line(sl));
    assert(h.drop_last() =~= Seq::<Seq<char>>::empty());
    assert(inst_lines(Seq::<Seq<char>>::empty()) == Seq::<Seq<char>>::empty());
    assert(h.last() == cl);
    assert(inst_lines(h) == inst_lines(h.drop_last()));
    match fitness {
        Some(f) => {
            let fl = "# fitness: "@ + f;
            assert(fl.take(11) =~= "# fitness: "@);
            assert(starts_with(fl, "# fitness: "@));
            assert(!is_inst_line(fl));
            assert(wf.drop_last() == h);
            assert(wf.last() == fl);
            assert(inst_lines(wf) == inst_lines(h));
        },
        None => {},
    }
    assert(head.drop_last() == wf);
    assert(head.last() == sl);
    assert(inst_lines(head) == inst_lines(wf));
    assert(inst_lines(head) =~= Seq::<Seq<char>>::empty());
    assert(inst_lines(texts) =~= texts) by {
        lemma_inst_lines_all(texts);
    }
    lemma_inst_lines_append(head, texts);
    assert(inst_lines(lines) =~= texts);
    assert forall|i: int| 0 <= i < texts.len() implies !starts_with(#[trigger] texts[i], "# comment: "@)
        && !starts_with(texts[i], "# fitness: "@) by {}
    lemma_last_with_prefix_append(head, texts, "# comment: "@);
    lemma_last_with_prefix_append(head, texts, "# fitness: "@);
    assert("# comment: "@.len() == 11);
    assert("# fitness: "@.len() == 11);
    assert(last_with_prefix(head, "# comment: "@) == last_with_prefix(wf, "# comment: "@));
    assert(last_with_prefix(head, "# fitness: "@) == last_with_prefix(wf, "# fitness: "@));
    assert(last_with_prefix(h, "# comment: "@) == Some(cl.skip(11)));
    assert(cl.skip(11) =~= comment);
    match fitness {
        Some(f) => {
            let fl = "# fitness: "@ + f;
            assert(fl.take(11) =~= "# fitness: "@);
            assert(fl.skip(11) =~= f);
            assert(!starts_with(fl, "# comment: "@)) by {
                assert(fl[2] == fl.take(11)[2]);
            }
            assert(last_with_prefix(wf, "# comment: "@) == last_with_prefix(h, "# comment: "@));
            assert(last_with_prefix(wf, "# fitness: "@) == Some(fl.skip(11)));
        },
        None => {
            assert(last_with_prefix(h, "# fitness: "@) == last_with_prefix(
                Seq::<Seq<char>>::empty(),
                "# fitness: "@,
            ));
        },
    }
    assert forall|i: int| 0 <= i < lines.len() && is_inst_line(#[trigger] lines[i]) implies exists|
        c: ClipInst,
    | clip_parses_to(lines[i], c) by {
        if i < head.len() {
            assert(inst_lines(head).len() == 0);
            lemma_inst_line_member(head, i);
        } else {
            assert(lines[i] == texts[i - head.len()]);
            assert(clip_parses_to(lines[i], clip[i - head.len()]));
        }
    }
    assert(all_insts_read(lines));
    assert(last_with_prefix(lines, "# comment: "@) == Some(comment));
    assert(last_with_prefix(lines, "# fitness: "@) == fitness);
    assert(inst_lines(lines) == texts);
}

/// A sequence of instruction lines keeps all of its lines.
proof fn lemma_inst_lines_all(lines: Seq<Seq<char>>)
    requires
        forall|k: int| 0 <= k < lines.len() ==> is_inst_line(#[trigger] lines[k]),
    ensures
        inst_lines(lines) == lines,
    decreases lines.len(),
{
    if lines.len() > 0 {
        let rest = lines.drop_last();
        assert forall|k: int| 0 <= k < rest.len() implies is_inst_line(#[trigger] rest[k]) by {
            assert(rest[k] == lines[k]);
        }
        lemma_inst_lines_all(rest);
        assert(is_inst_line(lines[lines.len() - 1]));
        assert(rest.push(lines.last()) =~= lines);
    }
}

/// An instruction line of `lines` is among its instruction lines.
proof fn lemma_inst_line_member(lines: Seq<Seq<char>>, i: int)
    requires
        0 <= i < lines.len(),
        is_inst_line(lines[i]),
    ensures
        inst_lines(lines).len() > 0,
    decreases lines.len(),
{
    if i < lines.len() - 1 {
        assert(lines.drop_last()[i] == lines[i]);
        lemma_inst_line_member(lines.drop_last(), i);
    }
}

} // verus!
