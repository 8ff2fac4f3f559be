//! Commands of the interactive clip prompt that change a clip: `e <idx> = <inst>` puts an
//! instruction in place of the one at an index.
use crate::clipfile::{is_whitespace, whitespace};
use crate::sequencer::{clip_error, clip_parses_to, ClipInst};
use crate::text::{
    append_u64, dec_digits, decimal_unsigned, parse_usize, split, str_split, str_views,
    unsigned_in_range, usize_parse_error,
};
use vstd::prelude::*;

verus! {

/// `s` without its leading whitespace.
pub open spec fn trim_start_ws(s: Seq<char>) -> Seq<char>
    decreases s.len(),
{
    if s.len() > 0 && whitespace(s[0]) {
        trim_start_ws(s.drop_first())
    } else {
        s
    }
}

/// `s` without its trailing whitespace.
pub open spec fn trim_end_ws(s: Seq<char>) -> Seq<char>
    decreases s.len(),
{
    if s.len() > 0 && whitespace(s.last()) {
        trim_end_ws(s.drop_last())
    } else {
        s
    }
}

/// `s` without leading and trailing whitespace, as std's `str::trim` leaves it.
pub open spec fn trim_ws(s: Seq<char>) -> Seq<char> {
    trim_end_ws(trim_start_ws(s))
}

proof fn lemma_trim_start_skip(s: Seq<char>, a: int)
    requires
        0 <= a <= s.len(),
        forall|j: int| 0 <= j < a ==> whitespace(#[trigger] s[j]),
    ensures
        trim_start_ws(s) == trim_start_ws(s.skip(a)),
    decreases a,
{
    if a > 0 {
        let t = s.drop_first();
        assert forall|j: int| 0 <= j < a - 1 implies whitespace(#[trigger] t[j]) by {
            assert(t[j] == s[j + 1]);
        }
        lemma_trim_start_skip(t, a - 1);
        assert(t.skip(a - 1) =~= s.skip(a));
        assert(whitespace(s[0]));
    } else {
        assert(s.skip(0) =~= s);
    }
}

proof fn lemma_trim_end_take(s: Seq<char>, b: int)
    requires
        0 <= b <= s.len(),
        forall|j: int| b <= j < s.len() ==> whitespace(#[trigger] s[j]),
    ensures
        trim_end_ws(s) == trim_end_ws(s.take(b)),
    decreases s.len() - b,
{
    if b < s.len() {
        let t = s.drop_last();
        assert forall|j: int| b <= j < t.len() implies whitespace(#[trigger] t[j]) by {
            assert(t[j] == s[j]);
        }
        lemma_trim_end_take(t, b);
        assert(t.take(b) =~= s.take(b));
        assert(whitespace(s[s.len() - 1]));
    } else {
        assert(s.take(b) =~= s);
    }
}

/// Removes leading and trailing whitespace (see `trim_ws`).
pub fn str_trim(s: &str) -> (r: &str)
    ensures
        r@ == trim_ws(s@),
{
    let n = s.unicode_len();
    let mut a: usize = 0;
    while a < n && is_whitespace(s.get_char(a))
        invariant
            a <= n,
            n == s@.len(),
            forall|j: int| 0 <= j < a ==> whitespace(#[trigger] s@[j]),
        decreases n - a,
    {
        a = a + 1;
    }
    proof {
        lemma_trim_start_skip(s@, a as int);
    }
    assert(trim_start_ws(s@.skip(a as int)) == s@.skip(a as int));
    let mut b: usize = n;
    while b > a && is_whitespace(s.get_char(b - 1))
        invariant
            a <= b <= n,
            n == s@.len(),
            forall|j: int| b <= j < n ==> whitespace(#[trigger] s@[j]),
        decreases b,
    {
        b = b - 1;
    }
    let ghost t = s@.skip(a as int);
    proof {
        assert forall|j: int| b - a <= j < t.len() implies whitespace(#[trigger] t[j]) by {
            assert(t[j] == s@[j + a]);
        }
        lemma_trim_end_take(t, b - a);
        if b > a {
            assert(t.take(b - a).last() == s@[b - 1]);
        }
    }
    assert(trim_end_ws(t.take(b - a)) == t.take(b - a));
    let r = s.substring_char(a, b);
    assert(r@ =~= t.take(b - a));
    r
}

/// The trimmed pieces of an edit command's arguments, split at `=`.
pub open spec fn edit_pieces(args: Seq<char>) -> Seq<Seq<char>> {
    split(args, '=').map_values(|p: Seq<char>| trim_ws(p))
}

/// Applies the edit command with arguments `<idx> = <inst>` to `clip`: the instruction that the
/// text after `=` reads as takes the place of the one at the index. Without an `=`, with an
/// index or instruction that does not read, or with an index beyond the clip, the clip stays
/// as it is and the error says why; a number or instruction that does not read is reported with
/// its parser's message.
pub fn edit_clip(clip: &mut Vec<ClipInst>, args: &str) -> (r: Result<(), String>)
    ensures
        ({
            let p = edit_pieces(args@);
            &&& p.len() < 2 ==> (r matches Err(e) && e@
                == "missing arguments: must provide instruction"@)
            &&& p.len() >= 2 && !unsigned_in_range(p[0], usize::MAX as int) ==> (r matches Err(e)
                && e@ == "invalid index: "@ + usize_parse_error(p[0]))
            &&& p.len() >= 2 && unsigned_in_range(p[0], usize::MAX as int) && !(exists|c: ClipInst|
                clip_parses_to(p[1], c)) ==> (r matches Err(e) && e@ == "invalid edit: "@
                + clip_error(p[1]))
            &&& p.len() >= 2 && unsigned_in_range(p[0], usize::MAX as int) && (exists|c: ClipInst|
                clip_parses_to(p[1], c)) && decimal_unsigned(p[0])->0 >= old(clip)@.len() ==> (
            r matches Err(e) && e@ == "index out of bounds: "@ + dec_digits(
                decimal_unsigned(p[0])->0 as nat,
            ) + " >= "@ + dec_digits(old(clip)@.len()))
            &&& r is Ok <==> (p.len() >= 2 && unsigned_in_range(p[0], usize::MAX as int) && (exists|
                c: ClipInst|
                clip_parses_to(p[1], c)) && decimal_unsigned(p[0])->0 < old(clip)@.len())
            &&& r is Ok ==> exists|c: ClipInst|
                clip_parses_to(p[1], c) && final(clip)@ == old(clip)@.update(
                    decimal_unsigned(p[0])->0,
                    c,
                )
            &&& r is Err ==> final(clip)@ == old(clip)@
        }),
{
    proof {
        reveal_strlit("missing arguments: must provide instruction");
        reveal_strlit("invalid index: ");
        reveal_strlit("invalid edit: ");
        reveal_strlit("index out of bounds: ");
        reveal_strlit(" >= ");
    }
    let pieces = str_split(args, '=');
    let ghost p = edit_pieces(args@);
    assert(pieces@.len() == p.len());
    if pieces.len() < 2 {
        let mut msg = String::new();
        msg.append("missing arguments: must provide instruction");
        return Err(msg);
    }
    let idx_text = str_trim(pieces[0]);
    let inst_text = str_trim(pieces[1]);
    assert(pieces@[0]@ == str_views(pieces@)[0]);
    assert(pieces@[1]@ == str_views(pieces@)[1]);
    assert(idx_text@ == p[0]);
    assert(inst_text@ == p[1]);
    let idx = match parse_usize(idx_text) {
        Ok(v) => v,
        Err(e) => {
            let mut msg = String::new();
            msg.append("invalid index: ");
            let ghost head = msg@;
            msg.append(e.as_str());
            assert(msg@ == head + e@);
            return Err(msg);
        },
    };
    let inst = match ClipInst::parse(inst_text) {
        Ok(c) => c,
        Err(e) => {
            let mut msg = String::new();
            msg.append("invalid edit: ");
            let ghost head = msg@;
            msg.append(e.as_str());
            assert(msg@ == head + e@);
            return Err(msg);
        },
    };
    if idx >= clip.len() {
        let mut msg = String::new();
        msg.append("index out of bounds: ");
        append_u64(&mut msg, idx as u64);
        msg.append(" >= ");
        append_u64(&mut msg, clip.len() as u64);
        return Err(msg);
    }
    clip.set(idx, inst);
    Ok(())
}

} // verus!
