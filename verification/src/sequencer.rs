//! MIDI sequencer implementation that takes care of timing and generating MIDI messages.
use crate::midi::{midi_bytes, supported_midi_version, MidiMsg, CLOCKS_PER_QN};
use crate::text::{
    append_i64, append_u64, dec_digits, dec_int, join, lacks, lemma_dec_int_parses,
    lemma_join_lacks, lemma_join_push, lemma_split_join, push_char, decimal_signed, decimal_unsigned, parse_i32, parse_u32, parse_u8,
    signed_in_range, split, starts_with, str_eq, str_split, str_strip_prefix, str_views,
    unsigned_in_range, i32_parse_error, u32_parse_error, u8_parse_error,
};
use crate::units::{
    duration_error, note_error, duration_from_text, duration_text, folded, lemma_dec_int_lacks, lemma_duration_text_round_trip,
    lemma_note_text_round_trip, lemma_unit_texts_lack, lemma_velocity_text_round_trip,
    note_from_text, note_pitch, note_text, velocity_from_text, velocity_text, velocity_value,
    Duration, Note, Velocity,
};
use std::collections::HashMap;
use vstd::std_specs::iter::IteratorSpec;
use vstd::prelude::*;

verus! {

// === Euclidean rhythms ======================================================================

/// `n` copies of the group `g`.
pub open spec fn groups_of(g: Seq<bool>, n: nat) -> Seq<Seq<bool>> {
    Seq::new(n, |i: int| g)
}

/// The groups laid end to end.
pub open spec fn concat_groups(groups: Seq<Seq<bool>>) -> Seq<bool>
    decreases groups.len(),
{
    if groups.len() == 0 {
        Seq::empty()
    } else {
        concat_groups(groups.drop_last()) + groups.last()
    }
}

/// Number of pulses (`true` steps) in a rhythm.
pub open spec fn count_pulses(s: Seq<bool>) -> nat
    decreases s.len(),
{
    if s.len() == 0 {
        0
    } else {
        count_pulses(s.drop_last()) + if s.last() {
            1nat
        } else {
            0nat
        }
    }
}

pub open spec fn min_int(a: int, b: int) -> int {
    if a < b {
        a
    } else {
        b
    }
}

/// Bjorklund's grouping of a rhythm held as `a` groups `x` followed by `b` groups `y`: while the
/// remainder allows, the smaller count of groups is paired with as many of the other kind, which
/// leaves groups `x + y` and the unpaired remainder. `z` counts the steps beyond the pulses.
pub open spec fn bjorklund(x: Seq<bool>, y: Seq<bool>, a: nat, b: nat, z: int) -> (
    Seq<bool>,
    Seq<bool>,
    nat,
    nat,
)
    decreases a + b,
{
    let k = min_int(a as int, b as int);
    if (z > 0 || k > 1) && k >= 1 {
        if a >= b {
            bjorklund(x + y, x, b, (a - b) as nat, z - k)
        } else {
            bjorklund(x + y, y, a, (b - a) as nat, z - k)
        }
    } else {
        (x, y, a, b)
    }
}

/// The Euclidean rhythm of `pulses` pulses over `len` steps, as Bjorklund's algorithm lays it out.
pub open spec fn euclid_pattern(pulses: nat, len: nat) -> Seq<bool> {
    let r = bjorklund(seq![true], seq![false], pulses, (len - pulses) as nat, len - pulses);
    concat_groups(groups_of(r.0, r.2) + groups_of(r.1, r.3))
}

/// The Euclidean rhythm rotated to start at step `offset`.
pub open spec fn euclidean_rhythm(pulses: nat, len: nat, offset: nat) -> Seq<bool> {
    Seq::new(len, |i: int| euclid_pattern(pulses, len)[(i + offset) % (len as int)])
}

/// Inputs on which the sequence is defined: at most `len` pulses and an offset within the length.
pub open spec fn euclid_args_valid(pulses: u32, len: u32, offset: u32) -> bool {
    &&& pulses <= len
    &&& (len == 0 || offset < len)
}

proof fn lemma_concat_groups_append(g: Seq<Seq<bool>>, h: Seq<Seq<bool>>)
    ensures
        concat_groups(g + h) == concat_groups(g) + concat_groups(h),
    decreases h.len(),
{
    if h.len() == 0 {
        assert(g + h =~= g);
        assert(concat_groups(g) + concat_groups(h) =~= concat_groups(g));
    } else {
        assert((g + h).drop_last() =~= g + h.drop_last());
        lemma_concat_groups_append(g, h.drop_last());
        assert(concat_groups(g) + concat_groups(h) =~= concat_groups(g) + concat_groups(
            h.drop_last(),
        ) + h.last());
    }
}

proof fn lemma_count_pulses_append(s: Seq<bool>, t: Seq<bool>)
    ensures
        count_pulses(s + t) == count_pulses(s) + count_pulses(t),
    decreases t.len(),
{
    if t.len() == 0 {
        assert(s + t =~= s);
    } else {
        assert((s + t).drop_last() =~= s + t.drop_last());
        lemma_count_pulses_append(s, t.drop_last());
    }
}

/// A rhythm without pulses holds only rests.
proof fn lemma_no_pulses(s: Seq<bool>)
    requires
        count_pulses(s) == 0,
    ensures
        !s.contains(true),
    decreases s.len(),
{
    if s.len() > 0 {
        lemma_no_pulses(s.drop_last());
        assert forall|i: int| 0 <= i < s.len() implies !s[i] by {
            if i < s.len() - 1 {
                assert(s[i] == s.drop_last()[i]);
            }
        }
    }
}

proof fn lemma_groups_of(g: Seq<bool>, n: nat)
    ensures
        concat_groups(groups_of(g, n)).len() == n * g.len(),
        count_pulses(concat_groups(groups_of(g, n))) == n * count_pulses(g),
    decreases n,
{
    if n > 0 {
        assert(groups_of(g, n).drop_last() =~= groups_of(g, (n - 1) as nat));
        lemma_groups_of(g, (n - 1) as nat);
        lemma_count_pulses_append(concat_groups(groups_of(g, (n - 1) as nat)), g);
        assert(n * g.len() == (n - 1) * g.len() + g.len()) by (nonlinear_arith);
        assert(n * count_pulses(g) == (n - 1) * count_pulses(g) + count_pulses(g))
            by (nonlinear_arith);
    } else {
        assert(groups_of(g, n) =~= Seq::<Seq<bool>>::empty());
    }
}

/// The grouping keeps the number of steps and of pulses, and the first group starts with a
/// pulse when the first groups are non-empty and start with one.
proof fn lemma_bjorklund(x: Seq<bool>, y: Seq<bool>, a: nat, b: nat, z: int)
    ensures
        ({
            let r = bjorklund(x, y, a, b, z);
            &&& r.2 * r.0.len() + r.3 * r.1.len() == a * x.len() + b * y.len()
            &&& r.2 * count_pulses(r.0) + r.3 * count_pulses(r.1) == a * count_pulses(x) + b
                * count_pulses(y)
            &&& (a >= 1 && x.len() > 0 && x[0]) ==> (r.2 >= 1 && r.0.len() > 0 && r.0[0])
        }),
    decreases a + b,
{
    let k = min_int(a as int, b as int);
    if (z > 0 || k > 1) && k >= 1 {
        lemma_count_pulses_append(x, y);
        if a >= b {
            lemma_bjorklund(x + y, x, b, (a - b) as nat, z - k);
            assert(b * (x + y).len() + (a - b) * x.len() == a * x.len() + b * y.len())
                by (nonlinear_arith)
                requires
                    (x + y).len() == x.len() + y.len(),
                    a >= b,
            ;
            assert(b * (count_pulses(x) + count_pulses(y)) + (a - b) * count_pulses(x) == a
                * count_pulses(x) + b * count_pulses(y)) by (nonlinear_arith)
                requires
                    a >= b,
            ;
        } else {
            lemma_bjorklund(x + y, y, a, (b - a) as nat, z - k);
            assert(a * (x + y).len() + (b - a) * y.len() == a * x.len() + b * y.len())
                by (nonlinear_arith)
                requires
                    (x + y).len() == x.len() + y.len(),
                    a < b,
            ;
            assert(a * (count_pulses(x) + count_pulses(y)) + (b - a) * count_pulses(y) == a
                * count_pulses(x) + b * count_pulses(y)) by (nonlinear_arith)
                requires
                    a < b,
            ;
        }
    }
}

/// A Euclidean rhythm has exactly `len` steps of which exactly `pulses` are pulses, and it
/// starts on a pulse when it has any.
pub proof fn lemma_euclid_pattern(pulses: nat, len: nat)
    requires
        pulses <= len,
    ensures
        euclid_pattern(pulses, len).len() == len,
        count_pulses(euclid_pattern(pulses, len)) == pulses,
        pulses > 0 ==> euclid_pattern(pulses, len)[0],
{
    let x = seq![true];
    let y = seq![false];
    let d = (len - pulses) as nat;
    let r = bjorklund(x, y, pulses, d, len - pulses);
    assert(count_pulses(Seq::<bool>::empty()) == 0);
    assert(count_pulses(x) == 1) by {
        assert(x.drop_last() =~= Seq::<bool>::empty());
        assert(x.last());
    }
    assert(count_pulses(y) == 0) by {
        assert(y.drop_last() =~= Seq::<bool>::empty());
        assert(!y.last());
    }
    lemma_bjorklund(x, y, pulses, d, len - pulses);
    assert(x.len() == 1 && y.len() == 1);
    assert(pulses * x.len() + d * y.len() == len) by (nonlinear_arith)
        requires
            x.len() == 1,
            y.len() == 1,
            d == len - pulses,
    ;
    assert(pulses * count_pulses(x) + d * count_pulses(y) == pulses) by (nonlinear_arith)
        requires
            count_pulses(x) == 1,
            count_pulses(y) == 0,
    ;
    lemma_groups_of(r.0, r.2);
    lemma_groups_of(r.1, r.3);
    lemma_concat_groups_append(groups_of(r.0, r.2), groups_of(r.1, r.3));
    lemma_count_pulses_append(
        concat_groups(groups_of(r.0, r.2)),
        concat_groups(groups_of(r.1, r.3)),
    );
    if pulses > 0 {
        lemma_concat_first(r.0, r.2);
    }
}

/// The sequence that `euclidean_sequence` returns has `len` steps, exactly `pulses` of them
/// pulses, and is the unrotated rhythm read from step `offset` on, wrapping around.
pub proof fn lemma_euclidean_rhythm(pulses: nat, len: nat, offset: nat)
    requires
        pulses <= len,
        len == 0 || offset < len,
    ensures
        euclidean_rhythm(pulses, len, offset).len() == len,
        count_pulses(euclidean_rhythm(pulses, len, offset)) == pulses,
        forall|i: int|
            0 <= i < len ==> #[trigger] euclidean_rhythm(pulses, len, offset)[i]
                == euclidean_rhythm(pulses, len, 0)[(i + offset) % (len as int)],
{
    lemma_euclid_pattern(pulses, len);
    let s = euclid_pattern(pulses, len);
    let r = euclidean_rhythm(pulses, len, offset);
    if len == 0 {
        assert(r =~= Seq::<bool>::empty());
    } else {
        assert(r =~= s.skip(offset as int) + s.take(offset as int)) by {
            assert forall|i: int| 0 <= i < len implies #[trigger] r[i] == (s.skip(offset as int)
                + s.take(offset as int))[i] by {
                if i + offset < len {
                    vstd::arithmetic::div_mod::lemma_small_mod((i + offset) as nat, len);
                } else {
                    assert((i + offset) % (len as int) == i + offset - len) by {
                        vstd::arithmetic::div_mod::lemma_fundamental_div_mod_converse(
                            i + offset,
                            len as int,
                            1,
                            i + offset - len,
                        );
                    }
                }
            }
        }
        lemma_count_pulses_append(s.skip(offset as int), s.take(offset as int));
        lemma_count_pulses_append(s.take(offset as int), s.skip(offset as int));
        assert(s.take(offset as int) + s.skip(offset as int) =~= s);
        assert forall|i: int| 0 <= i < len implies #[trigger] euclidean_rhythm(pulses, len, 0)[(i
            + offset) % (len as int)] == s[(i + offset) % (len as int)] by {
            let j = (i + offset) % (len as int);
            assert(0 <= j < len);
            vstd::arithmetic::div_mod::lemma_small_mod(j as nat, len);
            assert((j + 0) % (len as int) == j);
        }
    }
}

proof fn lemma_concat_first(g: Seq<bool>, n: nat)
    requires
        n >= 1,
        g.len() > 0,
    ensures
        concat_groups(groups_of(g, n)).len() > 0,
        concat_groups(groups_of(g, n))[0] == g[0],
    decreases n,
{
    lemma_groups_of(g, n);
    assert(n * g.len() > 0) by (nonlinear_arith)
        requires
            n >= 1,
            g.len() > 0,
    ;
    assert(groups_of(g, n).drop_last() =~= groups_of(g, (n - 1) as nat));
    let prev = concat_groups(groups_of(g, (n - 1) as nat));
    assert(concat_groups(groups_of(g, n)) == prev + g);
    if n > 1 {
        lemma_concat_first(g, (n - 1) as nat);
        assert((prev + g)[0] == prev[0]);
    } else {
        assert(groups_of(g, 0) =~= Seq::<Seq<bool>>::empty());
        assert(prev =~= Seq::<bool>::empty());
        assert(prev + g =~= g);
    }
}

/// A run of `n` steps: a pulse followed by `n - 1` rests.
pub open spec fn pulse_run(n: nat) -> Seq<bool> {
    Seq::new(n, |i: int| i == 0)
}

/// Runs of the given lengths laid end to end.
pub open spec fn runs_text(runs: Seq<nat>) -> Seq<bool>
    decreases runs.len(),
{
    if runs.len() == 0 {
        Seq::empty()
    } else {
        runs_text(runs.drop_last()) + pulse_run(runs.last())
    }
}

/// Every run is `lo` or `lo + 1` steps long.
pub open spec fn runs_near(runs: Seq<nat>, lo: nat) -> bool {
    forall|i: int| 0 <= i < runs.len() ==> #[trigger] runs[i] == lo || runs[i] == lo + 1
}

/// The total length of runs.
pub open spec fn runs_total(runs: Seq<nat>) -> nat
    decreases runs.len(),
{
    if runs.len() == 0 {
        0
    } else {
        runs_total(runs.drop_last()) + runs.last()
    }
}

/// `n` copies of the runs `rs`, one after another.
spec fn repeat_runs(rs: Seq<nat>, n: nat) -> Seq<nat>
    decreases n,
{
    if n == 0 {
        Seq::empty()
    } else {
        repeat_runs(rs, (n - 1) as nat) + rs
    }
}

proof fn lemma_runs_text_append(r1: Seq<nat>, r2: Seq<nat>)
    ensures
        runs_text(r1 + r2) == runs_text(r1) + runs_text(r2),
    decreases r2.len(),
{
    if r2.len() == 0 {
        assert(r1 + r2 =~= r1);
        assert(runs_text(r1) + runs_text(r2) =~= runs_text(r1));
    } else {
        assert((r1 + r2).drop_last() =~= r1 + r2.drop_last());
        lemma_runs_text_append(r1, r2.drop_last());
        assert(runs_text(r1) + runs_text(r2) =~= runs_text(r1) + runs_text(r2.drop_last())
            + pulse_run(r2.last()));
    }
}

proof fn lemma_runs_near_append(r1: Seq<nat>, r2: Seq<nat>, lo: nat)
    requires
        runs_near(r1, lo),
        runs_near(r2, lo),
    ensures
        runs_near(r1 + r2, lo),
{
    assert forall|i: int| 0 <= i < (r1 + r2).len() implies #[trigger] (r1 + r2)[i] == lo || (r1
        + r2)[i] == lo + 1 by {
        if i < r1.len() {
            assert((r1 + r2)[i] == r1[i]);
        } else {
            assert((r1 + r2)[i] == r2[i - r1.len()]);
        }
    }
}

proof fn lemma_repeat_runs(rs: Seq<nat>, n: nat, lo: nat)
    requires
        runs_near(rs, lo),
    ensures
        concat_groups(groups_of(runs_text(rs), n)) == runs_text(repeat_runs(rs, n)),
        runs_near(repeat_runs(rs, n), lo),
    decreases n,
{
    if n == 0 {
        assert(groups_of(runs_text(rs), 0) =~= Seq::<Seq<bool>>::empty());
    } else {
        lemma_repeat_runs(rs, (n - 1) as nat, lo);
        assert(groups_of(runs_text(rs), n).drop_last() =~= groups_of(runs_text(rs), (n - 1) as nat));
        lemma_runs_text_append(repeat_runs(rs, (n - 1) as nat), rs);
        lemma_runs_near_append(repeat_runs(rs, (n - 1) as nat), rs, lo);
    }
}

proof fn lemma_single_run(n: nat)
    ensures
        runs_text(seq![n]) == pulse_run(n),
{
    let s = seq![n];
    assert(s.drop_last() =~= Seq::<nat>::empty());
    assert(s.last() == n);
    assert(runs_text(Seq::<nat>::empty()) == Seq::<bool>::empty());
    assert(runs_text(s) == runs_text(s.drop_last()) + pulse_run(s.last()));
    assert(Seq::<bool>::empty() + pulse_run(n) =~= pulse_run(n));
}

/// The grouping keeps both groups made of runs of two neighbouring lengths.
proof fn lemma_bjorklund_runs(
    x: Seq<bool>,
    y: Seq<bool>,
    a: nat,
    b: nat,
    z: int,
    rx: Seq<nat>,
    ry: Seq<nat>,
    lo: nat,
) -> (res: (Seq<nat>, Seq<nat>))
    requires
        x == runs_text(rx),
        y == runs_text(ry),
        runs_near(rx, lo),
        runs_near(ry, lo),
    ensures
        bjorklund(x, y, a, b, z).0 == runs_text(res.0),
        bjorklund(x, y, a, b, z).1 == runs_text(res.1),
        runs_near(res.0, lo),
        runs_near(res.1, lo),
    decreases a + b,
{
    let k = min_int(a as int, b as int);
    if (z > 0 || k > 1) && k >= 1 {
        lemma_runs_text_append(rx, ry);
        lemma_runs_near_append(rx, ry, lo);
        if a >= b {
            lemma_bjorklund_runs(x + y, x, b, (a - b) as nat, z - k, rx + ry, rx, lo)
        } else {
            lemma_bjorklund_runs(x + y, y, a, (b - a) as nat, z - k, rx + ry, ry, lo)
        }
    } else {
        (rx, ry)
    }
}

/// While rests outnumber the pulse groups, each group takes one more rest; once they do not,
/// both groups are runs of two neighbouring lengths.
proof fn lemma_bjorklund_first_runs(m: nat, a: nat, b: nat) -> (res: (Seq<nat>, Seq<nat>, nat))
    requires
        a >= 1,
    ensures
        bjorklund(pulse_run(m + 1), seq![false], a, b, b as int).0 == runs_text(res.0),
        bjorklund(pulse_run(m + 1), seq![false], a, b, b as int).3 > 0 ==> bjorklund(
            pulse_run(m + 1),
            seq![false],
            a,
            b,
            b as int,
        ).1 == runs_text(res.1),
        runs_near(res.0, res.2),
        runs_near(res.1, res.2),
        res.2 >= 1,
    decreases b,
{
    let x = pulse_run(m + 1);
    let y = seq![false];
    assert(x + y =~= pulse_run(m + 2));
    if b >= 1 {
        if a >= b {
            lemma_single_run(m + 2);
            lemma_single_run(m + 1);
            let rx = seq![m + 2];
            let ry = seq![m + 1];
            assert(runs_near(rx, m + 1));
            assert(runs_near(ry, m + 1));
            let r = lemma_bjorklund_runs(x + y, x, b, (a - b) as nat, 0, rx, ry, m + 1);
            (r.0, r.1, m + 1)
        } else {
            lemma_bjorklund_first_runs(m + 1, a, (b - a) as nat)
        }
    } else {
        lemma_single_run(m + 1);
        let rx = seq![m + 1];
        assert(runs_near(rx, m + 1));
        assert(runs_near(Seq::<nat>::empty(), m + 1));
        (rx, Seq::empty(), m + 1)
    }
}

proof fn lemma_run_counts(n: nat)
    requires
        n >= 1,
    ensures
        pulse_run(n).len() == n,
        count_pulses(pulse_run(n)) == 1,
    decreases n,
{
    if n > 1 {
        lemma_run_counts((n - 1) as nat);
        assert(pulse_run(n).drop_last() =~= pulse_run((n - 1) as nat));
        assert(!pulse_run(n).last());
    } else {
        assert(pulse_run(n).drop_last() =~= Seq::<bool>::empty());
        assert(pulse_run(n).last());
        assert(count_pulses(Seq::<bool>::empty()) == 0);
    }
}

proof fn lemma_runs_counts(rs: Seq<nat>, lo: nat)
    requires
        runs_near(rs, lo),
        lo >= 1,
    ensures
        runs_text(rs).len() == runs_total(rs),
        count_pulses(runs_text(rs)) == rs.len(),
        rs.len() * lo <= runs_total(rs) <= rs.len() * (lo + 1),
        forall|j: int|
            0 <= j < rs.len() && #[trigger] rs[j] == lo ==> runs_total(rs) + 1 <= rs.len() * (lo
                + 1),
        forall|j: int| 0 <= j < rs.len() && #[trigger] rs[j] == lo + 1 ==> rs.len() * lo + 1 <= runs_total(rs),
    decreases rs.len(),
{
    if rs.len() > 0 {
        let p = rs.drop_last();
        assert(runs_near(p, lo)) by {
            assert forall|i: int| 0 <= i < p.len() implies #[trigger] p[i] == lo || p[i] == lo + 1 by {
                assert(p[i] == rs[i]);
            }
        }
        lemma_runs_counts(p, lo);
        let v = rs.last();
        assert(v == rs[rs.len() - 1]);
        lemma_run_counts(v);
        lemma_count_pulses_append(runs_text(p), pulse_run(v));
        let n = p.len();
        assert(rs.len() * lo == n * lo + lo) by (nonlinear_arith)
            requires
                rs.len() == n + 1,
        ;
        assert(rs.len() * (lo + 1) == n * (lo + 1) + lo + 1) by (nonlinear_arith)
            requires
                rs.len() == n + 1,
        ;
        assert forall|j: int| 0 <= j < rs.len() && #[trigger] rs[j] == lo implies runs_total(rs) + 1
            <= rs.len() * (lo + 1) by {
            if j < n {
                assert(p[j] == rs[j]);
            }
        }
        assert forall|j: int| 0 <= j < rs.len() && #[trigger] rs[j] == lo + 1 implies rs.len() * lo
            + 1 <= runs_total(rs) by {
            if j < n {
                assert(p[j] == rs[j]);
            }
        }
    }
}

/// Euclidean rhythms spread their pulses evenly: the rhythm is `pulses` runs, each a pulse
/// followed by rests, and every run is `len / pulses` steps long, rounded down or up. (The
/// rhythm read from another offset is the same rhythm rotated, see `lemma_euclidean_rhythm`.)
pub proof fn lemma_euclid_even_spacing(pulses: nat, len: nat)
    requires
        0 < pulses <= len,
    ensures
        exists|runs: Seq<nat>|
            {
                &&& runs.len() == pulses
                &&& euclid_pattern(pulses, len) == runs_text(runs)
                &&& forall|i: int|
                    0 <= i < runs.len() ==> #[trigger] runs[i] == len / pulses || runs[i] == (len
                        + pulses - 1) as nat / pulses
            },
{
    let b = (len - pulses) as nat;
    assert(seq![true] =~= pulse_run(1));
    let res = lemma_bjorklund_first_runs(0, pulses, b);
    let lo = res.2;
    let r = bjorklund(seq![true], seq![false], pulses, b, len - pulses);
    assert(r == bjorklund(pulse_run(1), seq![false], pulses, b, b as int));
    lemma_concat_groups_append(groups_of(r.0, r.2), groups_of(r.1, r.3));
    lemma_repeat_runs(res.0, r.2, lo);
    let tail = repeat_runs(res.1, r.3);
    if r.3 > 0 {
        lemma_repeat_runs(res.1, r.3, lo);
    } else {
        assert(groups_of(r.1, r.3) =~= Seq::<Seq<bool>>::empty());
        assert(tail =~= Seq::<nat>::empty());
        assert(runs_near(tail, lo));
    }
    let runs = repeat_runs(res.0, r.2) + tail;
    lemma_runs_text_append(repeat_runs(res.0, r.2), tail);
    lemma_runs_near_append(repeat_runs(res.0, r.2), tail, lo);
    assert(euclid_pattern(pulses, len) == runs_text(runs));
    lemma_euclid_pattern(pulses, len);
    lemma_runs_counts(runs, lo);
    let p = pulses as int;
    let l = len as int;
    assert forall|i: int| 0 <= i < runs.len() implies #[trigger] runs[i] == len / pulses || runs[i]
        == (len + pulses - 1) as nat / pulses by {
        if runs[i] == lo {
            assert(l / p == lo) by (nonlinear_arith)
                requires
                    p > 0,
                    p * lo <= l,
                    l + 1 <= p * (lo + 1),
            ;
        } else {
            assert((l + p - 1) / p == lo + 1) by (nonlinear_arith)
                requires
                    p > 0,
                    p * lo + 1 <= l,
                    l <= p * (lo + 1),
            ;
        }
    }
}

/// The runs before run `j` make up `runs_total(rs.take(j))` steps, and one more run adds its
/// length.
proof fn lemma_runs_total_take(rs: Seq<nat>, j: int)
    requires
        0 <= j < rs.len(),
    ensures
        runs_total(rs.take(j + 1)) == runs_total(rs.take(j)) + rs[j],
{
    assert(rs.take(j + 1).drop_last() =~= rs.take(j));
}

/// Run `j` starts at the total length of the runs before it: its first step is a pulse and its
/// other steps are rests.
proof fn lemma_runs_index(rs: Seq<nat>, lo: nat, j: int, t: int)
    requires
        runs_near(rs, lo),
        lo >= 1,
        0 <= j < rs.len(),
        0 <= t < rs[j],
    ensures
        runs_total(rs.take(j)) + t < runs_total(rs),
        runs_text(rs)[runs_total(rs.take(j)) + t] == (t == 0),
    decreases rs.len(),
{
    let p = rs.drop_last();
    assert(runs_near(p, lo)) by {
        assert forall|i: int| 0 <= i < p.len() implies #[trigger] p[i] == lo || p[i] == lo + 1 by {
            assert(p[i] == rs[i]);
        }
    }
    lemma_runs_counts(p, lo);
    let v = rs.last();
    lemma_run_counts(v);
    if j < rs.len() - 1 {
        assert(p[j] == rs[j]);
        lemma_runs_index(p, lo, j, t);
        assert(rs.take(j) =~= p.take(j));
    } else {
        assert(rs.take(j) =~= p);
    }
}

/// Every step of runs lies in one run.
proof fn lemma_runs_locate(rs: Seq<nat>, lo: nat, k: int) -> (jt: (int, int))
    requires
        runs_near(rs, lo),
        lo >= 1,
        0 <= k < runs_total(rs),
    ensures
        0 <= jt.0 < rs.len(),
        0 <= jt.1 < rs[jt.0],
        k == runs_total(rs.take(jt.0)) + jt.1,
    decreases rs.len(),
{
    let p = rs.drop_last();
    assert(runs_near(p, lo)) by {
        assert forall|i: int| 0 <= i < p.len() implies #[trigger] p[i] == lo || p[i] == lo + 1 by {
            assert(p[i] == rs[i]);
        }
    }
    if k < runs_total(p) {
        let jt = lemma_runs_locate(p, lo, k);
        assert(rs.take(jt.0) =~= p.take(jt.0));
        assert(p[jt.0] == rs[jt.0]);
        jt
    } else {
        assert(rs.take(rs.len() - 1) =~= p);
        (rs.len() - 1, k - runs_total(p))
    }
}

/// In runs of `a` or `b` steps (`b` at most `a + 1`), read round and round, the next pulse after
/// each pulse comes `a` or `b` steps later.
proof fn lemma_runs_gaps(rs: Seq<nat>, a: nat, b: nat)
    requires
        forall|i: int| 0 <= i < rs.len() ==> #[trigger] rs[i] == a || rs[i] == b,
        1 <= a <= b <= a + 1,
        rs.len() > 0,
    ensures
        ({
            let s = runs_text(rs);
            let n = s.len() as int;
            &&& n == runs_total(rs)
            &&& forall|k: int, e: int|
                0 <= k < n && s[k] && 0 < e < a ==> !#[trigger] s[(k + e) % n]
            &&& forall|k: int| 0 <= k < n && #[trigger] s[k] ==> s[(k + a) % n] || s[(k + b) % n]
        }),
{
    let lo = a;
    assert(runs_near(rs, lo)) by {
        assert forall|i: int| 0 <= i < rs.len() implies #[trigger] rs[i] == lo || rs[i] == lo + 1 by {
            if rs[i] == b && b != a {
                assert(b == a + 1);
            }
        }
    }
    lemma_runs_counts(rs, lo);
    let s = runs_text(rs);
    let n = s.len() as int;
    assert forall|k: int, e: int| 0 <= k < n && s[k] && 0 < e < a implies !#[trigger] s[(k + e) % n] by {
        let jt = lemma_runs_locate(rs, lo, k);
        lemma_runs_index(rs, lo, jt.0, jt.1);
        assert(jt.1 == 0);
        lemma_runs_index(rs, lo, jt.0, e);
        vstd::arithmetic::div_mod::lemma_small_mod((k + e) as nat, n as nat);
    }
    assert forall|k: int| 0 <= k < n && #[trigger] s[k] implies s[(k + a) % n] || s[(k + b) % n] by {
        let (j, t) = lemma_runs_locate(rs, lo, k);
        lemma_runs_index(rs, lo, j, t);
        assert(t == 0);
        let g = rs[j] as int;
        lemma_runs_total_take(rs, j);
        if j + 1 < rs.len() {
            lemma_runs_index(rs, lo, j + 1, 0);
            vstd::arithmetic::div_mod::lemma_small_mod((k + g) as nat, n as nat);
            assert(s[(k + g) % n]);
        } else {
            assert(rs.take(j + 1) =~= rs);
            assert(k + g == n);
            vstd::arithmetic::div_mod::lemma_mod_self_0(n);
            lemma_runs_index(rs, lo, 0, 0);
            assert(rs.take(0) =~= Seq::<nat>::empty());
            assert(s[(k + g) % n]);
        }
    }
}

/// Reading from step `offset`, `e` steps after step `i` is `e` steps after where step `i` reads.
proof fn lemma_rotate_index(i: int, e: int, offset: int, n: int)
    requires
        n > 0,
    ensures
        ((i + e) % n + offset) % n == ((i + offset) % n + e) % n,
{
    vstd::arithmetic::div_mod::lemma_add_mod_noop_right(offset, i + e, n);
    vstd::arithmetic::div_mod::lemma_add_mod_noop_right(e, i + offset, n);
    assert(offset + (i + e) == e + (i + offset));
    assert((i + e) % n + offset == offset + (i + e) % n);
    assert((i + offset) % n + e == e + (i + offset) % n);
}

/// The pulses of a Euclidean rhythm, read from any offset, are spread as evenly as possible:
/// reading round and round, the next pulse after each pulse comes `len / pulses` steps later,
/// rounded down or up.
pub proof fn lemma_euclid_even_gaps(pulses: nat, len: nat, offset: nat)
    requires
        0 < pulses <= len,
        offset < len,
    ensures
        ({
            let r = euclidean_rhythm(pulses, len, offset);
            let lo = (len / pulses) as int;
            let hi = ((len + pulses - 1) as nat / pulses) as int;
            &&& forall|i: int, e: int|
                0 <= i < len && r[i] && 0 < e < lo ==> !#[trigger] r[(i + e) % (len as int)]
            &&& forall|i: int|
                0 <= i < len && #[trigger] r[i] ==> r[(i + lo) % (len as int)] || r[(i + hi) % (
                len as int)]
        }),
{
    lemma_euclid_even_spacing(pulses, len);
    let runs = choose|runs: Seq<nat>|
        {
            &&& runs.len() == pulses
            &&& euclid_pattern(pulses, len) == runs_text(runs)
            &&& forall|i: int|
                0 <= i < runs.len() ==> #[trigger] runs[i] == len / pulses || runs[i] == (len
                    + pulses - 1) as nat / pulses
        };
    let a = len / pulses;
    let b = (len + pulses - 1) as nat / pulses;
    let p = pulses as int;
    let l = len as int;
    assert(1 <= a <= b <= a + 1) by (nonlinear_arith)
        requires
            0 < p <= l,
            a == l / p,
            b == (l + p - 1) / p,
    ;
    lemma_runs_gaps(runs, a, b);
    lemma_euclid_pattern(pulses, len);
    let pat = euclid_pattern(pulses, len);
    let r = euclidean_rhythm(pulses, len, offset);
    assert forall|i: int, e: int| 0 <= i < len && r[i] && 0 < e < a implies !#[trigger] r[(i + e)
        % l] by {
        let q = (i + offset) % l;
        lemma_rotate_index(i, e, offset as int, l);
        assert(pat[q]);
        assert(!pat[(q + e) % l]);
    }
    assert forall|i: int| 0 <= i < len && #[trigger] r[i] implies r[(i + a) % l] || r[(i + b) % l] by {
        let q = (i + offset) % l;
        lemma_rotate_index(i, a as int, offset as int, l);
        lemma_rotate_index(i, b as int, offset as int, l);
        assert(pat[q]);
        assert(pat[(q + a) % l] || pat[(q + b) % l]);
    }
}

/// Copies a rhythm group.
fn copy_group(g: &Vec<bool>) -> (r: Vec<bool>)
    ensures
        r@ == g@,
{
    let mut r: Vec<bool> = Vec::new();
    let mut i: usize = 0;
    while i < g.len()
        invariant
            i <= g@.len(),
            r@ == g@.take(i as int),
        decreases g@.len() - i,
    {
        r.push(g[i]);
        i = i + 1;
        assert(r@ =~= g@.take(i as int));
    }
    assert(g@.take(i as int) =~= g@);
    r
}

/// The contents of a list of groups.
pub open spec fn group_views(s: Seq<Vec<bool>>) -> Seq<Seq<bool>> {
    s.map_values(|g: Vec<bool>| g@)
}

/// Compute the Euclidean Sequence with `pulses`, for the given `len` and `offset`. Also see:
/// https://cgm.cs.mcgill.ca/~godfried/publications/banff.pdf
pub fn euclidean_sequence(pulses: u32, len: u32, offset: u32) -> (r: Vec<bool>)
    requires
        euclid_args_valid(pulses, len, offset),
    ensures
        r@ == euclidean_rhythm(pulses as nat, len as nat, offset as nat),
{
    let mut sequence: Vec<Vec<bool>> = Vec::new();
    let mut i: u32 = 0;
    while i < len
        invariant
            i <= len,
            pulses <= len,
            sequence@.len() == i,
            forall|j: int| 0 <= j < i ==> (#[trigger] sequence@[j])@ == (if j < pulses {
                seq![true]
            } else {
                seq![false]
            }),
        decreases len - i,
    {
        if i < pulses {
            sequence.push(vec![true]);
        } else {
            sequence.push(vec![false]);
        }
        i = i + 1;
    }
    let mut d: i64 = (len - pulses) as i64;
    let mut n: i64 = if (pulses as i64) > d {
        pulses as i64
    } else {
        d
    };
    let mut k: i64 = if (pulses as i64) < d {
        pulses as i64
    } else {
        d
    };
    let mut z: i64 = d;
    let ghost mut x: Seq<bool> = seq![true];
    let ghost mut y: Seq<bool> = seq![false];
    let ghost mut a: nat = pulses as nat;
    let ghost mut b: nat = (len - pulses) as nat;
    let ghost target = bjorklund(
        seq![true],
        seq![false],
        pulses as nat,
        (len - pulses) as nat,
        len - pulses,
    );
    // Pairing stops once no groups of the smaller kind are left: with no pulses the steps are
    // all rests from the start.
    while k >= 1 && (z > 0 || k > 1)
        invariant
            sequence@.len() == a + b,
            a + b <= len,
            forall|j: int| 0 <= j < a ==> (#[trigger] sequence@[j])@ == x,
            forall|j: int| a <= j < a + b ==> (#[trigger] sequence@[j])@ == y,
            n == (if a >= b {
                a as int
            } else {
                b as int
            }),
            k == min_int(a as int, b as int),
            z == a + b - pulses,
            z <= n,
            pulses <= len,
            bjorklund(x, y, a, b, z as int) == target,
        decreases a + b,
    {
        let len_now = sequence.len();
        let mut i: usize = 0;
        while i < k as usize
            invariant
                len_now == sequence@.len(),
                len_now == a + b,
                1 <= k,
                k == min_int(a as int, b as int),
                i <= k,
                forall|j: int| 0 <= j < i ==> (#[trigger] sequence@[j])@ == x + y,
                forall|j: int| i <= j < a ==> (#[trigger] sequence@[j])@ == x,
                forall|j: int| a <= j < a + b ==> (#[trigger] sequence@[j])@ == y,
            decreases k - i,
        {
            let tail = len_now - 1 - i;
            let mut extension = copy_group(&sequence[tail]);
            let mut group = copy_group(&sequence[i]);
            group.append(&mut extension);
            sequence.set(i, group);
            i = i + 1;
        }
        sequence.truncate(len_now - (k as usize));
        proof {
            let ox = x;
            let oy = y;
            x = ox + oy;
            if a >= b {
                let nb = (a - b) as nat;
                y = ox;
                a = b;
                b = nb;
            } else {
                b = (b - a) as nat;
            }
        }
        z = z - k;
        d = n - k;
        n = if k > d {
            k
        } else {
            d
        };
        k = if k < d {
            k
        } else {
            d
        };
    }
    let ghost groups = groups_of(x, a) + groups_of(y, b);
    assert(group_views(sequence@) =~= groups);
    proof {
        lemma_euclid_pattern(pulses as nat, len as nat);
    }
    assert(concat_groups(groups) == euclid_pattern(pulses as nat, len as nat));
    // Lay the groups end to end.
    let mut flat: Vec<bool> = Vec::new();
    let mut gi: usize = 0;
    while gi < sequence.len()
        invariant
            gi <= sequence@.len(),
            flat@ == concat_groups(group_views(sequence@).take(gi as int)),
        decreases sequence@.len() - gi,
    {
        let g = &sequence[gi];
        let ghost before = flat@;
        let mut j: usize = 0;
        while j < g.len()
            invariant
                j <= g@.len(),
                flat@ == before + g@.take(j as int),
            decreases g@.len() - j,
        {
            flat.push(g[j]);
            j = j + 1;
            assert(flat@ =~= before + g@.take(j as int));
        }
        assert(group_views(sequence@).take(gi + 1).drop_last() =~= group_views(sequence@).take(
            gi as int,
        ));
        assert(g@.take(j as int) =~= g@);
        gi = gi + 1;
    }
    assert(group_views(sequence@).take(gi as int) =~= group_views(sequence@));
    assert(flat@ == euclid_pattern(pulses as nat, len as nat));
    // Rotate to start at `offset`.
    let mut out: Vec<bool> = Vec::new();
    let mut i: u32 = 0;
    while i < len
        invariant
            i <= len,
            flat@.len() == len,
            len > 0 ==> offset < len,
            out@ =~= Seq::new(i as nat, |t: int| flat@[(t + offset) % (len as int)]),
        decreases len - i,
    {
        let idx = ((i as u64 + offset as u64) % (len as u64)) as usize;
        out.push(flat[idx]);
        i = i + 1;
    }
    out
}


// === Clocks =================================================================================

/// The number of sequencer ticks that a duration lasts at `ppqn` pulses per quarter note; a
/// duration that begins a note has no end, and one that ends a note lasts no time.
pub open spec fn duration_ticks(ppqn: u32, d: Duration) -> Option<u64> {
    match d {
        Duration::Ticks(t) => Some(t),
        Duration::Beats(beats, per_bar) => Some(((beats * 4 * ppqn) / (per_bar as int)) as u64),
        Duration::Begin => None,
        Duration::End => Some(0),
    }
}

/// Durations whose tick count can be computed: a bar of beats is not divided into zero parts and
/// the beats do not overflow.
pub open spec fn duration_ticks_defined(ppqn: u32, d: Duration) -> bool {
    d matches Duration::Beats(beats, per_bar) ==> (per_bar != 0 && beats * 4 * ppqn <= u64::MAX)
}

/// The elapsed time in beats of a `per_bar` bar after `tick` ticks at `ppqn` pulses per quarter
/// note, the beat count kept to 32 bits.
pub open spec fn elapsed_beats(tick: u64, ppqn: u32, per_bar: u32) -> Duration {
    Duration::Beats(((((tick * per_bar) / (ppqn * 4)) as int) % 0x1_0000_0000) as u64, per_bar as u64)
}

/// Counting the ticks of `beats` beats of a `per_bar` bar and reading them back as elapsed time
/// gives the beats back, when they fill a whole number of ticks and the beat count fits the 32
/// bits it is kept to.
pub proof fn lemma_elapsed_beats_round_trip(ppqn: u32, beats: u64, per_bar: u32)
    requires
        ppqn > 0,
        per_bar > 0,
        duration_ticks_defined(ppqn, Duration::Beats(beats, per_bar as u64)),
        (beats * 4 * ppqn) % (per_bar as int) == 0,
        beats <= u32::MAX,
    ensures
        duration_ticks(ppqn, Duration::Beats(beats, per_bar as u64)) matches Some(t)
            && elapsed_beats(t, ppqn, per_bar) == Duration::Beats(beats, per_bar as u64),
{
    let x: int = beats * 4 * ppqn;
    let m: int = per_bar as int;
    let q: int = ppqn * 4;
    vstd::arithmetic::div_mod::lemma_fundamental_div_mod(x, m);
    assert(0 <= x / m <= x) by (nonlinear_arith)
        requires
            x >= 0,
            m >= 1,
    ;
    let t: int = x / m;
    assert(t * m == x);
    assert(x == beats * q) by (nonlinear_arith)
        requires
            x == beats * 4 * ppqn,
            q == ppqn * 4,
    ;
    assert((t * m) / q == beats) by (nonlinear_arith)
        requires
            t * m == x,
            x == beats * q,
            q > 0,
    ;
    vstd::arithmetic::div_mod::lemma_small_mod(beats as nat, 0x1_0000_0000);
    let tt: u64 = t as u64;
    assert(tt as int == t);
    assert(duration_ticks(ppqn, Duration::Beats(beats, per_bar as u64)) == Some(tt));
    assert(tt * per_bar == t * m);
}

/// The tick counter and resolution shared by all clocks.
pub struct TickClockBase {
    /// The current tick.
    tick: u64,
    /// Desired MIDI PPQN.
    ppqn: u32,
}

impl TickClockBase {
    /// The current tick.
    pub closed spec fn tick_count(self) -> u64 {
        self.tick
    }

    /// The configured pulses (ticks) per quarter note.
    pub closed spec fn pulses_per_qn(self) -> u32 {
        self.ppqn
    }

    fn tick_count_exec(&self) -> (r: u64)
        ensures
            r == self.tick_count(),
    {
        self.tick
    }

    fn ppqn_exec(&self) -> (r: u32)
        ensures
            r == self.pulses_per_qn(),
    {
        self.ppqn
    }

    /// The resolution is a positive multiple of the MIDI clock rate.
    #[verifier::type_invariant]
    closed spec fn valid_resolution(self) -> bool {
        self.ppqn >= CLOCKS_PER_QN && self.ppqn % CLOCKS_PER_QN == 0
    }

    pub fn new(ppqn: u32) -> (r: Self)
        requires
            ppqn >= CLOCKS_PER_QN,
            ppqn % CLOCKS_PER_QN == 0,
        ensures
            r.tick_count() == 0,
            r.pulses_per_qn() == ppqn,
    {
        TickClockBase { tick: 0, ppqn }
    }

    /// Reset all internal state to the initial tick.
    fn reset(&mut self)
        ensures
            final(self).tick_count() == 0,
            final(self).pulses_per_qn() == old(self).pulses_per_qn(),
    {
        proof {
            use_type_invariant(&*self);
        }
        self.tick = 0;
    }

    /// Fast-forwards ticks without real time synchronization.
    fn forward_tick(&mut self, ticks: u64)
        requires
            old(self).tick_count() + ticks <= u64::MAX,
        ensures
            final(self).tick_count() == old(self).tick_count() + ticks,
            final(self).pulses_per_qn() == old(self).pulses_per_qn(),
    {
        proof {
            use_type_invariant(&*self);
        }
        self.tick = self.tick + ticks;
    }

    /// Convert a duration into MIDI sequencer ticks based on the clock's configuration.
    fn get_ticks(&self, duration: &Duration) -> (r: Option<u64>)
        requires
            duration_ticks_defined(self.pulses_per_qn(), *duration),
        ensures
            r == duration_ticks(self.pulses_per_qn(), *duration),
            self.pulses_per_qn() >= 24,
            self.pulses_per_qn() % 24 == 0,
    {
        proof {
            use_type_invariant(self);
        }
        match *duration {
            Duration::Ticks(ticks) => Some(ticks),
            Duration::Beats(beats, beats_per_bar) => {
                proof {
                    use_type_invariant(self);
                    let p = self.ppqn;
                    assert(beats * 4 <= beats * 4 * p) by (nonlinear_arith)
                        requires
                            p >= 1,
                    ;
                }
                Some((beats * 4 * (self.ppqn as u64)) / beats_per_bar)
            },
            Duration::Begin => None,
            Duration::End => Some(0),
        }
    }

    /// Return the current elapsed time in beats.
    fn elapsed(&self, beats_per_bar: u32) -> (r: Duration)
        requires
            self.tick_count() * beats_per_bar <= u64::MAX,
            self.pulses_per_qn() * 4 <= u32::MAX,
        ensures
            r == elapsed_beats(self.tick_count(), self.pulses_per_qn(), beats_per_bar),
    {
        proof {
            use_type_invariant(self);
        }
        let q: u64 = (self.tick * beats_per_bar as u64) / (self.ppqn * 4) as u64;
        let on_beat = #[verifier::truncate] (q as u32);
        assert(on_beat as int == q % 0x1_0000_0000) by (bit_vector)
            requires
                on_beat == q as u32,
        ;
        Duration::Beats(on_beat as u64, beats_per_bar as u64)
    }
}

impl Default for TickClockBase {
    fn default() -> (r: Self)
        ensures
            r.tick_count() == 0,
            r.pulses_per_qn() == 48,
    {
        TickClockBase { tick: 0, ppqn: 48 }
    }
}

/// A source of sequencer ticks.
pub trait TickClock {
    /// The tick counter and resolution of this clock.
    spec fn base_view(&self) -> TickClockBase;

    /// Whether `n` more ticks can be awaited.
    spec fn await_ready(&self, n: nat) -> bool;

    /// A clock that can await `n` more ticks can await fewer.
    proof fn lemma_await_fewer(&self, n: nat, m: nat)
        requires
            self.await_ready(n),
            m <= n,
        ensures
            self.await_ready(m),
    ;

    /// Base state.
    fn base(&self) -> (r: &TickClockBase)
        ensures
            *r == self.base_view(),
    ;

    /// Mutable base state.
    fn base_mut(&mut self) -> (r: &mut TickClockBase)
        ensures
            *r == old(self).base_view(),
            final(self).base_view() == *final(r),
    ;

    /// Return the current tick.
    fn tick(&self) -> (r: u64)
        ensures
            r == self.base_view().tick_count(),
    {
        self.base().tick
    }

    /// Return the configured PPQN.
    fn ppqn(&self) -> (r: u32)
        ensures
            r == self.base_view().pulses_per_qn(),
            r >= 24,
            r % 24 == 0,
    {
        let b = self.base();
        proof {
            use_type_invariant(b);
        }
        b.ppqn
    }

    /// Reset all internal state to the initial tick.
    fn reset(&mut self)
        ensures
            final(self).base_view().tick_count() == 0,
            final(self).base_view().pulses_per_qn() == old(self).base_view().pulses_per_qn(),
    {
        self.base_mut().reset()
    }

    /// Fast-forwards ticks without real time synchronization.
    fn forward_tick(&mut self, ticks: u64)
        requires
            old(self).base_view().tick_count() + ticks <= u64::MAX,
        ensures
            final(self).base_view().tick_count() == old(self).base_view().tick_count() + ticks,
            final(self).base_view().pulses_per_qn() == old(self).base_view().pulses_per_qn(),
    {
        self.base_mut().forward_tick(ticks)
    }

    /// Convert a duration into MIDI sequencer ticks based on the clock's configuration.
    fn get_ticks(&self, duration: &Duration) -> (r: Option<u64>)
        requires
            duration_ticks_defined(self.base_view().pulses_per_qn(), *duration),
        ensures
            r == duration_ticks(self.base_view().pulses_per_qn(), *duration),
            self.base_view().pulses_per_qn() >= 24,
            self.base_view().pulses_per_qn() % 24 == 0,
    {
        self.base().get_ticks(duration)
    }

    /// Whether `n` more ticks can be awaited.
    fn can_await(&self, n: u64) -> (r: bool)
        ensures
            r == self.await_ready(n as nat),
    ;

    /// Waits for the next tick and advances to it. Returns the duration of a tick and the drift
    /// from the targeted sync point, in nanoseconds.
    fn await_tick(&mut self) -> (r: (u64, u64))
        requires
            old(self).await_ready(1),
        ensures
            final(self).base_view().tick_count() == old(self).base_view().tick_count() + 1,
            final(self).base_view().pulses_per_qn() == old(self).base_view().pulses_per_qn(),
            forall|n: nat| old(self).await_ready(n + 1) ==> #[trigger] final(self).await_ready(n),
    ;

    /// Return the current elapsed time in beats, and in nanoseconds of real time.
    fn elapsed(&self, beats_per_bar: u32) -> (r: (Duration, u64))
        requires
            self.base_view().tick_count() * beats_per_bar <= u64::MAX,
            self.base_view().pulses_per_qn() * 4 <= u32::MAX,
        ensures
            r.0 == elapsed_beats(
                self.base_view().tick_count(),
                self.base_view().pulses_per_qn(),
                beats_per_bar,
            ),
    ;
}

/// Not a real clock: awaiting a tick does not wait.
pub struct DummyClock {
    base: TickClockBase,
}

impl Default for DummyClock {
    fn default() -> (r: Self)
        ensures
            r.base_view().tick_count() == 0,
            r.base_view().pulses_per_qn() == 48,
    {
        DummyClock { base: TickClockBase::default() }
    }
}

impl TickClock for DummyClock {
    closed spec fn base_view(&self) -> TickClockBase {
        self.base
    }

    closed spec fn await_ready(&self, n: nat) -> bool {
        self.base.tick_count() + n <= u64::MAX
    }

    proof fn lemma_await_fewer(&self, n: nat, m: nat) {
    }

    fn base(&self) -> (r: &TickClockBase) {
        &self.base
    }

    fn base_mut(&mut self) -> (r: &mut TickClockBase) {
        &mut self.base
    }

    fn can_await(&self, n: u64) -> (r: bool) {
        n <= u64::MAX - self.base.tick_count_exec()
    }

    fn await_tick(&mut self) -> (r: (u64, u64))
        ensures
            r == (0u64, 0u64),
    {
        self.forward_tick(1);
        (0, 0)
    }

    fn elapsed(&self, beats_per_bar: u32) -> (r: (Duration, u64))
        ensures
            r.1 == 0,
    {
        (self.base.elapsed(beats_per_bar), 0)
    }
}

#[verifier::external_type_specification]
#[verifier::external_body]
pub struct ExInstant(std::time::Instant);

/// The current instant of the monotonic clock (std's `Instant::now`); nothing is stated of it.
#[verifier::external_body]
fn instant_now() -> std::time::Instant {
    std::time::Instant::now()
}

/// The time passed since `start` (std's `Instant::elapsed`); nothing is stated of it.
#[verifier::external_body]
fn instant_elapsed(start: &std::time::Instant) -> core::time::Duration {
    start.elapsed()
}

/// The whole nanoseconds of a time span (std's `Duration::as_nanos`); nothing is stated of it.
#[verifier::external_body]
fn duration_as_nanos(d: &core::time::Duration) -> u128 {
    d.as_nanos()
}

/// Nanoseconds in a minute.
pub const NANOS_PER_MINUTE: u64 = 60_000_000_000;

/// The duration of one tick in nanoseconds at `bpm` quarter notes per minute.
pub open spec fn tick_period_nanos(bpm: u32, ppqn: u32) -> u64 {
    (NANOS_PER_MINUTE / ((bpm * ppqn) as u64)) as u64
}

/// Synchronizes ticks to desired BPM using the OS system clock.
pub struct SystemClock {
    base: TickClockBase,
    /// Desired BPM.
    pub bpm: u32,
    /// The time we started playing.
    start_time: std::time::Instant,
}

impl Default for SystemClock {
    fn default() -> (r: Self)
        ensures
            r.base_view().tick_count() == 0,
            r.base_view().pulses_per_qn() == 48,
            r.tempo() == 120,
    {
        SystemClock { base: TickClockBase::default(), bpm: 120, start_time: instant_now() }
    }
}

impl SystemClock {
    /// The desired tempo in quarter notes per minute.
    pub closed spec fn tempo(&self) -> u32 {
        self.bpm
    }

    /// MIDI BPM is quarter notes per minute; PPQN is pulses per quarter note.
    pub fn new(bpm: u32, ppqn: u32) -> (r: Self)
        requires
            bpm > 0,
            ppqn >= CLOCKS_PER_QN,
            ppqn % CLOCKS_PER_QN == 0,
        ensures
            r.base_view().tick_count() == 0,
            r.base_view().pulses_per_qn() == ppqn,
            r.tempo() == bpm,
    {
        SystemClock { base: TickClockBase::new(ppqn), bpm, start_time: instant_now() }
    }

    /// Nanoseconds passed since the clock started playing.
    fn nanos_since_start(&self) -> u128 {
        let d = instant_elapsed(&self.start_time);
        duration_as_nanos(&d)
    }
}

impl TickClock for SystemClock {
    closed spec fn base_view(&self) -> TickClockBase {
        self.base
    }

    closed spec fn await_ready(&self, n: nat) -> bool {
        &&& self.base.tick_count() + n <= u64::MAX
        &&& 0 < self.bpm * self.base.pulses_per_qn() <= u32::MAX
    }

    proof fn lemma_await_fewer(&self, n: nat, m: nat) {
    }

    fn base(&self) -> (r: &TickClockBase) {
        &self.base
    }

    fn base_mut(&mut self) -> (r: &mut TickClockBase) {
        &mut self.base
    }

    fn can_await(&self, n: u64) -> (r: bool) {
        let ppqn = self.base.ppqn_exec();
        let ticks_per_minute = (self.bpm as u64).checked_mul(ppqn as u64);
        n <= u64::MAX - self.base.tick_count_exec() && match ticks_per_minute {
            Some(t) => 0 < t && t <= u32::MAX as u64,
            None => false,
        }
    }

    /// Waits by polling the monotonic clock until the sync point of the current tick has passed;
    /// the first tick starts the clock.
    fn await_tick(&mut self) -> (r: (u64, u64))
        ensures
            r.0 == tick_period_nanos(old(self).tempo(), old(self).base_view().pulses_per_qn()),
            old(self).base_view().tick_count() == 0 ==> r.1 == 0,
            final(self).tempo() == old(self).tempo(),
    {
        let ticks_per_minute = self.bpm * self.ppqn();
        let duration_per_tick: u64 = NANOS_PER_MINUTE / (ticks_per_minute as u64);
        let drift: u64 = if self.tick() == 0 {
            self.start_time = instant_now();
            0
        } else {
            let tick_low = #[verifier::truncate] (self.tick() as u32);
            assert((duration_per_tick as u128) * (tick_low as u128) <= u128::MAX) by (nonlinear_arith)
                requires
                    duration_per_tick <= NANOS_PER_MINUTE,
            ;
            let sync_elapsed: u128 = (duration_per_tick as u128) * (tick_low as u128);
            let mut elapsed = self.nanos_since_start();
            let mut polls: u64 = 0;
            while elapsed < sync_elapsed && polls < u64::MAX
                decreases u64::MAX - polls,
            {
                elapsed = self.nanos_since_start();
                polls = polls + 1;
            }
            if elapsed < sync_elapsed {
                0
            } else if elapsed - sync_elapsed > u64::MAX as u128 {
                u64::MAX
            } else {
                (elapsed - sync_elapsed) as u64
            }
        };
        self.base.forward_tick(1);
        assert forall|n: nat| old(self).await_ready(n + 1) implies #[trigger] self.await_ready(n) by {}
        (duration_per_tick, drift)
    }

    /// Before the first tick no time has passed; after it, the time since the clock started
    /// (capped at `u64::MAX` nanoseconds).
    fn elapsed(&self, beats_per_bar: u32) -> (r: (Duration, u64))
        ensures
            self.base_view().tick_count() == 0 ==> r.1 == 0,
    {
        let beats = self.base.elapsed(beats_per_bar);
        if self.base.tick == 0 {
            (beats, 0)
        } else {
            let nanos = self.nanos_since_start();
            (beats, if nanos > u64::MAX as u128 {
                u64::MAX
            } else {
                nanos as u64
            })
        }
    }
}


// === Sequencer ==============================================================================

/// The slot of a (channel, note) pair in the table of allocated notes.
pub open spec fn note_slot(chan: u8, note: u8) -> u16 {
    (chan * 256 + note) as u16
}

/// The channel of an allocated-note slot.
pub open spec fn slot_chan(slot: u16) -> u8 {
    (slot / 256) as u8
}

/// The note of an allocated-note slot.
pub open spec fn slot_note(slot: u16) -> u8 {
    (slot % 256) as u8
}

/// The channel that messages for `chan` are sent on.
pub open spec fn route(chan_map: Map<u8, u8>, chan: u8) -> u8 {
    if chan_map.contains_key(chan) {
        chan_map[chan]
    } else {
        chan
    }
}

/// The bytes queued for `tick`, none if nothing is queued.
pub open spec fn queued_at(queue: Map<u64, Seq<u8>>, tick: u64) -> Seq<u8> {
    if queue.contains_key(tick) {
        queue[tick]
    } else {
        seq![]
    }
}

/// The queue with `bytes` appended to what is queued for `tick`.
pub open spec fn enqueued(queue: Map<u64, Seq<u8>>, tick: u64, bytes: Seq<u8>) -> Map<u64, Seq<u8>> {
    queue.insert(tick, queued_at(queue, tick) + bytes)
}

/// What a sequencer holds.
pub struct SequencerState {
    /// The current tick.
    pub tick: u64,
    /// Whether MIDI clock messages are sent.
    pub send_clock: bool,
    /// The MIDI version messages are encoded for.
    pub midi_ver: u32,
    /// Queued message bytes by tick.
    pub queue: Map<u64, Seq<u8>>,
    /// The tick at which each allocated (channel, note) slot expires; `u64::MAX` for notes that
    /// play until stopped.
    pub allocated: Map<u16, u64>,
    /// Channel routing.
    pub chan_map: Map<u8, u8>,
}

/// An error message as text, or success.
pub open spec fn outcome_text(r: Result<(), String>) -> Result<(), Seq<char>> {
    match r {
        Ok(()) => Ok(()),
        Err(e) => Err(e@),
    }
}

/// The outcome of queueing a note with raw MIDI parameters: the result and the new state.
/// A note that lasts `ticks` (none: until stopped) starts at `begin`; zero ticks only stops it.
pub open spec fn queue_midi_outcome(
    s: SequencerState,
    chan: u8,
    note: u8,
    on_velocity: u8,
    off_velocity: u8,
    begin: u64,
    ticks: Option<u64>,
    skip_allocated: bool,
) -> (Result<(), Seq<char>>, SequencerState) {
    let c = route(s.chan_map, chan);
    let slot = note_slot(c, note);
    if c > 15 {
        (Err("invalid channel: "@ + dec_digits(c as nat)), s)
    } else if note > 127 {
        (Err("invalid note: "@ + dec_digits(note as nat)), s)
    } else if on_velocity > 127 {
        (Err("invalid velocity: "@ + dec_digits(on_velocity as nat)), s)
    } else if off_velocity > 127 {
        (Err("invalid velocity: "@ + dec_digits(off_velocity as nat)), s)
    } else if s.allocated.contains_key(slot) && begin < s.allocated[slot] && ticks
        == Some(0u64) && s.allocated[slot] != u64::MAX {
        (Err("cannot stop limited note: "@ + dec_digits(note as nat)), s)
    } else if s.allocated.contains_key(slot) && begin < s.allocated[slot] && ticks
        != Some(0u64) && skip_allocated {
        (Ok(()), s)
    } else if s.allocated.contains_key(slot) && begin < s.allocated[slot] && ticks
        != Some(0u64) {
        (Err("already allocated note: "@ + dec_digits(note as nat)), s)
    } else {
        let end: u64 = match ticks {
            Some(t) => (begin + t) as u64,
            None => u64::MAX,
        };
        let q1 = if end != begin {
            enqueued(s.queue, begin, midi_bytes(MidiMsg::NoteOn(c, note, on_velocity), s.midi_ver))
        } else {
            s.queue
        };
        let q2 = if end != u64::MAX {
            enqueued(q1, end, midi_bytes(MidiMsg::NoteOff(c, note, off_velocity), s.midi_ver))
        } else {
            q1
        };
        (Ok(()), SequencerState { queue: q2, allocated: s.allocated.insert(slot, end), ..s })
    }
}

/// The number of ticks between two MIDI clock messages: 24 clocks per quarter note.
pub open spec fn clock_period(ppqn: u32) -> u64 {
    ((4 * ppqn) / 96) as u64
}

/// The bytes a sequencer sends on its current tick: a clock message first when one is due, then
/// what is queued for the tick.
pub open spec fn tick_output(s: SequencerState, ppqn: u32) -> Seq<u8> {
    let clock = if s.send_clock && s.tick % clock_period(ppqn) == 0 {
        midi_bytes(MidiMsg::Clock, s.midi_ver)
    } else {
        seq![]
    };
    clock + queued_at(s.queue, s.tick)
}

/// The state after one tick: the tick's queue entry is consumed.
pub open spec fn after_tick(s: SequencerState) -> SequencerState {
    SequencerState { tick: (s.tick + 1) as u64, queue: s.queue.remove(s.tick), ..s }
}

/// Whether the next tick can be taken: the tick counter does not overflow and a due clock
/// message can be encoded.
pub open spec fn tick_ready(s: SequencerState, ppqn: u32) -> bool {
    &&& s.tick < u64::MAX
    &&& s.send_clock && s.tick % clock_period(ppqn) == 0 ==> supported_midi_version(s.midi_ver)
}

/// Whether queueing a note with raw MIDI parameters gets to encoding messages: no error and no
/// skip stops it, and it starts or stops the note at some tick.
pub open spec fn queue_midi_encodes(
    s: SequencerState,
    chan: u8,
    note: u8,
    on_velocity: u8,
    off_velocity: u8,
    begin: u64,
    ticks: Option<u64>,
) -> bool {
    let c = route(s.chan_map, chan);
    let slot = note_slot(c, note);
    &&& c <= 15
    &&& note <= 127
    &&& on_velocity <= 127
    &&& off_velocity <= 127
    &&& !(s.allocated.contains_key(slot) && begin < s.allocated[slot] && (ticks == Some(0u64)
        ==> s.allocated[slot] != u64::MAX))
    &&& !(begin == u64::MAX && (ticks is None || ticks == Some(0u64)))
}

/// The outcome of queueing a typed note for `duration` at the current tick.
pub open spec fn queue_note_outcome(
    s: SequencerState,
    ppqn: u32,
    chan: u8,
    note: Note,
    velocity: Velocity,
    duration: Duration,
) -> (Result<(), Seq<char>>, SequencerState) {
    if !(0 <= note_pitch(note) <= 127) {
        (Err("invalid note: "@ + note_text(note)), s)
    } else {
        let v = velocity_value(velocity);
        let off = if duration == Duration::End {
            v
        } else {
            0
        };
        queue_midi_outcome(
            s,
            chan,
            note_pitch(note) as u8,
            v,
            off,
            s.tick,
            duration_ticks(ppqn, duration),
            false,
        )
    }
}

/// Whether queueing a typed note gets to encoding messages.
pub open spec fn queue_note_encodes(
    s: SequencerState,
    ppqn: u32,
    chan: u8,
    note: Note,
    velocity: Velocity,
    duration: Duration,
) -> bool {
    let v = velocity_value(velocity);
    let off = if duration == Duration::End {
        v
    } else {
        0
    };
    &&& 0 <= note_pitch(note) <= 127
    &&& queue_midi_encodes(
        s,
        chan,
        note_pitch(note) as u8,
        v,
        off,
        s.tick,
        duration_ticks(ppqn, duration),
    )
}

/// Whether a note of `duration` from the current tick can be queued without the tick counter
/// overflowing.
pub open spec fn note_fits(s: SequencerState, ppqn: u32, duration: Duration) -> bool {
    &&& duration_ticks_defined(ppqn, duration)
    &&& duration_ticks(ppqn, duration) matches Some(t) ==> s.tick + t <= u64::MAX
}

/// The outcome of queueing a control change at the current tick.
pub open spec fn queue_control_outcome(s: SequencerState, chan: u8, control: u8, value: u8) -> (
    Result<(), Seq<char>>,
    SequencerState,
) {
    let c = route(s.chan_map, chan);
    if c > 15 {
        (Err("invalid channel: "@ + dec_digits(c as nat)), s)
    } else if control > 127 {
        (Err("invalid control: "@ + dec_digits(control as nat)), s)
    } else if value > 127 {
        (Err("invalid value: "@ + dec_digits(value as nat)), s)
    } else {
        (
            Ok(()),
            SequencerState {
                queue: enqueued(s.queue, s.tick, midi_bytes(MidiMsg::Cc(c, control, value), s.midi_ver)),
                ..s
            },
        )
    }
}

/// The outcome of routing channel `from` to channel `to`.
pub open spec fn chan_map_outcome(s: SequencerState, from: u8, to: u8) -> (
    Result<(), Seq<char>>,
    SequencerState,
) {
    if from > 15 {
        (Err("invalid channel: "@ + dec_digits(from as nat)), s)
    } else if to > 15 {
        (Err("invalid channel: "@ + dec_digits(to as nat)), s)
    } else {
        (Ok(()), SequencerState { chan_map: s.chan_map.insert(from, to), ..s })
    }
}

/// Whether the note allocated in `slot` still sounds at the current tick.
pub open spec fn sounding(s: SequencerState, slot: u16) -> bool {
    s.allocated.contains_key(slot) && s.tick <= s.allocated[slot]
}

/// The slots of the notes that still sound at the current tick.
pub open spec fn sounding_slots(s: SequencerState) -> Set<u16> {
    Set::new(|slot: u16| sounding(s, slot))
}

/// Note-off messages, with velocity 0, for the notes in `slots`, in that order.
pub open spec fn stop_bytes(slots: Seq<u16>, ver: u32) -> Seq<u8>
    decreases slots.len(),
{
    if slots.len() == 0 {
        seq![]
    } else {
        let slot = slots.last();
        stop_bytes(slots.drop_last(), ver) + midi_bytes(
            MidiMsg::NoteOff(slot_chan(slot), slot_note(slot), 0),
            ver,
        )
    }
}

/// The state after stopping: back at tick 0 with nothing queued or allocated.
pub open spec fn stopped(s: SequencerState) -> SequencerState {
    SequencerState { tick: 0, queue: Map::empty(), allocated: Map::empty(), ..s }
}

/// The outcome of queueing the notes of a rhythm from pulse `i` on: each pulse that is set plays
/// the next of `notes` (cycling through them; `played` notes have been played so far) for `unit`
/// ticks from tick `at`, and each pulse, set or not, lasts `unit` ticks. Queueing stops at the
/// first error, keeping what was queued before it.
pub open spec fn sequence_outcome(
    s: SequencerState,
    chan: u8,
    notes: Seq<Note>,
    velocity: u8,
    unit: u64,
    pulses: Seq<bool>,
    i: nat,
    played: nat,
    at: int,
    skip_allocated: bool,
) -> (Result<(), Seq<char>>, SequencerState)
    decreases pulses.len() - i,
{
    if i >= pulses.len() {
        (Ok(()), s)
    } else if pulses[i as int] {
        let note = notes[(played % notes.len()) as int];
        if !(0 <= note_pitch(note) <= 127) {
            (Err("invalid note: "@ + note_text(note)), s)
        } else {
            let (r, s2) = queue_midi_outcome(
                s,
                chan,
                note_pitch(note) as u8,
                velocity,
                0,
                at as u64,
                Some(unit),
                skip_allocated,
            );
            if r is Err {
                (r, s2)
            } else {
                sequence_outcome(
                    s2,
                    chan,
                    notes,
                    velocity,
                    unit,
                    pulses,
                    i + 1,
                    played + 1,
                    at + unit,
                    skip_allocated,
                )
            }
        }
    } else {
        sequence_outcome(
            s,
            chan,
            notes,
            velocity,
            unit,
            pulses,
            i + 1,
            played,
            at + unit,
            skip_allocated,
        )
    }
}

/// Whether queueing the notes of a rhythm from pulse `i` on gets to encoding messages for some
/// pulse (see `sequence_outcome`).
pub open spec fn sequence_encodes(
    s: SequencerState,
    chan: u8,
    notes: Seq<Note>,
    velocity: u8,
    unit: u64,
    pulses: Seq<bool>,
    i: nat,
    played: nat,
    at: int,
    skip_allocated: bool,
) -> bool
    decreases pulses.len() - i,
{
    if i >= pulses.len() {
        false
    } else if pulses[i as int] {
        let note = notes[(played % notes.len()) as int];
        if !(0 <= note_pitch(note) <= 127) {
            false
        } else {
            let p = note_pitch(note) as u8;
            let (r, s2) = queue_midi_outcome(s, chan, p, velocity, 0, at as u64, Some(unit), skip_allocated);
            ||| queue_midi_encodes(s, chan, p, velocity, 0, at as u64, Some(unit))
            ||| (r is Ok && sequence_encodes(
                s2,
                chan,
                notes,
                velocity,
                unit,
                pulses,
                i + 1,
                played + 1,
                at + unit,
                skip_allocated,
            ))
        }
    } else {
        sequence_encodes(
            s,
            chan,
            notes,
            velocity,
            unit,
            pulses,
            i + 1,
            played,
            at + unit,
            skip_allocated,
        )
    }
}

/// The ticks of one pulse of a rhythm.
pub open spec fn unit_ticks(ppqn: u32, unit_duration: Duration) -> u64 {
    duration_ticks(ppqn, unit_duration)->0
}

/// Whether a rhythm of `len` pulses of `unit_duration` can be queued: each pulse lasts a finite,
/// positive number of ticks, and the rhythm ends before the tick counter overflows.
pub open spec fn rhythm_fits(s: SequencerState, ppqn: u32, unit_duration: Duration, len: nat) -> bool {
    &&& duration_ticks_defined(ppqn, unit_duration)
    &&& duration_ticks(ppqn, unit_duration) is Some
    &&& unit_ticks(ppqn, unit_duration) != 0
    &&& s.tick + len * unit_ticks(ppqn, unit_duration) <= u64::MAX
}

/// MIDI sequencer interface.
#[derive(Clone, Debug, PartialEq)]
pub enum SeqCall {
    QueueNote(u8, Note, Velocity, Duration),
    QueueSequence(u8, Vec<Note>, Velocity, Duration, u32, u32, u32),
    QueueControl(u8, u8, u8),
}

/// ClipInst is a single instruction of a Clip. It implements convenient conversions to and from
/// a simple DSL which may be used to store instructions for a clip interpreter.
#[derive(Clone, Debug, PartialEq)]
pub enum ClipInst {
    Tick(Duration),
    Jmp(i32),
    Call(SeqCall),
}

pub type Clip = Vec<ClipInst>;

/// A field that reads as the unsigned number `v`, at most `max`.
pub open spec fn unsigned_field(t: Seq<char>, v: int, max: int) -> bool {
    unsigned_in_range(t, max) && decimal_unsigned(t) == Some(v)
}

/// A comma-separated field whose pieces read as `notes`.
pub open spec fn notes_field(t: Seq<char>, notes: Seq<Note>) -> bool {
    let pieces = split(t, ',');
    &&& pieces.len() == notes.len()
    &&& forall|i: int| 0 <= i < pieces.len() ==> note_from_text(#[trigger] pieces[i]) == Some(notes[i])
}

/// The message for the first of `pieces` that is no note.
pub open spec fn first_note_error(pieces: Seq<Seq<char>>) -> Seq<char>
    decreases pieces.len(),
{
    if pieces.len() == 0 {
        Seq::empty()
    } else if note_from_text(pieces[0]) is None {
        note_error(pieces[0])
    } else {
        first_note_error(pieces.drop_first())
    }
}

/// The message for a comma-separated field of notes that does not read: that of its first piece
/// that is no note.
pub open spec fn notes_error(t: Seq<char>) -> Seq<char> {
    first_note_error(split(t, ','))
}

/// The message for text that is no clip instruction: the arity or unknown-instruction message,
/// or the message of the first argument that does not read, from its own parser.
pub open spec fn clip_error(s: Seq<char>) -> Seq<char> {
    if starts_with(s, seq!['+', ' ']) {
        duration_error(s.skip(2))
    } else if starts_with(s, seq!['j', ' ']) {
        i32_parse_error(s.skip(2))
    } else if s == seq!['n', 'o', 'p'] {
        Seq::empty()
    } else if starts_with(s, seq!['n', ' ']) {
        let p = split(s.skip(2), ' ');
        if p.len() < 4 {
            "'n' requires 4 arguments"@
        } else if !unsigned_in_range(p[0], 255) {
            u8_parse_error(p[0])
        } else if note_from_text(p[1]) is None {
            note_error(p[1])
        } else if velocity_from_text(p[2]) is None {
            "unknown velocity: "@ + p[2]
        } else {
            duration_error(p[3])
        }
    } else if starts_with(s, seq!['s', ' ']) {
        let p = split(s.skip(2), ' ');
        if p.len() < 7 {
            "'s' requires 7 arguments"@
        } else if !unsigned_in_range(p[0], 255) {
            u8_parse_error(p[0])
        } else if !(exists|ns: Seq<Note>| notes_field(p[1], ns)) {
            notes_error(p[1])
        } else if velocity_from_text(p[2]) is None {
            "unknown velocity: "@ + p[2]
        } else if duration_from_text(p[3]) is None {
            duration_error(p[3])
        } else if !unsigned_in_range(p[4], u32::MAX as int) {
            u32_parse_error(p[4])
        } else if !unsigned_in_range(p[5], u32::MAX as int) {
            u32_parse_error(p[5])
        } else {
            u32_parse_error(p[6])
        }
    } else if starts_with(s, seq!['c', 'c', ' ']) {
        let p = split(s.skip(3), ' ');
        if p.len() < 3 {
            "'cc' requires 3 arguments"@
        } else if !unsigned_in_range(p[0], 255) {
            u8_parse_error(p[0])
        } else if !unsigned_in_range(p[1], 255) {
            u8_parse_error(p[1])
        } else {
            u8_parse_error(p[2])
        }
    } else {
        "unknown instruction: "@ + s
    }
}

/// Pieces before index `i` that all read as notes do not change which message the first one
/// that does not read gives.
proof fn lemma_first_note_error_skip(pieces: Seq<Seq<char>>, i: int)
    requires
        0 <= i <= pieces.len(),
        forall|j: int| 0 <= j < i ==> note_from_text(#[trigger] pieces[j]) is Some,
    ensures
        first_note_error(pieces) == first_note_error(pieces.skip(i)),
    decreases i,
{
    if i > 0 {
        let t = pieces.drop_first();
        assert forall|j: int| 0 <= j < i - 1 implies note_from_text(#[trigger] t[j]) is Some by {
            assert(t[j] == pieces[j + 1]);
        }
        lemma_first_note_error_skip(t, i - 1);
        assert(t.skip(i - 1) =~= pieces.skip(i));
        assert(note_from_text(pieces[0]) is Some);
    } else {
        assert(pieces.skip(0) =~= pieces);
    }
}

/// Whether the text `s` of a clip instruction reads as `c`. The forms are `+ <duration>`,
/// `j <offset>`, `nop` (an alias for `j 0`), `n <chan> <note> <velocity> <duration>`,
/// `s <chan> <note>,... <velocity> <duration> <pulses> <len> <offset>` and
/// `cc <chan> <control> <value>`; arguments are separated by single spaces and any beyond the
/// required ones are ignored.
pub open spec fn clip_parses_to(s: Seq<char>, c: ClipInst) -> bool {
    if starts_with(s, seq!['+', ' ']) {
        c matches ClipInst::Tick(d) && duration_from_text(s.skip(2)) == Some(d)
    } else if starts_with(s, seq!['j', ' ']) {
        &&& c matches ClipInst::Jmp(o)
        &&& signed_in_range(s.skip(2), i32::MIN as int, i32::MAX as int)
        &&& decimal_signed(s.skip(2)) == Some(o as int)
    } else if s == seq!['n', 'o', 'p'] {
        c == ClipInst::Jmp(0)
    } else if starts_with(s, seq!['n', ' ']) {
        let p = split(s.skip(2), ' ');
        &&& p.len() >= 4
        &&& c matches ClipInst::Call(SeqCall::QueueNote(chan, note, velocity, duration))
        &&& unsigned_field(p[0], chan as int, 255)
        &&& note_from_text(p[1]) == Some(note)
        &&& velocity_from_text(p[2]) == Some(velocity)
        &&& duration_from_text(p[3]) == Some(duration)
    } else if starts_with(s, seq!['s', ' ']) {
        let p = split(s.skip(2), ' ');
        &&& p.len() >= 7
        &&& c matches ClipInst::Call(
            SeqCall::QueueSequence(chan, notes, velocity, duration, pulses, len, offset),
        )
        &&& unsigned_field(p[0], chan as int, 255)
        &&& notes_field(p[1], notes@)
        &&& velocity_from_text(p[2]) == Some(velocity)
        &&& duration_from_text(p[3]) == Some(duration)
        &&& unsigned_field(p[4], pulses as int, u32::MAX as int)
        &&& unsigned_field(p[5], len as int, u32::MAX as int)
        &&& unsigned_field(p[6], offset as int, u32::MAX as int)
    } else if starts_with(s, seq!['c', 'c', ' ']) {
        let p = split(s.skip(3), ' ');
        &&& p.len() >= 3
        &&& c matches ClipInst::Call(SeqCall::QueueControl(chan, control, value))
        &&& unsigned_field(p[0], chan as int, 255)
        &&& unsigned_field(p[1], control as int, 255)
        &&& unsigned_field(p[2], value as int, 255)
    } else {
        false
    }
}

/// The error for an instruction with too few arguments, if `s` is one.
pub open spec fn clip_arity_error(s: Seq<char>) -> Option<Seq<char>> {
    if starts_with(s, seq!['+', ' ']) || starts_with(s, seq!['j', ' ']) || s == seq!['n', 'o', 'p'] {
        None
    } else if starts_with(s, seq!['n', ' ']) && split(s.skip(2), ' ').len() < 4 {
        Some("'n' requires 4 arguments"@)
    } else if starts_with(s, seq!['n', ' ']) {
        None
    } else if starts_with(s, seq!['s', ' ']) && split(s.skip(2), ' ').len() < 7 {
        Some("'s' requires 7 arguments"@)
    } else if starts_with(s, seq!['s', ' ']) {
        None
    } else if starts_with(s, seq!['c', 'c', ' ']) && split(s.skip(3), ' ').len() < 3 {
        Some("'cc' requires 3 arguments"@)
    } else {
        None
    }
}

/// Text that starts with none of the instruction forms.
pub open spec fn clip_unknown(s: Seq<char>) -> bool {
    &&& !starts_with(s, seq!['+', ' '])
    &&& !starts_with(s, seq!['j', ' '])
    &&& s != seq!['n', 'o', 'p']
    &&& !starts_with(s, seq!['n', ' '])
    &&& !starts_with(s, seq!['s', ' '])
    &&& !starts_with(s, seq!['c', 'c', ' '])
}

/// The texts of notes, separated by commas.
pub open spec fn notes_text(notes: Seq<Note>) -> Seq<char> {
    join(notes.map_values(|n: Note| note_text(n)), ',')
}

/// The text form of a clip instruction (see `clip_parses_to`).
pub open spec fn clip_text(c: ClipInst) -> Seq<char> {
    match c {
        ClipInst::Tick(d) => seq!['+', ' '] + duration_text(d),
        ClipInst::Jmp(o) => seq!['j', ' '] + dec_int(o as int),
        ClipInst::Call(SeqCall::QueueNote(chan, note, velocity, duration)) => seq!['n', ' '] + join(
            seq![
                dec_digits(chan as nat),
                note_text(note),
                velocity_text(velocity),
                duration_text(duration),
            ],
            ' ',
        ),
        ClipInst::Call(
            SeqCall::QueueSequence(chan, notes, velocity, duration, pulses, len, offset),
        ) => seq!['s', ' '] + join(
            seq![
                dec_digits(chan as nat),
                notes_text(notes@),
                velocity_text(velocity),
                duration_text(duration),
                dec_digits(pulses as nat),
                dec_digits(len as nat),
                dec_digits(offset as nat),
            ],
            ' ',
        ),
        ClipInst::Call(SeqCall::QueueControl(chan, control, value)) => seq!['c', 'c', ' '] + join(
            seq![dec_digits(chan as nat), dec_digits(control as nat), dec_digits(value as nat)],
            ' ',
        ),
    }
}

/// Instructions whose text reads back: a rhythm has notes (the text of an empty note list is
/// empty, which reads as no note).
pub open spec fn clip_text_readable(c: ClipInst) -> bool {
    match c {
        ClipInst::Call(SeqCall::QueueSequence(_, notes, ..)) => notes@.len() > 0,
        _ => true,
    }
}

/// Whether a call can be applied: durations are finite where they must be and do not overflow
/// the tick counter, a rhythm's parameters are valid, and a rhythm with pulses has notes to play.
pub open spec fn call_ready(s: SequencerState, ppqn: u32, call: SeqCall) -> bool {
    match call {
        SeqCall::QueueNote(_, _, _, d) => note_fits(s, ppqn, d),
        SeqCall::QueueSequence(_, notes, _, d, pulses, len, offset) => {
            &&& euclid_args_valid(pulses, len, offset)
            &&& rhythm_fits(s, ppqn, d, len as nat)
            &&& (notes@.len() > 0 || pulses == 0)
        },
        SeqCall::QueueControl(..) => true,
    }
}

/// Whether applying a call gets to encoding messages.
pub open spec fn apply_encodes(s: SequencerState, ppqn: u32, call: SeqCall, skip_allocated: bool) -> bool {
    match call {
        SeqCall::QueueNote(c, n, v, d) => queue_note_encodes(s, ppqn, c, n, v, d),
        SeqCall::QueueSequence(c, notes, v, d, pulses, len, offset) => sequence_encodes(
            s,
            c,
            notes@,
            velocity_value(v),
            unit_ticks(ppqn, d),
            euclidean_rhythm(pulses as nat, len as nat, offset as nat),
            0,
            0,
            s.tick as int,
            skip_allocated,
        ),
        SeqCall::QueueControl(c, cc, v) => queue_control_outcome(s, c, cc, v).0 is Ok,
    }
}

/// The outcome of applying a call; a rhythm plays its Euclidean sequence.
pub open spec fn apply_outcome(s: SequencerState, ppqn: u32, call: SeqCall, skip_allocated: bool) -> (
    Result<(), Seq<char>>,
    SequencerState,
) {
    match call {
        SeqCall::QueueNote(c, n, v, d) => queue_note_outcome(s, ppqn, c, n, v, d),
        SeqCall::QueueSequence(c, notes, v, d, pulses, len, offset) => sequence_outcome(
            s,
            c,
            notes@,
            velocity_value(v),
            unit_ticks(ppqn, d),
            euclidean_rhythm(pulses as nat, len as nat, offset as nat),
            0,
            0,
            s.tick as int,
            skip_allocated,
        ),
        SeqCall::QueueControl(c, cc, v) => queue_control_outcome(s, c, cc, v),
    }
}

/// Whether a clock message is due `k` ticks after the current tick.
pub open spec fn clock_due(s: SequencerState, ppqn: u32, k: int) -> bool {
    s.send_clock && (s.tick + k) % (clock_period(ppqn) as int) == 0
}

/// Whether a clock message is due within the next `n` ticks; encoding one needs a supported
/// MIDI version.
pub open spec fn clock_due_within(s: SequencerState, ppqn: u32, n: int) -> bool {
    exists|k: int| 0 <= k < n && #[trigger] clock_due(s, ppqn, k)
}

/// The state after `n` ticks.
pub open spec fn after_ticks(s: SequencerState, n: nat) -> SequencerState
    decreases n,
{
    if n == 0 {
        s
    } else {
        after_tick(after_ticks(s, (n - 1) as nat))
    }
}

/// Whether `send_midi` may return `ret` when handed a slice that holds `bytes`.
pub open spec fn handed_bytes<F: FnMut(&[u8]) -> bool>(send_midi: F, bytes: Seq<u8>, ret: bool) -> bool {
    exists|b: &[u8]| b@ == bytes && #[trigger] call_ensures(send_midi, (b,), ret)
}

/// Whether `send_midi` may have been handed a slice that holds `bytes`.
pub open spec fn received_bytes<F: FnMut(&[u8])>(send_midi: F, bytes: Seq<u8>) -> bool {
    exists|b: &[u8]| b@ == bytes && #[trigger] call_ensures(send_midi, (b,), ())
}

/// Ticking changes only the tick and the queue.
proof fn lemma_after_ticks_keeps(s: SequencerState, n: nat)
    ensures
        after_ticks(s, n).tick == s.tick + n || s.tick + n > u64::MAX,
        after_ticks(s, n).send_clock == s.send_clock,
        after_ticks(s, n).midi_ver == s.midi_ver,
        after_ticks(s, n).allocated == s.allocated,
        after_ticks(s, n).chan_map == s.chan_map,
    decreases n,
{
    if n > 0 {
        lemma_after_ticks_keeps(s, (n - 1) as nat);
    }
}

/// MIDI clock messages come 24 times per quarter note: `ppqn` ticks hold exactly 24 clock
/// periods.
pub proof fn lemma_clock_rate(ppqn: u32)
    requires
        ppqn >= 24,
        ppqn % 24 == 0,
    ensures
        clock_period(ppqn) >= 1,
        clock_period(ppqn) * 24 == ppqn,
{
}

/// After a stop nothing queued is left: the next tick sends at most a clock message, since the
/// count of ticks starts again at 0.
pub proof fn lemma_stop_silences(s: SequencerState, ppqn: u32)
    requires
        ppqn >= 24,
        ppqn % 24 == 0,
    ensures
        tick_output(stopped(s), ppqn) == (if s.send_clock {
            midi_bytes(MidiMsg::Clock, s.midi_ver)
        } else {
            seq![]
        }),
{
    lemma_clock_rate(ppqn);
    vstd::arithmetic::div_mod::lemma_small_mod(0, clock_period(ppqn) as nat);
    assert(stopped(s).tick % clock_period(ppqn) == 0);
    let clock = if s.send_clock {
        midi_bytes(MidiMsg::Clock, s.midi_ver)
    } else {
        seq![]
    };
    assert(queued_at(stopped(s).queue, 0) =~= Seq::<u8>::empty());
    assert(clock + Seq::<u8>::empty() =~= clock);
}

/// A beat of a bar of four beats is a quarter note: it lasts `ppqn` ticks, and `b` of them last
/// `b` quarter notes.
pub proof fn lemma_quarter_note_beats(ppqn: u32, b: u64)
    requires
        b * 4 * ppqn <= u64::MAX,
    ensures
        duration_ticks_defined(ppqn, Duration::Beats(b, 4)),
        duration_ticks(ppqn, Duration::Beats(b, 4)) == Some((b * ppqn) as u64),
{
    assert((b * 4 * ppqn) / 4 == b * ppqn) by (nonlinear_arith);
}

/// Routing a channel changes only what is queued afterwards: what is already queued stays, and a
/// control change queued afterwards for the routed channel goes to its new channel.
pub proof fn lemma_channel_routing(s: SequencerState, from: u8, to: u8, control: u8, value: u8)
    requires
        from <= 15,
        to <= 15,
        control <= 127,
        value <= 127,
    ensures
        chan_map_outcome(s, from, to).0 is Ok,
        chan_map_outcome(s, from, to).1.queue == s.queue,
        chan_map_outcome(s, from, to).1.allocated == s.allocated,
        queue_control_outcome(chan_map_outcome(s, from, to).1, from, control, value).1.queue
            == enqueued(s.queue, s.tick, midi_bytes(MidiMsg::Cc(to, control, value), s.midi_ver)),
{
}

/// A note queued for a positive number of ticks sounds on the current tick: the tick's bytes
/// gain its note-on message at the end, its note-off is queued for the tick where it ends, and
/// the note stays allocated until then.
pub proof fn lemma_queued_note_sounds(
    s: SequencerState,
    ppqn: u32,
    chan: u8,
    note: Note,
    velocity: Velocity,
    ticks: u64,
)
    requires
        ticks > 0,
        s.tick + ticks < u64::MAX,
        queue_note_outcome(s, ppqn, chan, note, velocity, Duration::Ticks(ticks)).0 is Ok,
    ensures
        ({
            let s2 = queue_note_outcome(s, ppqn, chan, note, velocity, Duration::Ticks(ticks)).1;
            let c = route(s.chan_map, chan);
            let p = note_pitch(note) as u8;
            let end = (s.tick + ticks) as u64;
            &&& tick_output(s2, ppqn) == tick_output(s, ppqn) + midi_bytes(
                MidiMsg::NoteOn(c, p, velocity_value(velocity)),
                s.midi_ver,
            )
            &&& queued_at(s2.queue, end) == queued_at(s.queue, end) + midi_bytes(
                MidiMsg::NoteOff(c, p, 0),
                s.midi_ver,
            )
            &&& s2.allocated[note_slot(c, p)] == end
        }),
{
    let c = route(s.chan_map, chan);
    let p = note_pitch(note) as u8;
    let end = (s.tick + ticks) as u64;
    let on = midi_bytes(MidiMsg::NoteOn(c, p, velocity_value(velocity)), s.midi_ver);
    let q1 = enqueued(s.queue, s.tick, on);
    assert(queued_at(q1, s.tick) == queued_at(s.queue, s.tick) + on);
    assert(queued_at(q1, end) == queued_at(s.queue, end));
    let clock = if s.send_clock && s.tick % clock_period(ppqn) == 0 {
        midi_bytes(MidiMsg::Clock, s.midi_ver)
    } else {
        seq![]
    };
    assert(clock + (queued_at(s.queue, s.tick) + on) =~= clock + queued_at(s.queue, s.tick) + on);
}

/// A note cannot be started again while it is allocated: once queued for a positive number of
/// ticks, queueing it again on the same tick, for any duration other than a stop, fails.
pub proof fn lemma_allocated_note_refused(
    s: SequencerState,
    ppqn: u32,
    chan: u8,
    note: Note,
    velocity: Velocity,
    ticks: u64,
    again: Velocity,
    duration: Duration,
)
    requires
        ticks > 0,
        s.tick + ticks < u64::MAX,
        queue_note_outcome(s, ppqn, chan, note, velocity, Duration::Ticks(ticks)).0 is Ok,
        duration_ticks(ppqn, duration) != Some(0u64),
        velocity_value(again) <= 127,
    ensures
        queue_note_outcome(
            queue_note_outcome(s, ppqn, chan, note, velocity, Duration::Ticks(ticks)).1,
            ppqn,
            chan,
            note,
            again,
            duration,
        ).0 == Err::<(), Seq<char>>(
            "already allocated note: "@ + dec_digits(note_pitch(note) as nat),
        ),
{
    lemma_queued_note_sounds(s, ppqn, chan, note, velocity, ticks);
    let s2 = queue_note_outcome(s, ppqn, chan, note, velocity, Duration::Ticks(ticks)).1;
    let c = route(s.chan_map, chan);
    let p = note_pitch(note) as u8;
    assert(s2.chan_map == s.chan_map);
    assert(s2.tick == s.tick);
    assert(c <= 15 && p <= 127);
    assert(s2.allocated.contains_key(note_slot(c, p)));
    assert(duration != Duration::End);
}

/// Keeps track of MIDI messages and emits them for each tick.
pub struct MidiSequencer {
    /// The current tick.
    pub tick: u64,
    /// Send MIDI clock.
    pub send_clock: bool,
    /// MIDI version.
    midi_ver: u32,
    /// Map of tick to queued raw messages.
    queue: HashMap<u64, Vec<u8>>,
    /// Allocated notes by (channel, note) slot (see `note_slot`) and their expiration tick. This
    /// is to avoid accidentally attempting to concurrently play the same note; a note may already
    /// be stopped but still be allocated, e.g. when part of a sequence that has not yet completed.
    allocated: HashMap<u16, u64>,
    /// Internal channel mapping to route to different final channel.
    chan_map: HashMap<u8, u8>,
}

/// The bytes of each queued tick.
pub open spec fn queue_view(q: Map<u64, Vec<u8>>) -> Map<u64, Seq<u8>> {
    Map::new(|t: u64| q.contains_key(t), |t: u64| q[t]@)
}

impl View for MidiSequencer {
    type V = SequencerState;

    closed spec fn view(&self) -> SequencerState {
        SequencerState {
            tick: self.tick,
            send_clock: self.send_clock,
            midi_ver: self.midi_ver,
            queue: queue_view(self.queue@),
            allocated: self.allocated@,
            chan_map: self.chan_map@,
        }
    }
}

impl MidiSequencer {
    pub fn new(send_clock: bool, midi_ver: u32) -> (r: Self)
        ensures
            r@ == (SequencerState {
                tick: 0,
                send_clock,
                midi_ver,
                queue: Map::empty(),
                allocated: Map::empty(),
                chan_map: Map::empty(),
            }),
    {
        let r = Self {
            tick: 0,
            send_clock,
            midi_ver,
            queue: HashMap::new(),
            allocated: HashMap::new(),
            chan_map: HashMap::new(),
        };
        assert(r@.queue =~= Map::empty());
        r
    }

    /// Appends `bytes` to what is queued for tick `t`.
    fn enqueue(&mut self, t: u64, bytes: Vec<u8>)
        ensures
            final(self)@ == (SequencerState {
                queue: enqueued(old(self)@.queue, t, bytes@),
                ..old(self)@
            }),
    {
        let ghost added = bytes@;
        let mut bytes = bytes;
        match self.queue.remove(&t) {
            Some(mut v) => {
                v.append(&mut bytes);
                self.queue.insert(t, v);
            },
            None => {
                self.queue.insert(t, bytes);
            },
        }
        assert(queue_view(self.queue@) =~= enqueued(old(self)@.queue, t, added));
    }

    /// Queue note messages based on raw MIDI parameters.
    fn queue_midi(
        &mut self,
        chan: u8,
        note: u8,
        on_velocity: u8,
        off_velocity: u8,
        begin_tick: u64,
        ticks: Option<u64>,
        skip_allocated: bool,
    ) -> (r: Result<(), String>)
        requires
            queue_midi_encodes(
                old(self)@,
                chan,
                note,
                on_velocity,
                off_velocity,
                begin_tick,
                ticks,
            ) ==> supported_midi_version(old(self)@.midi_ver),
            ticks matches Some(t) ==> begin_tick + t <= u64::MAX,
        ensures
            (outcome_text(r), final(self)@) == queue_midi_outcome(
                old(self)@,
                chan,
                note,
                on_velocity,
                off_velocity,
                begin_tick,
                ticks,
                skip_allocated,
            ),
    {
        let chan = match self.chan_map.get(&chan) {
            Some(c) => *c,
            None => chan,
        };
        if chan > 15 {
            let mut msg = String::new();
            msg.append("invalid channel: ");
            append_u64(&mut msg, chan as u64);
            return Err(msg);
        }
        if note > 127 {
            let mut msg = String::new();
            msg.append("invalid note: ");
            append_u64(&mut msg, note as u64);
            return Err(msg);
        }
        if on_velocity > 127 {
            let mut msg = String::new();
            msg.append("invalid velocity: ");
            append_u64(&mut msg, on_velocity as u64);
            return Err(msg);
        }
        if off_velocity > 127 {
            let mut msg = String::new();
            msg.append("invalid velocity: ");
            append_u64(&mut msg, off_velocity as u64);
            return Err(msg);
        }
        let slot: u16 = (chan as u16) * 256 + (note as u16);
        if let Some(expiration) = self.allocated.get(&slot) {
            let expiration = *expiration;
            if begin_tick < expiration {
                match ticks {
                    Some(0) => {
                        if expiration != u64::MAX {
                            let mut msg = String::new();
                            msg.append("cannot stop limited note: ");
                            append_u64(&mut msg, note as u64);
                            return Err(msg);
                        }
                    },
                    // We can't start a note that has not yet expired.
                    _ => {
                        if skip_allocated {
                            return Ok(());
                        } else {
                            let mut msg = String::new();
                            msg.append("already allocated note: ");
                            append_u64(&mut msg, note as u64);
                            return Err(msg);
                        }
                    },
                }
            }
        }
        let end_tick = match ticks {
            Some(t) => begin_tick + t,
            None => u64::MAX,
        };
        if end_tick != begin_tick {
            // If this note does not stop on this tick, start playing.
            let on_msg = MidiMsg::NoteOn(chan, note, on_velocity);
            self.enqueue(begin_tick, on_msg.to_midi(self.midi_ver));
        }
        if end_tick != u64::MAX {
            // If this is not a forever-playing note, add a stop.
            let off_msg = MidiMsg::NoteOff(chan, note, off_velocity);
            self.enqueue(end_tick, off_msg.to_midi(self.midi_ver));
        }
        self.allocated.insert(slot, end_tick);
        Ok(())
    }

    /// Advance to the next tick and return the MIDI message stream to be sent to a compatible MIDI
    /// device.
    pub fn tick<TC: TickClock + ?Sized>(&mut self, tick_clock: &TC) -> (r: Vec<u8>)
        requires
            tick_ready(old(self)@, tick_clock.base_view().pulses_per_qn()),
        ensures
            r@ == tick_output(old(self)@, tick_clock.base_view().pulses_per_qn()),
            final(self)@ == after_tick(old(self)@),
    {
        let queue_opt = self.queue.remove(&self.tick);
        self.tick = self.tick + 1;  // advance tick
        let clock_beat = Duration::Beats(1, (4 * CLOCKS_PER_QN) as u64);
        assert(clock_beat == Duration::Beats(1, 96));
        let ghost ppqn = tick_clock.base_view().pulses_per_qn();
        assert(4 * ppqn <= 4 * 0xffff_ffffint);
        assert(1 * 4 * ppqn <= u64::MAX);
        let ticks_per_clock = tick_clock.get_ticks(&clock_beat).unwrap();
        assert(ticks_per_clock == clock_period(tick_clock.base_view().pulses_per_qn()));
        let ghost old_queue = old(self)@.queue;
        let ghost t = old(self)@.tick;
        assert(queue_view(self.queue@) =~= old_queue.remove(t));
        assert(queue_opt matches Some(q) ==> q@ == queued_at(old_queue, t));
        assert(queue_opt is None ==> queued_at(old_queue, t) == Seq::<u8>::empty());
        if self.send_clock && (self.tick - 1) % ticks_per_clock == 0 {
            // Clock has highest priority; send it first.
            let mut ret: Vec<u8> = MidiMsg::Clock.to_midi(self.midi_ver);
            if let Some(mut queue) = queue_opt {
                ret.append(&mut queue);
            }
            assert(ret@ =~= tick_output(old(self)@, tick_clock.base_view().pulses_per_qn()));
            ret
        } else {
            let ret = match queue_opt {
                Some(q) => q,
                None => Vec::new(),
            };
            assert(ret@ =~= tick_output(old(self)@, tick_clock.base_view().pulses_per_qn()));
            ret
        }
    }

    /// Queue a typed note description as MIDI messages.
    pub fn queue_note<TC: TickClock + ?Sized>(
        &mut self,
        tick_clock: &TC,
        chan: u8,
        note: &Note,
        velocity: &Velocity,
        duration: &Duration,
    ) -> (r: Result<(), String>)
        requires
            queue_note_encodes(
                old(self)@,
                tick_clock.base_view().pulses_per_qn(),
                chan,
                *note,
                *velocity,
                *duration,
            ) ==> supported_midi_version(old(self)@.midi_ver),
            note_fits(old(self)@, tick_clock.base_view().pulses_per_qn(), *duration),
        ensures
            (outcome_text(r), final(self)@) == queue_note_outcome(
                old(self)@,
                tick_clock.base_view().pulses_per_qn(),
                chan,
                *note,
                *velocity,
                *duration,
            ),
    {
        let midi_note = match note.to_midi() {
            Ok(n) => n,
            Err(e) => {
                return Err(e);
            },
        };
        let velocity = velocity.value();
        let off_velocity = if let Duration::End = duration {
            velocity
        } else {
            0
        };
        let ticks = tick_clock.get_ticks(duration);
        self.queue_midi(chan, midi_note, velocity, off_velocity, self.tick, ticks, false)
    }

    /// Queue a Control Change message at the current tick.
    pub fn queue_control(&mut self, chan: u8, control: u8, value: u8) -> (r: Result<(), String>)
        requires
            queue_control_outcome(old(self)@, chan, control, value).0 is Ok
                ==> supported_midi_version(old(self)@.midi_ver),
        ensures
            (outcome_text(r), final(self)@) == queue_control_outcome(old(self)@, chan, control, value),
    {
        let chan = match self.chan_map.get(&chan) {
            Some(c) => *c,
            None => chan,
        };
        if chan > 15 {
            let mut msg = String::new();
            msg.append("invalid channel: ");
            append_u64(&mut msg, chan as u64);
            return Err(msg);
        }
        if control > 127 {
            let mut msg = String::new();
            msg.append("invalid control: ");
            append_u64(&mut msg, control as u64);
            return Err(msg);
        }
        if value > 127 {
            let mut msg = String::new();
            msg.append("invalid value: ");
            append_u64(&mut msg, value as u64);
            return Err(msg);
        }
        let msg = MidiMsg::Cc(chan, control, value);
        let t = self.tick;
        self.enqueue(t, msg.to_midi(self.midi_ver));
        Ok(())
    }

    /// Map a channel to another, reflected in the MIDI message stream.
    pub fn insert_chan_map(&mut self, from: u8, to: u8) -> (r: Result<(), String>)
        ensures
            (outcome_text(r), final(self)@) == chan_map_outcome(old(self)@, from, to),
    {
        if from > 15 {
            let mut msg = String::new();
            msg.append("invalid channel: ");
            append_u64(&mut msg, from as u64);
            return Err(msg);
        }
        if to > 15 {
            let mut msg = String::new();
            msg.append("invalid channel: ");
            append_u64(&mut msg, to as u64);
            return Err(msg);
        }
        self.chan_map.insert(from, to);
        Ok(())
    }

    /// The channel routing.
    pub fn chan_map(&self) -> (r: &HashMap<u8, u8>)
        ensures
            r@ == self@.chan_map,
    {
        &self.chan_map
    }

    /// Stop playing and return the last stream of MIDI messages to stop playing any currently
    /// playing notes, in the order in which the table of allocated notes is walked. Resets the
    /// current tick back to 0.
    pub fn stop(&mut self) -> (r: Vec<u8>)
        requires
            sounding_slots(old(self)@) != Set::<u16>::empty() ==> supported_midi_version(
                old(self)@.midi_ver,
            ),
        ensures
            exists|slots: Seq<u16>|
                {
                    &&& slots.no_duplicates()
                    &&& slots.to_set() == sounding_slots(old(self)@)
                    &&& r@ == #[trigger] stop_bytes(slots, old(self)@.midi_ver)
                },
            final(self)@ == stopped(old(self)@),
    {
        let mut stop_msgs: Vec<u8> = Vec::new();
        let ghost s = self@;
        let ghost mut slots: Seq<u16> = Seq::empty();
        // Note: Beware non-stable iteration order.
        for k in it: self.allocated.keys()
            invariant
                self@ == s,
                sounding_slots(s) != Set::<u16>::empty() ==> supported_midi_version(s.midi_ver),
                it.seq().no_duplicates(),
                it.seq().unref().to_set() == s.allocated.dom(),
                stop_msgs@ == stop_bytes(slots, s.midi_ver),
                slots.no_duplicates(),
                forall|slot: u16|
                    #[trigger] slots.contains(slot) <==> (sounding(s, slot) && exists|j: int|
                        0 <= j < it.index() && *it.seq()[j] == slot),
            ensures
                stop_msgs@ == stop_bytes(slots, s.midi_ver),
                slots.no_duplicates(),
                slots.to_set() == sounding_slots(s),
        {
            let slot: u16 = *k;
            let ghost prev = slots;
            assert(slot == *it.seq()[it.index()]);
            assert(!slots.contains(slot)) by {
                if slots.contains(slot) {
                    let j = choose|j: int| 0 <= j < it.index() && *it.seq()[j] == slot;
                    assert(it.seq()[j] == it.seq()[it.index()]);
                }
            }
            assert(it.seq().unref().to_set().contains(slot)) by {
                assert(it.seq().unref()[it.index()] == slot);
            }
            let end = *self.allocated.get(&slot).unwrap();
            if self.tick <= end {
                assert(sounding_slots(s).contains(slot));
                assert(sounding_slots(s) != Set::<u16>::empty());
                let off_msg = MidiMsg::NoteOff((slot / 256) as u8, (slot % 256) as u8, 0);
                let mut bytes = off_msg.to_midi(self.midi_ver);
                stop_msgs.append(&mut bytes);
                proof {
                    let ghost before = slots;
                    slots = slots.push(slot);
                    assert(slots.drop_last() =~= before);
                }
            }
            assert forall|x: u16|
                #[trigger] slots.contains(x) <==> (sounding(s, x) && exists|j: int|
                    0 <= j < it.index() + 1 && *it.seq()[j] == x) by {
                assert(prev.contains(x) <==> (sounding(s, x) && exists|j: int|
                    0 <= j < it.index() && *it.seq()[j] == x));
                if slots.contains(x) && !prev.contains(x) {
                    let i = choose|i: int| 0 <= i < slots.len() && slots[i] == x;
                    assert(i == prev.len());
                    assert(x == slot);
                    assert(*it.seq()[it.index()] == x);
                }
                if sounding(s, x) && exists|j: int| 0 <= j < it.index() + 1 && *it.seq()[j] == x {
                    let j = choose|j: int| 0 <= j < it.index() + 1 && *it.seq()[j] == x;
                    if j < it.index() {
                        assert(prev.contains(x));
                        let i = choose|i: int| 0 <= i < prev.len() && prev[i] == x;
                        assert(slots[i] == x);
                    } else {
                        assert(x == slot);
                        assert(slots[slots.len() - 1] == x);
                    }
                }
            }
        }
        self.tick = 0;
        self.queue.clear();
        self.allocated.clear();
        assert(queue_view(self.queue@) =~= Map::empty());
        stop_msgs
    }

    /// Queue typed notes based on a rhythmic sequence. Each element in `sequence` maps to the
    /// corresponding element in `notes`, where the latter simply repeats if exhausted.
    pub fn queue_sequence<TC: TickClock + ?Sized>(
        &mut self,
        tick_clock: &TC,
        chan: u8,
        notes: &[Note],
        velocity: &Velocity,
        unit_duration: &Duration,
        sequence: &[bool],
        skip_allocated: bool,
    ) -> (r: Result<(), String>)
        requires
            sequence_encodes(
                old(self)@,
                chan,
                notes@,
                velocity_value(*velocity),
                unit_ticks(tick_clock.base_view().pulses_per_qn(), *unit_duration),
                sequence@,
                0,
                0,
                old(self)@.tick as int,
                skip_allocated,
            ) ==> supported_midi_version(old(self)@.midi_ver),
            rhythm_fits(
                old(self)@,
                tick_clock.base_view().pulses_per_qn(),
                *unit_duration,
                sequence@.len(),
            ),
            notes@.len() > 0 || !sequence@.contains(true),
        ensures
            (outcome_text(r), final(self)@) == sequence_outcome(
                old(self)@,
                chan,
                notes@,
                velocity_value(*velocity),
                unit_ticks(tick_clock.base_view().pulses_per_qn(), *unit_duration),
                sequence@,
                0,
                0,
                old(self)@.tick as int,
                skip_allocated,
            ),
    {
        let vel = velocity.value();
        let unit = tick_clock.get_ticks(unit_duration).unwrap();
        let ghost goal = sequence_outcome(
            self@,
            chan,
            notes@,
            vel,
            unit,
            sequence@,
            0,
            0,
            self@.tick as int,
            skip_allocated,
        );
        let ghost start = self@.tick;
        assert(goal == sequence_outcome(
            old(self)@,
            chan,
            notes@,
            velocity_value(*velocity),
            unit_ticks(tick_clock.base_view().pulses_per_qn(), *unit_duration),
            sequence@,
            0,
            0,
            old(self)@.tick as int,
            skip_allocated,
        ));
        let mut played: usize = 0;
        let mut cur_tick = self.tick;
        let mut i: usize = 0;
        while i < sequence.len()
            invariant
                0 <= i <= sequence@.len(),
                played <= i,
                sequence_encodes(
                    self@,
                    chan,
                    notes@,
                    vel,
                    unit,
                    sequence@,
                    i as nat,
                    played as nat,
                    cur_tick as int,
                    skip_allocated,
                ) ==> supported_midi_version(self@.midi_ver),
                notes@.len() > 0 || !sequence@.contains(true),
                unit > 0,
                start + sequence@.len() * unit <= u64::MAX,
                goal == sequence_outcome(
                    old(self)@,
                    chan,
                    notes@,
                    velocity_value(*velocity),
                    unit_ticks(tick_clock.base_view().pulses_per_qn(), *unit_duration),
                    sequence@,
                    0,
                    0,
                    old(self)@.tick as int,
                    skip_allocated,
                ),
                cur_tick == start + i * unit,
                sequence_outcome(
                    self@,
                    chan,
                    notes@,
                    vel,
                    unit,
                    sequence@,
                    i as nat,
                    played as nat,
                    cur_tick as int,
                    skip_allocated,
                ) == goal,
            decreases sequence@.len() - i,
        {
            proof {
                assert((i + 1) * unit <= sequence@.len() * unit) by (nonlinear_arith)
                    requires
                        i + 1 <= sequence@.len(),
                ;
                assert((i + 1) * unit == i * unit + unit) by (nonlinear_arith);
            }
            if sequence[i] {
                assert(notes@.len() > 0) by {
                    assert(sequence@[i as int]);
                }
                let note = &notes[played % notes.len()];
                let ghost before = self@;
                assert(*note == notes@[(played as nat % notes@.len()) as int]);
                let midi_note = match note.to_midi() {
                    Ok(n) => n,
                    Err(e) => {
                        assert(sequence_outcome(
                            before,
                            chan,
                            notes@,
                            vel,
                            unit,
                            sequence@,
                            i as nat,
                            played as nat,
                            cur_tick as int,
                            skip_allocated,
                        ) == (Err::<(), Seq<char>>(e@), before));
                        return Err(e);
                    },
                };
                match self.queue_midi(
                    chan,
                    midi_note,
                    vel,
                    0,
                    cur_tick,
                    Some(unit),
                    skip_allocated,
                ) {
                    Ok(()) => {},
                    Err(e) => {
                        assert(sequence_outcome(
                            before,
                            chan,
                            notes@,
                            vel,
                            unit,
                            sequence@,
                            i as nat,
                            played as nat,
                            cur_tick as int,
                            skip_allocated,
                        ) == (Err::<(), Seq<char>>(e@), self@));
                        return Err(e);
                    },
                }
                played = played + 1;
            }
            cur_tick = cur_tick + unit;
            i = i + 1;
        }
        Ok(())
    }

    /// Whether `call` can be applied (see `call_ready`) by a sequencer that can encode messages.
    pub fn can_apply<TC: TickClock + ?Sized>(&self, tick_clock: &TC, call: &SeqCall) -> (r: bool)
        ensures
            r == (supported_midi_version(self@.midi_ver) && call_ready(
                self@,
                tick_clock.base_view().pulses_per_qn(),
                *call,
            )),
    {
        if !(self.midi_ver == 10 || self.midi_ver == 20) {
            return false;
        }
        let ppqn = tick_clock.ppqn();
        match call {
            SeqCall::QueueNote(_, _, _, d) => self.note_fits_exec(ppqn, d),
            SeqCall::QueueSequence(_, notes, _, d, pulses, len, offset) => {
                let args_valid = *pulses <= *len && (*len == 0 || *offset < *len);
                if !args_valid || !(notes.len() > 0 || *pulses == 0) {
                    return false;
                }
                match self.ticks_of(ppqn, d) {
                    Some(Some(unit)) => {
                        if unit == 0 {
                            return false;
                        }
                        let room = u64::MAX - self.tick;
                        let fits = (*len as u64) <= room / unit;
                        proof {
                            let l = *len as int;
                            let u = unit as int;
                            let rm = room as int;
                            if fits {
                                assert(l * u <= (rm / u) * u) by (nonlinear_arith)
                                    requires
                                        l <= rm / u,
                                        u > 0,
                                ;
                                assert((rm / u) * u <= rm) by (nonlinear_arith)
                                    requires
                                        u > 0,
                                        rm >= 0,
                                ;
                            } else {
                                assert(l * u > rm) by (nonlinear_arith)
                                    requires
                                        l > rm / u,
                                        u > 0,
                                        rm >= 0,
                                ;
                            }
                        }
                        fits
                    },
                    _ => false,
                }
            },
            SeqCall::QueueControl(..) => true,
        }
    }

    /// The ticks of `d`: none if they cannot be computed, and then none if `d` has no end.
    fn ticks_of(&self, ppqn: u32, d: &Duration) -> (r: Option<Option<u64>>)
        requires
            ppqn >= 24,
        ensures
            r is Some <==> duration_ticks_defined(ppqn, *d),
            r matches Some(t) ==> t == duration_ticks(ppqn, *d),
    {
        match *d {
            Duration::Beats(beats, per_bar) => {
                if per_bar == 0 {
                    return None;
                }
                match beats.checked_mul(4) {
                    Some(b4) => match b4.checked_mul(ppqn as u64) {
                        Some(total) => Some(Some(total / per_bar)),
                        None => None,
                    },
                    None => {
                        proof {
                            let p = ppqn as int;
                            let b = beats as int;
                            assert(b * 4 <= b * 4 * p) by (nonlinear_arith)
                                requires
                                    p >= 1,
                                    b >= 0,
                            ;
                        }
                        None
                    },
                }
            },
            Duration::Ticks(t) => Some(Some(t)),
            Duration::Begin => Some(None),
            Duration::End => Some(Some(0)),
        }
    }

    /// Whether a note of duration `d` from the current tick fits (see `note_fits`).
    fn note_fits_exec(&self, ppqn: u32, d: &Duration) -> (r: bool)
        requires
            ppqn >= 24,
        ensures
            r == note_fits(self@, ppqn, *d),
    {
        match self.ticks_of(ppqn, d) {
            Some(Some(t)) => t <= u64::MAX - self.tick,
            Some(None) => true,
            None => false,
        }
    }

    /// Whether `tick_until` or `forward_until` can advance by `delta` on a clock that can await
    /// the ticks: the duration is finite, the tick counter does not overflow, and clock messages
    /// can be encoded when sent.
    pub fn can_tick_until<TC: TickClock + ?Sized>(&self, tick_clock: &TC, delta: &Duration) -> (r:
        Option<u64>)
        ensures
            r is Some <==> {
                &&& duration_ticks_defined(tick_clock.base_view().pulses_per_qn(), *delta)
                &&& duration_ticks(tick_clock.base_view().pulses_per_qn(), *delta) is Some
                &&& self@.tick + unit_ticks(tick_clock.base_view().pulses_per_qn(), *delta)
                    <= u64::MAX
                &&& clock_due_within(
                    self@,
                    tick_clock.base_view().pulses_per_qn(),
                    unit_ticks(tick_clock.base_view().pulses_per_qn(), *delta) as int,
                ) ==> supported_midi_version(self@.midi_ver)
            },
            r matches Some(t) ==> t == unit_ticks(tick_clock.base_view().pulses_per_qn(), *delta),
    {
        let ppqn = tick_clock.ppqn();
        let t = match self.ticks_of(ppqn, delta) {
            Some(Some(t)) => t,
            _ => {
                return None;
            },
        };
        if t > u64::MAX - self.tick {
            return None;
        }
        if self.send_clock && !(self.midi_ver == 10 || self.midi_ver == 20) {
            // A clock message is due within `t` ticks iff the ticks until the next one are fewer.
            let period = (ppqn / 24) as u64;
            let rem = self.tick % period;
            let wait = if rem == 0 {
                0
            } else {
                period - rem
            };
            proof {
                lemma_clock_rate(ppqn);
                let p = period as int;
                let q = self.tick as int / p;
                assert(self.tick as int == q * p + rem) by {
                    vstd::arithmetic::div_mod::lemma_fundamental_div_mod(self.tick as int, p);
                }
                if wait < t {
                    assert((q + 1) * p == q * p + p) by (nonlinear_arith);
                    vstd::arithmetic::div_mod::lemma_fundamental_div_mod_converse(
                        self.tick + wait,
                        p,
                        if rem == 0 {
                            q
                        } else {
                            q + 1
                        },
                        0,
                    );
                    assert(clock_due(self@, ppqn, wait as int));
                } else {
                    assert forall|k: int| 0 <= k < t implies !#[trigger] clock_due(self@, ppqn, k) by {
                        vstd::arithmetic::div_mod::lemma_fundamental_div_mod_converse(
                            self.tick + k,
                            p,
                            q,
                            rem + k,
                        );
                    }
                }
            }
            if wait < t {
                return None;
            }
        }
        Some(t)
    }

    /// Apply a call instruction.
    pub fn apply<TC: TickClock + ?Sized>(
        &mut self,
        tick_clock: &TC,
        call: &SeqCall,
        skip_allocated: bool,
    ) -> (r: Result<(), String>)
        requires
            apply_encodes(
                old(self)@,
                tick_clock.base_view().pulses_per_qn(),
                *call,
                skip_allocated,
            ) ==> supported_midi_version(old(self)@.midi_ver),
            call_ready(old(self)@, tick_clock.base_view().pulses_per_qn(), *call),
        ensures
            (outcome_text(r), final(self)@) == apply_outcome(
                old(self)@,
                tick_clock.base_view().pulses_per_qn(),
                *call,
                skip_allocated,
            ),
            *call matches SeqCall::QueueNote(c, n, v, d) ==> (outcome_text(r), final(self)@)
                == queue_note_outcome(old(self)@, tick_clock.base_view().pulses_per_qn(), c, n, v, d),
            *call matches SeqCall::QueueSequence(c, ns, v, d, p, l, o) ==> (outcome_text(r), final(self)@)
                == sequence_outcome(
                old(self)@,
                c,
                ns@,
                velocity_value(v),
                unit_ticks(tick_clock.base_view().pulses_per_qn(), d),
                euclidean_rhythm(p as nat, l as nat, o as nat),
                0,
                0,
                old(self)@.tick as int,
                skip_allocated,
            ),
            *call matches SeqCall::QueueControl(c, cc, v) ==> (outcome_text(r), final(self)@)
                == queue_control_outcome(old(self)@, c, cc, v),
    {
        match call {
            SeqCall::QueueNote(c, n, v, d) => self.queue_note(tick_clock, *c, n, v, d),
            SeqCall::QueueSequence(c, ns, v, d, p, l, o) => {
                let es = euclidean_sequence(*p, *l, *o);
                assert(ns@.len() > 0 || !es@.contains(true)) by {
                    if *p == 0 {
                        lemma_euclidean_rhythm(0, *l as nat, *o as nat);
                        lemma_no_pulses(es@);
                    }
                }
                self.queue_sequence(tick_clock, *c, ns.as_slice(), v, d, es.as_slice(), skip_allocated)
            },
            SeqCall::QueueControl(c, cc, v) => self.queue_control(*c, *cc, *v),
        }
    }

    /// Advance until `delta` duration has elapsed, and for each tick calls back `send_midi`; stops
    /// early when `send_midi` returns false.
    pub fn tick_until<F: FnMut(&[u8]) -> bool, TC: TickClock + ?Sized>(
        &mut self,
        tick_clock: &mut TC,
        delta: &Duration,
        send_midi: &mut F,
    )
        requires
            clock_due_within(
                old(self)@,
                old(tick_clock).base_view().pulses_per_qn(),
                unit_ticks(old(tick_clock).base_view().pulses_per_qn(), *delta) as int,
            ) ==> supported_midi_version(old(self)@.midi_ver),
            duration_ticks_defined(old(tick_clock).base_view().pulses_per_qn(), *delta),
            duration_ticks(old(tick_clock).base_view().pulses_per_qn(), *delta) is Some,
            old(self)@.tick + unit_ticks(old(tick_clock).base_view().pulses_per_qn(), *delta)
                <= u64::MAX,
            old(tick_clock).await_ready(
                unit_ticks(old(tick_clock).base_view().pulses_per_qn(), *delta) as nat,
            ),
            forall|f: F, b: &[u8]| #[trigger] f.requires((b,)),
        ensures
            exists|n: nat|
                {
                    let ppqn = old(tick_clock).base_view().pulses_per_qn();
                    let total = unit_ticks(ppqn, *delta);
                    &&& n <= total
                    &&& final(self)@ == #[trigger] after_ticks(old(self)@, n)
                    &&& final(tick_clock).base_view().tick_count() == old(
                        tick_clock,
                    ).base_view().tick_count() + n
                    &&& n < total ==> 0 < n
                    &&& forall|i: int|
                        0 <= i < n - 1 ==> #[trigger] handed_bytes(
                            *old(send_midi),
                            tick_output(after_ticks(old(self)@, i as nat), ppqn),
                            true,
                        )
                    &&& 0 < n ==> (handed_bytes(
                        *old(send_midi),
                        tick_output(after_ticks(old(self)@, (n - 1) as nat), ppqn),
                        false,
                    ) || (n == total && handed_bytes(
                        *old(send_midi),
                        tick_output(after_ticks(old(self)@, (n - 1) as nat), ppqn),
                        true,
                    )))
                },
            final(tick_clock).base_view().pulses_per_qn() == old(
                tick_clock,
            ).base_view().pulses_per_qn(),
    {
        let until_tick = match tick_clock.get_ticks(delta) {
            Some(t) => self.tick + t,
            None => self.tick,
        };
        let ghost start = self@;
        let ghost clock_start = tick_clock.base_view().tick_count();
        let ghost ppqn = tick_clock.base_view().pulses_per_qn();
        let ghost f0 = *send_midi;
        let mut running = true;
        while running && self.tick != until_tick
            invariant
                start.tick <= self.tick <= until_tick,
                self@ == after_ticks(start, (self.tick - start.tick) as nat),
                clock_due_within(start, ppqn, until_tick - start.tick) ==> supported_midi_version(
                    start.midi_ver,
                ),
                tick_clock.base_view().pulses_per_qn() == ppqn,
                tick_clock.base_view().tick_count() == clock_start + (self.tick - start.tick),
                tick_clock.await_ready((until_tick - self.tick) as nat),
                forall|f: F, b: &[u8]| #[trigger] f.requires((b,)),
                *send_midi == f0,
                !running ==> start.tick < self.tick,
                forall|i: int|
                    0 <= i < self.tick - start.tick - 1 ==> #[trigger] handed_bytes(
                        f0,
                        tick_output(after_ticks(start, i as nat), ppqn),
                        true,
                    ),
                start.tick < self.tick ==> handed_bytes(
                    f0,
                    tick_output(after_ticks(start, (self.tick - start.tick - 1) as nat), ppqn),
                    running,
                ),
            decreases until_tick - self.tick,
        {
            let ghost done = (self.tick - start.tick) as nat;
            let ghost before = self@;
            proof {
                lemma_after_ticks_keeps(start, done);
                if self@.send_clock && self@.tick % clock_period(ppqn) == 0 {
                    assert(clock_due(start, ppqn, self.tick - start.tick));
                }
            }
            let midi_bytes = self.tick(&*tick_clock);
            proof {
                tick_clock.lemma_await_fewer((until_tick - self.tick + 1) as nat, 1);
            }
            tick_clock.await_tick();
            let bytes = midi_bytes.as_slice();
            running = send_midi(bytes);
            assert(handed_bytes(f0, tick_output(after_ticks(start, done), ppqn), running)) by {
                assert(bytes@ == tick_output(before, ppqn));
            }
        }
    }

    /// Fast-forwards until `delta` duration has elapsed, and for each tick calls back `send_midi`.
    pub fn forward_until<F: FnMut(&[u8]), TC: TickClock + ?Sized>(
        &mut self,
        tick_clock: &mut TC,
        delta: &Duration,
        send_midi: &mut F,
    )
        requires
            clock_due_within(
                old(self)@,
                old(tick_clock).base_view().pulses_per_qn(),
                unit_ticks(old(tick_clock).base_view().pulses_per_qn(), *delta) as int,
            ) ==> supported_midi_version(old(self)@.midi_ver),
            duration_ticks_defined(old(tick_clock).base_view().pulses_per_qn(), *delta),
            duration_ticks(old(tick_clock).base_view().pulses_per_qn(), *delta) is Some,
            old(self)@.tick + unit_ticks(old(tick_clock).base_view().pulses_per_qn(), *delta)
                <= u64::MAX,
            old(tick_clock).base_view().tick_count() + unit_ticks(
                old(tick_clock).base_view().pulses_per_qn(),
                *delta,
            ) <= u64::MAX,
            forall|f: F, b: &[u8]| #[trigger] f.requires((b,)),
        ensures
            final(self)@ == after_ticks(
                old(self)@,
                unit_ticks(old(tick_clock).base_view().pulses_per_qn(), *delta) as nat,
            ),
            forall|i: int|
                0 <= i < unit_ticks(old(tick_clock).base_view().pulses_per_qn(), *delta)
                    ==> #[trigger] received_bytes(
                    *old(send_midi),
                    tick_output(
                        after_ticks(old(self)@, i as nat),
                        old(tick_clock).base_view().pulses_per_qn(),
                    ),
                ),
            final(tick_clock).base_view().tick_count() == old(tick_clock).base_view().tick_count()
                + unit_ticks(old(tick_clock).base_view().pulses_per_qn(), *delta),
            final(tick_clock).base_view().pulses_per_qn() == old(
                tick_clock,
            ).base_view().pulses_per_qn(),
    {
        let until_tick = match tick_clock.get_ticks(delta) {
            Some(t) => self.tick + t,
            None => self.tick,
        };
        let ghost start = self@;
        let ghost clock_start = tick_clock.base_view().tick_count();
        let ghost ppqn = tick_clock.base_view().pulses_per_qn();
        let ghost f0 = *send_midi;
        while self.tick != until_tick
            invariant
                start.tick <= self.tick <= until_tick,
                until_tick - start.tick + clock_start <= u64::MAX,
                self@ == after_ticks(start, (self.tick - start.tick) as nat),
                clock_due_within(start, ppqn, until_tick - start.tick) ==> supported_midi_version(
                    start.midi_ver,
                ),
                tick_clock.base_view().pulses_per_qn() == ppqn,
                tick_clock.base_view().tick_count() == clock_start + (self.tick - start.tick),
                forall|f: F, b: &[u8]| #[trigger] f.requires((b,)),
                *send_midi == f0,
                forall|i: int|
                    0 <= i < self.tick - start.tick ==> #[trigger] received_bytes(
                        f0,
                        tick_output(after_ticks(start, i as nat), ppqn),
                    ),
            decreases until_tick - self.tick,
        {
            let ghost done = (self.tick - start.tick) as nat;
            let ghost before = self@;
            proof {
                lemma_after_ticks_keeps(start, done);
                if self@.send_clock && self@.tick % clock_period(ppqn) == 0 {
                    assert(clock_due(start, ppqn, self.tick - start.tick));
                }
            }
            let midi_bytes = self.tick(&*tick_clock);
            tick_clock.forward_tick(1);
            let bytes = midi_bytes.as_slice();
            send_midi(bytes);
            assert(received_bytes(f0, tick_output(after_ticks(start, done), ppqn))) by {
                assert(bytes@ == tick_output(before, ppqn));
            }
        }
    }
}

proof fn lemma_join_literal3(a: Seq<char>, b: Seq<char>, c: Seq<char>, sep: char)
    ensures
        join(seq![a, b, c], sep) == a + seq![sep] + b + seq![sep] + c,
{
    let p = seq![a, b, c];
    let q = seq![b, c];
    assert(p.drop_first() =~= q);
    assert(q.drop_first() =~= seq![c]);
    assert(join(seq![c], sep) == c);
    assert(join(q, sep) == b + seq![sep] + c);
    assert(join(p, sep) == a + seq![sep] + join(q, sep));
    assert(a + seq![sep] + (b + seq![sep] + c) =~= a + seq![sep] + b + seq![sep] + c);
}

proof fn lemma_join_literal4(a: Seq<char>, b: Seq<char>, c: Seq<char>, d: Seq<char>, sep: char)
    ensures
        join(seq![a, b, c, d], sep) == a + seq![sep] + b + seq![sep] + c + seq![sep] + d,
{
    assert(seq![a, b, c, d].drop_first() =~= seq![b, c, d]);
    lemma_join_literal3(b, c, d, sep);
    assert(a + seq![sep] + (b + seq![sep] + c + seq![sep] + d) =~= a + seq![sep] + b + seq![sep]
        + c + seq![sep] + d);
}

proof fn lemma_join_split7(
    a: Seq<char>,
    b: Seq<char>,
    c: Seq<char>,
    d: Seq<char>,
    e: Seq<char>,
    f: Seq<char>,
    g: Seq<char>,
    sep: char,
)
    ensures
        join(seq![a, b, c, d, e, f, g], sep) == join(seq![a, b, c, join(seq![d, e, f, g], sep)], sep),
{
    let tail = join(seq![d, e, f, g], sep);
    let p1 = seq![a, b, c, d, e, f, g];
    let p2 = seq![b, c, d, e, f, g];
    let p3 = seq![c, d, e, f, g];
    assert(p1.drop_first() =~= p2);
    assert(p2.drop_first() =~= p3);
    assert(p3.drop_first() =~= seq![d, e, f, g]);
    assert(join(p3, sep) == c + seq![sep] + tail);
    assert(join(p2, sep) == b + seq![sep] + join(p3, sep));
    assert(join(p1, sep) == a + seq![sep] + join(p2, sep));
    let q1 = seq![a, b, c, tail];
    let q2 = seq![b, c, tail];
    let q3 = seq![c, tail];
    assert(q1.drop_first() =~= q2);
    assert(q2.drop_first() =~= q3);
    assert(q3.drop_first() =~= seq![tail]);
    assert(join(seq![tail], sep) == tail);
    assert(join(q3, sep) == c + seq![sep] + tail);
    assert(join(q2, sep) == b + seq![sep] + join(q3, sep));
    assert(join(q1, sep) == a + seq![sep] + join(q2, sep));
}

/// Reads comma-separated notes (see `notes_field`).
pub(crate) fn parse_notes(t: &str) -> (r: Result<Vec<Note>, String>)
    ensures
        r matches Ok(ns) ==> notes_field(t@, ns@),
        (exists|ns: Seq<Note>| notes_field(t@, ns)) ==> r is Ok,
        r matches Err(e) ==> e@ == notes_error(t@),
{
    let pieces = str_split(t, ',');
    let mut notes: Vec<Note> = Vec::new();
    let mut i: usize = 0;
    while i < pieces.len()
        invariant
            i <= pieces@.len(),
            str_views(pieces@) == split(t@, ','),
            notes@.len() == i,
            forall|j: int| 0 <= j < i ==> note_from_text(#[trigger] pieces@[j]@) == Some(notes@[j]),
        decreases pieces@.len() - i,
    {
        match Note::parse_fields(pieces[i]) {
            Ok(v) => {
                notes.push(v);
            },
            Err(e) => {
                assert(split(t@, ',')[i as int] == pieces@[i as int]@);
                proof {
                    let ps = split(t@, ',');
                    assert forall|j: int| 0 <= j < i implies note_from_text(#[trigger] ps[j]) is Some by {
                        assert(ps[j] == pieces@[j]@);
                    }
                    lemma_first_note_error_skip(ps, i as int);
                    assert(ps.skip(i as int)[0] == ps[i as int]);
                }
                assert forall|ns: Seq<Note>| !notes_field(t@, ns) by {
                    if notes_field(t@, ns) {
                        assert(note_from_text(split(t@, ',')[i as int]) == Some(ns[i as int]));
                    }
                }
                return Err(e);
            },
        }
        i = i + 1;
    }
    assert forall|j: int| 0 <= j < split(t@, ',').len() implies note_from_text(
        #[trigger] split(t@, ',')[j],
    ) == Some(notes@[j]) by {
        assert(split(t@, ',')[j] == pieces@[j]@);
    }
    Ok(notes)
}

/// The texts of `notes`, separated by commas (see `notes_text`).
fn notes_to_string(notes: &Vec<Note>) -> (r: String)
    ensures
        r@ == notes_text(notes@),
{
    let mut r = String::new();
    let ghost texts = notes@.map_values(|n: Note| note_text(n));
    let mut i: usize = 0;
    while i < notes.len()
        invariant
            i <= notes@.len(),
            texts == notes@.map_values(|n: Note| note_text(n)),
            r@ == join(texts.take(i as int), ','),
        decreases notes@.len() - i,
    {
        if i > 0 {
            push_char(&mut r, ',');
        }
        let t = notes[i].to_string();
        r.append(t.as_str());
        proof {
            if i > 0 {
                lemma_join_push(texts.take(i as int), texts[i as int], ',');
            }
            assert(texts.take(i as int).push(texts[i as int]) =~= texts.take(i + 1));
        }
        i = i + 1;
    }
    assert(texts.take(i as int) =~= texts);
    r
}

/// A number's decimal text is a field that reads as the number.
proof fn lemma_number_field(n: nat, max: int)
    requires
        n <= max,
    ensures
        unsigned_field(dec_digits(n), n as int, max),
        lacks(dec_digits(n), ' '),
{
    lemma_dec_int_parses(n as int);
    lemma_dec_int_lacks(n as int, ' ');
    assert(dec_int(n as int) == dec_digits(n));
}

/// The text of a list of notes is free of spaces and reads back as the notes.
proof fn lemma_notes_text_round_trip(notes: Seq<Note>)
    requires
        notes.len() > 0,
    ensures
        notes_field(notes_text(notes), notes),
        lacks(notes_text(notes), ' '),
{
    let texts = notes.map_values(|n: Note| note_text(n));
    assert forall|i: int| 0 <= i < texts.len() implies lacks(#[trigger] texts[i], ',') && lacks(
        texts[i],
        ' ',
    ) by {
        lemma_unit_texts_lack(notes[i], Velocity::Silent, Duration::End, ',');
        lemma_unit_texts_lack(notes[i], Velocity::Silent, Duration::End, ' ');
    }
    lemma_split_join(texts, ',');
    lemma_join_lacks(texts, ',', ' ');
    assert forall|i: int| 0 <= i < texts.len() implies note_from_text(#[trigger] texts[i]) == Some(
        notes[i],
    ) by {
        lemma_note_text_round_trip(notes[i]);
    }
}

/// A text made of a prefix and a rest starts with the prefix, and the rest follows it.
proof fn lemma_prefixed(p: Seq<char>, rest: Seq<char>)
    ensures
        starts_with(p + rest, p),
        (p + rest).skip(p.len() as int) == rest,
{
    assert((p + rest).take(p.len() as int) =~= p);
    assert((p + rest).skip(p.len() as int) =~= rest);
}

/// The text of each instruction: `+ <duration>`, `j <offset>`,
/// `n <chan> <note> <velocity> <duration>`,
/// `s <chan> <notes> <velocity> <duration> <pulses> <len> <offset>` and
/// `cc <chan> <control> <value>`, with single spaces between the arguments.
pub proof fn lemma_clip_text_forms(c: ClipInst)
    ensures
        c matches ClipInst::Tick(d) ==> clip_text(c) == "+ "@ + duration_text(d),
        c matches ClipInst::Jmp(o) ==> clip_text(c) == "j "@ + dec_int(o as int),
        c matches ClipInst::Call(SeqCall::QueueNote(ch, n, v, d)) ==> clip_text(c) == "n "@
            + dec_digits(ch as nat) + " "@ + note_text(n) + " "@ + velocity_text(v) + " "@
            + duration_text(d),
        c matches ClipInst::Call(SeqCall::QueueSequence(ch, ns, v, d, p, l, o)) ==> clip_text(c)
            == "s "@ + dec_digits(ch as nat) + " "@ + notes_text(ns@) + " "@ + velocity_text(v)
            + " "@ + duration_text(d) + " "@ + dec_digits(p as nat) + " "@ + dec_digits(l as nat)
            + " "@ + dec_digits(o as nat),
        c matches ClipInst::Call(SeqCall::QueueControl(ch, cc, v)) ==> clip_text(c) == "cc "@
            + dec_digits(ch as nat) + " "@ + dec_digits(cc as nat) + " "@ + dec_digits(v as nat),
{
    reveal_strlit("+ ");
    reveal_strlit("j ");
    reveal_strlit("n ");
    reveal_strlit("s ");
    reveal_strlit("cc ");
    reveal_strlit(" ");
    assert("+ "@ =~= seq!['+', ' ']);
    assert("j "@ =~= seq!['j', ' ']);
    assert("n "@ =~= seq!['n', ' ']);
    assert("s "@ =~= seq!['s', ' ']);
    assert("cc "@ =~= seq!['c', 'c', ' ']);
    assert(" "@ =~= seq![' ']);
    match c {
        ClipInst::Call(SeqCall::QueueNote(ch, n, v, d)) => {
            let (a, b, e, f) = (dec_digits(ch as nat), note_text(n), velocity_text(v), duration_text(d));
            lemma_join_literal4(a, b, e, f, ' ');
            assert(seq!['n', ' '] + (a + seq![' '] + b + seq![' '] + e + seq![' '] + f) =~= "n "@ + a
                + " "@ + b + " "@ + e + " "@ + f);
        },
        ClipInst::Call(SeqCall::QueueSequence(ch, ns, v, d, p, l, o)) => {
            let (a, b, e, f) = (dec_digits(ch as nat), notes_text(ns@), velocity_text(v), duration_text(d));
            let (g, h, i) = (dec_digits(p as nat), dec_digits(l as nat), dec_digits(o as nat));
            lemma_join_split7(a, b, e, f, g, h, i, ' ');
            lemma_join_literal4(f, g, h, i, ' ');
            lemma_join_literal4(a, b, e, join(seq![f, g, h, i], ' '), ' ');
            assert(seq!['s', ' '] + (a + seq![' '] + b + seq![' '] + e + seq![' '] + (f + seq![' ']
                + g + seq![' '] + h + seq![' '] + i)) =~= "s "@ + a + " "@ + b + " "@ + e + " "@ + f
                + " "@ + g + " "@ + h + " "@ + i);
        },
        ClipInst::Call(SeqCall::QueueControl(ch, cc, v)) => {
            let (a, b, e) = (dec_digits(ch as nat), dec_digits(cc as nat), dec_digits(v as nat));
            lemma_join_literal3(a, b, e, ' ');
            assert(seq!['c', 'c', ' '] + (a + seq![' '] + b + seq![' '] + e) =~= "cc "@ + a + " "@ + b
                + " "@ + e);
        },
        _ => {},
    }
}

/// Each (channel, note) pair has its own allocation slot, from which its channel reads back.
pub proof fn lemma_note_slots(c1: u8, n1: u8, c2: u8, n2: u8)
    ensures
        note_slot(c1, n1) == note_slot(c2, n2) ==> c1 == c2 && n1 == n2,
        slot_chan(note_slot(c1, n1)) == c1,
{
}

/// The tick counts of durations: ticks count as themselves, `b` beats of a bar of `per_bar`
/// beats last `4 * b / per_bar` quarter notes, the start of a held note has no length and its end
/// comes at once.
pub proof fn lemma_duration_tick_counts(ppqn: u32, t: u64, b: u64, per_bar: u64)
    ensures
        duration_ticks(ppqn, Duration::Ticks(t)) == Some(t),
        duration_ticks(ppqn, Duration::Beats(b, per_bar)) == Some(
            ((b * 4 * ppqn) / (per_bar as int)) as u64,
        ),
        duration_ticks(ppqn, Duration::Begin) is None,
        duration_ticks(ppqn, Duration::End) == Some(0u64),
{
}

/// Printing a clip instruction whose text reads back (see `clip_text_readable`) and parsing the
/// text gives the instruction back.
pub proof fn lemma_clip_text_round_trip(c: ClipInst)
    requires
        clip_text_readable(c),
    ensures
        clip_parses_to(clip_text(c), c),
{
    let s = clip_text(c);
    match c {
        ClipInst::Tick(d) => {
            lemma_prefixed(seq!['+', ' '], duration_text(d));
            lemma_duration_text_round_trip(d);
        },
        ClipInst::Jmp(o) => {
            lemma_prefixed(seq!['j', ' '], dec_int(o as int));
            lemma_dec_int_parses(o as int);
            assert(!starts_with(s, seq!['+', ' '])) by {
                assert(s.take(2)[0] == 'j');
            }
        },
        ClipInst::Call(SeqCall::QueueNote(chan, note, velocity, duration)) => {
            let pieces = seq![
                dec_digits(chan as nat),
                note_text(note),
                velocity_text(velocity),
                duration_text(duration),
            ];
            lemma_prefixed(seq!['n', ' '], join(pieces, ' '));
            assert(!starts_with(s, seq!['+', ' '])) by {
                assert(s.take(2)[0] == 'n');
            }
            assert(!starts_with(s, seq!['j', ' '])) by {
                assert(s.take(2)[0] == 'n');
            }
            assert(s != seq!['n', 'o', 'p']) by {
                assert(s[1] == ' ');
            }
            lemma_number_field(chan as nat, 255);
            lemma_unit_texts_lack(note, velocity, duration, ' ');
            lemma_split_join(pieces, ' ');
            lemma_note_text_round_trip(note);
            lemma_velocity_text_round_trip(velocity);
            lemma_duration_text_round_trip(duration);
        },
        ClipInst::Call(
            SeqCall::QueueSequence(chan, notes, velocity, duration, pulses, len, offset),
        ) => {
            let pieces = seq![
                dec_digits(chan as nat),
                notes_text(notes@),
                velocity_text(velocity),
                duration_text(duration),
                dec_digits(pulses as nat),
                dec_digits(len as nat),
                dec_digits(offset as nat),
            ];
            lemma_prefixed(seq!['s', ' '], join(pieces, ' '));
            assert(!starts_with(s, seq!['+', ' '])) by {
                assert(s.take(2)[0] == 's');
            }
            assert(!starts_with(s, seq!['j', ' '])) by {
                assert(s.take(2)[0] == 's');
            }
            assert(!starts_with(s, seq!['n', ' '])) by {
                assert(s.take(2)[0] == 's');
            }
            assert(s != seq!['n', 'o', 'p']) by {
                assert(s[0] == 's');
            }
            lemma_number_field(chan as nat, 255);
            lemma_number_field(pulses as nat, u32::MAX as int);
            lemma_number_field(len as nat, u32::MAX as int);
            lemma_number_field(offset as nat, u32::MAX as int);
            lemma_notes_text_round_trip(notes@);
            lemma_unit_texts_lack(Note::Raw(0), velocity, duration, ' ');
            assert forall|i: int| 0 <= i < pieces.len() implies lacks(#[trigger] pieces[i], ' ') by {}
            lemma_split_join(pieces, ' ');
            lemma_velocity_text_round_trip(velocity);
            lemma_duration_text_round_trip(duration);
        },
        ClipInst::Call(SeqCall::QueueControl(chan, control, value)) => {
            let pieces = seq![
                dec_digits(chan as nat),
                dec_digits(control as nat),
                dec_digits(value as nat),
            ];
            lemma_prefixed(seq!['c', 'c', ' '], join(pieces, ' '));
            assert(!starts_with(s, seq!['+', ' '])) by {
                assert(s.take(2)[0] == 'c');
            }
            assert(!starts_with(s, seq!['j', ' '])) by {
                assert(s.take(2)[0] == 'c');
            }
            assert(!starts_with(s, seq!['n', ' '])) by {
                assert(s.take(2)[0] == 'c');
            }
            assert(!starts_with(s, seq!['s', ' '])) by {
                assert(s.take(2)[0] == 'c');
            }
            assert(s != seq!['n', 'o', 'p']) by {
                assert(s[0] == 'c');
            }
            lemma_number_field(chan as nat, 255);
            lemma_number_field(control as nat, 255);
            lemma_number_field(value as nat, 255);
            assert forall|i: int| 0 <= i < pieces.len() implies lacks(#[trigger] pieces[i], ' ') by {}
            lemma_split_join(pieces, ' ');
        },
    }
}

impl ClipInst {
    /// Parses the text form of a clip instruction (see `clip_parses_to`). Arguments that do not
    /// read fail with the message of their own parser.
    pub fn parse(s: &str) -> (r: Result<ClipInst, String>)
        ensures
            r matches Ok(c) ==> clip_parses_to(s@, c),
            (exists|c: ClipInst| clip_parses_to(s@, c)) ==> r is Ok,
            r matches Err(e) ==> e@ == clip_error(s@),
            clip_arity_error(s@) matches Some(m) ==> (r matches Err(e) && e@ == m),
            clip_unknown(s@) ==> (r matches Err(e) && e@ == "unknown instruction: "@ + s@),
    {
        let plus = "+ ";
        let jmp = "j ";
        let nop = "nop";
        let note = "n ";
        let sequence = "s ";
        let control = "cc ";
        proof {
            reveal_strlit("+ ");
            reveal_strlit("j ");
            reveal_strlit("nop");
            reveal_strlit("n ");
            reveal_strlit("s ");
            reveal_strlit("cc ");
        }
        assert(plus@ =~= seq!['+', ' ']);
        assert(jmp@ =~= seq!['j', ' ']);
        assert(nop@ =~= seq!['n', 'o', 'p']);
        assert(note@ =~= seq!['n', ' ']);
        assert(sequence@ =~= seq!['s', ' ']);
        assert(control@ =~= seq!['c', 'c', ' ']);
        if let Some(suffix) = str_strip_prefix(s, plus) {
            match Duration::parse(suffix) {
                Ok(d) => Ok(ClipInst::Tick(d)),
                Err(e) => Err(e),
            }
        } else if let Some(suffix) = str_strip_prefix(s, jmp) {
            match parse_i32(suffix) {
                Ok(o) => Ok(ClipInst::Jmp(o)),
                Err(e) => Err(e),
            }
        } else if str_eq(s, nop) {
            // nop is an alias for "j 0"
            Ok(ClipInst::Jmp(0))
        } else if let Some(suffix) = str_strip_prefix(s, note) {
            let parts = str_split(suffix, ' ');
            if parts.len() < 4 {
                return Err("'n' requires 4 arguments".to_string());
            }
            assert(parts@[0]@ == split(suffix@, ' ')[0]);
            assert(parts@[1]@ == split(suffix@, ' ')[1]);
            assert(parts@[2]@ == split(suffix@, ' ')[2]);
            assert(parts@[3]@ == split(suffix@, ' ')[3]);
            let chan = match parse_u8(parts[0]) {
                Ok(v) => v,
                Err(e) => {
                    return Err(e);
                },
            };
            let n = match Note::parse_fields(parts[1]) {
                Ok(v) => v,
                Err(e) => {
                    return Err(e);
                },
            };
            let velocity = match Velocity::parse(parts[2]) {
                Ok(v) => v,
                Err(e) => {
                    return Err(e);
                },
            };
            let duration = match Duration::parse(parts[3]) {
                Ok(v) => v,
                Err(e) => {
                    return Err(e);
                },
            };
            Ok(ClipInst::Call(SeqCall::QueueNote(chan, n, velocity, duration)))
        } else if let Some(suffix) = str_strip_prefix(s, sequence) {
            let parts = str_split(suffix, ' ');
            if parts.len() < 7 {
                return Err("'s' requires 7 arguments".to_string());
            }
            assert(parts@[0]@ == split(suffix@, ' ')[0]);
            assert(parts@[1]@ == split(suffix@, ' ')[1]);
            assert(parts@[2]@ == split(suffix@, ' ')[2]);
            assert(parts@[3]@ == split(suffix@, ' ')[3]);
            assert(parts@[4]@ == split(suffix@, ' ')[4]);
            assert(parts@[5]@ == split(suffix@, ' ')[5]);
            assert(parts@[6]@ == split(suffix@, ' ')[6]);
            let chan = match parse_u8(parts[0]) {
                Ok(v) => v,
                Err(e) => {
                    return Err(e);
                },
            };
            let notes = match parse_notes(parts[1]) {
                Ok(ns) => ns,
                Err(e) => {
                    return Err(e);
                },
            };
            let velocity = match Velocity::parse(parts[2]) {
                Ok(v) => v,
                Err(e) => {
                    return Err(e);
                },
            };
            let duration = match Duration::parse(parts[3]) {
                Ok(v) => v,
                Err(e) => {
                    return Err(e);
                },
            };
            let pulses = match parse_u32(parts[4]) {
                Ok(v) => v,
                Err(e) => {
                    return Err(e);
                },
            };
            let length = match parse_u32(parts[5]) {
                Ok(v) => v,
                Err(e) => {
                    return Err(e);
                },
            };
            let offset = match parse_u32(parts[6]) {
                Ok(v) => v,
                Err(e) => {
                    return Err(e);
                },
            };
            Ok(
                ClipInst::Call(
                    SeqCall::QueueSequence(chan, notes, velocity, duration, pulses, length, offset),
                ),
            )
        } else if let Some(suffix) = str_strip_prefix(s, control) {
            let parts = str_split(suffix, ' ');
            if parts.len() < 3 {
                return Err("'cc' requires 3 arguments".to_string());
            }
            assert(parts@[0]@ == split(suffix@, ' ')[0]);
            assert(parts@[1]@ == split(suffix@, ' ')[1]);
            assert(parts@[2]@ == split(suffix@, ' ')[2]);
            let chan = match parse_u8(parts[0]) {
                Ok(v) => v,
                Err(e) => {
                    return Err(e);
                },
            };
            let cc = match parse_u8(parts[1]) {
                Ok(v) => v,
                Err(e) => {
                    return Err(e);
                },
            };
            let value = match parse_u8(parts[2]) {
                Ok(v) => v,
                Err(e) => {
                    return Err(e);
                },
            };
            Ok(ClipInst::Call(SeqCall::QueueControl(chan, cc, value)))
        } else {
            let mut msg = String::new();
            msg.append("unknown instruction: ");
            msg.append(s);
            Err(msg)
        }
    }

    /// The text form of this instruction (see `clip_text`).
    #[verifier::spinoff_prover]
    pub fn to_string(&self) -> (r: String)
        ensures
            r@ == clip_text(*self),
    {
        let mut r = String::new();
        match self {
            ClipInst::Tick(duration) => {
                r.append("+ ");
                let t = duration.to_string();
                r.append(t.as_str());
                proof {
                    reveal_strlit("+ ");
                }
                assert(r@ =~= clip_text(*self));
            },
            ClipInst::Jmp(offset) => {
                r.append("j ");
                append_i64(&mut r, *offset as i64);
                proof {
                    reveal_strlit("j ");
                }
                assert(r@ =~= clip_text(*self));
            },
            ClipInst::Call(SeqCall::QueueNote(chan, note, velocity, duration)) => {
                r.append("n ");
                append_u64(&mut r, *chan as u64);
                push_char(&mut r, ' ');
                let t = note.to_string();
                r.append(t.as_str());
                push_char(&mut r, ' ');
                let t = velocity.to_string();
                r.append(t.as_str());
                push_char(&mut r, ' ');
                let t = duration.to_string();
                r.append(t.as_str());
                proof {
                    reveal_strlit("n ");
                    lemma_join_literal4(
                        dec_digits(*chan as nat),
                        note_text(*note),
                        velocity_text(*velocity),
                        duration_text(*duration),
                        ' ',
                    );
                }
                assert(r@ =~= clip_text(*self));
            },
            ClipInst::Call(
                SeqCall::QueueSequence(chan, notes, velocity, duration, pulses, len, offset),
            ) => {
                r.append("s ");
                append_u64(&mut r, *chan as u64);
                push_char(&mut r, ' ');
                let t = notes_to_string(notes);
                r.append(t.as_str());
                push_char(&mut r, ' ');
                let t = velocity.to_string();
                r.append(t.as_str());
                push_char(&mut r, ' ');
                let t = duration.to_string();
                r.append(t.as_str());
                push_char(&mut r, ' ');
                append_u64(&mut r, *pulses as u64);
                push_char(&mut r, ' ');
                append_u64(&mut r, *len as u64);
                push_char(&mut r, ' ');
                append_u64(&mut r, *offset as u64);
                proof {
                    reveal_strlit("s ");
                    lemma_join_literal4(
                        duration_text(*duration),
                        dec_digits(*pulses as nat),
                        dec_digits(*len as nat),
                        dec_digits(*offset as nat),
                        ' ',
                    );
                    lemma_join_literal4(
                        dec_digits(*chan as nat),
                        notes_text(notes@),
                        velocity_text(*velocity),
                        join(
                            seq![
                                duration_text(*duration),
                                dec_digits(*pulses as nat),
                                dec_digits(*len as nat),
                                dec_digits(*offset as nat),
                            ],
                            ' ',
                        ),
                        ' ',
                    );
                    lemma_join_split7(
                        dec_digits(*chan as nat),
                        notes_text(notes@),
                        velocity_text(*velocity),
                        duration_text(*duration),
                        dec_digits(*pulses as nat),
                        dec_digits(*len as nat),
                        dec_digits(*offset as nat),
                        ' ',
                    );
                }
                assert(r@ =~= clip_text(*self));
            },
            ClipInst::Call(SeqCall::QueueControl(chan, control, value)) => {
                r.append("cc ");
                append_u64(&mut r, *chan as u64);
                push_char(&mut r, ' ');
                append_u64(&mut r, *control as u64);
                push_char(&mut r, ' ');
                append_u64(&mut r, *value as u64);
                proof {
                    reveal_strlit("cc ");
                    lemma_join_literal3(
                        dec_digits(*chan as nat),
                        dec_digits(*control as nat),
                        dec_digits(*value as nat),
                        ' ',
                    );
                }
                assert(r@ =~= clip_text(*self));
            },
        }
        r
    }
}

impl core::str::FromStr for ClipInst {
    type Err = String;

    fn from_str(s: &str) -> (r: Result<Self, String>)
        ensures
            r matches Ok(c) ==> clip_parses_to(s@, c),
            (exists|c: ClipInst| clip_parses_to(s@, c)) ==> r is Ok,
            clip_arity_error(s@) matches Some(m) ==> (r matches Err(e) && e@ == m),
            clip_unknown(s@) ==> (r matches Err(e) && e@ == "unknown instruction: "@ + s@),
    {
        ClipInst::parse(s)
    }
}

impl Default for MidiSequencer {
    fn default() -> (r: Self)
        ensures
            r@ == (SequencerState {
                tick: 0,
                send_clock: true,
                midi_ver: 10,
                queue: Map::empty(),
                allocated: Map::empty(),
                chan_map: Map::empty(),
            }),
    {
        Self::new(true, 10)
    }
}

} // verus!
