//! Text helpers shared by the parsers and printers of the library: a model of decimal numbers,
//! prefix and separator handling on character sequences, and the matching executable functions.
use vstd::prelude::*;

verus! {

// === Decimal numbers ========================================================================

pub open spec fn is_digit(c: char) -> bool {
    '0' <= c && c <= '9'
}

pub open spec fn digit_value(c: char) -> int {
    (c as int) - ('0' as int)
}

pub open spec fn all_digits(s: Seq<char>) -> bool {
    forall|i: int| 0 <= i < s.len() ==> #[trigger] is_digit(s[i])
}

/// The value of a sequence of decimal digits, most significant first.
pub open spec fn digits_value(s: Seq<char>) -> int
    decreases s.len(),
{
    if s.len() == 0 {
        0
    } else {
        digits_value(s.drop_last()) * 10 + digit_value(s.last())
    }
}

/// What std's integer parsing accepts for an unsigned type before the range check: an optional
/// `+` followed by one or more ASCII digits.
pub open spec fn decimal_unsigned(s: Seq<char>) -> Option<int> {
    let d = if s.len() > 0 && s[0] == '+' {
        s.drop_first()
    } else {
        s
    };
    if d.len() > 0 && all_digits(d) {
        Some(digits_value(d))
    } else {
        None
    }
}

/// What std's integer parsing accepts for a signed type before the range check: an optional `+`
/// or `-` followed by one or more ASCII digits.
pub open spec fn decimal_signed(s: Seq<char>) -> Option<int> {
    if s.len() > 0 && s[0] == '-' {
        let d = s.drop_first();
        if d.len() > 0 && all_digits(d) {
            Some(-digits_value(d))
        } else {
            None
        }
    } else {
        decimal_unsigned(s)
    }
}

/// The text `s` denotes an unsigned integer in `0..=max`.
pub open spec fn unsigned_in_range(s: Seq<char>, max: int) -> bool {
    decimal_unsigned(s) matches Some(v) && v <= max
}

/// The text `s` denotes a signed integer in `min..=max`.
pub open spec fn signed_in_range(s: Seq<char>, min: int, max: int) -> bool {
    decimal_signed(s) matches Some(v) && min <= v <= max
}

pub open spec fn digit_char(d: int) -> char {
    (d + 48) as char
}

/// Decimal digits of `n`, without leading zeros.
pub open spec fn dec_digits(n: nat) -> Seq<char>
    decreases n,
{
    if n < 10 {
        seq![digit_char(n as int)]
    } else {
        dec_digits(n / 10).push(digit_char((n % 10) as int))
    }
}

/// Decimal text of an integer, with a leading `-` when negative.
pub open spec fn dec_int(v: int) -> Seq<char> {
    if v < 0 {
        seq!['-'] + dec_digits((-v) as nat)
    } else {
        dec_digits(v as nat)
    }
}

pub proof fn lemma_dec_digits(n: nat)
    ensures
        dec_digits(n).len() > 0,
        all_digits(dec_digits(n)),
        digits_value(dec_digits(n)) == n,
    decreases n,
{
    assert(digit_value(digit_char((n % 10) as int)) == n % 10);
    if n < 10 {
        assert(seq![digit_char(n as int)].drop_last() =~= Seq::<char>::empty());
        assert(digits_value(dec_digits(n)) == digits_value(Seq::<char>::empty()) * 10 + digit_value(digit_char(n as int)));
    } else {
        lemma_dec_digits(n / 10);
        let d = dec_digits(n);
        assert(d.drop_last() =~= dec_digits(n / 10));
        assert forall|i: int| 0 <= i < d.len() implies #[trigger] is_digit(d[i]) by {
            if i < d.len() - 1 {
                assert(d[i] == dec_digits(n / 10)[i]);
            }
        }
        assert(d.last() == digit_char((n % 10) as int));
        assert(digits_value(d) == digits_value(d.drop_last()) * 10 + digit_value(d.last()));
        assert(n == (n / 10) * 10 + n % 10) by (nonlinear_arith);
    }
}

/// Printing an integer in decimal and parsing it back gives the integer.
pub proof fn lemma_dec_int_parses(v: int)
    ensures
        v >= 0 ==> decimal_unsigned(dec_int(v)) == Some(v),
        decimal_signed(dec_int(v)) == Some(v),
        dec_int(v).len() > 0,
        forall|i: int| 0 <= i < dec_int(v).len() ==> is_digit(#[trigger] dec_int(v)[i]) || dec_int(v)[i] == '-',
{
    if v < 0 {
        let m = (-v) as nat;
        lemma_dec_digits(m);
        assert((seq!['-'] + dec_digits(m)).drop_first() =~= dec_digits(m));
        assert forall|i: int| 0 <= i < dec_int(v).len() implies is_digit(#[trigger] dec_int(v)[i]) || dec_int(v)[i] == '-' by {
            if i > 0 {
                assert(dec_int(v)[i] == dec_digits(m)[i - 1]);
            }
        }
    } else {
        lemma_dec_digits(v as nat);
        assert(is_digit(dec_int(v)[0]));
    }
}

// === Character sequences ====================================================================

pub open spec fn starts_with(s: Seq<char>, p: Seq<char>) -> bool {
    p.len() <= s.len() && s.take(p.len() as int) == p
}

pub open spec fn ends_with_char(s: Seq<char>, c: char) -> bool {
    s.len() > 0 && s.last() == c
}

/// `s` with every leading repetition of the non-empty pattern `p` removed.
pub open spec fn trim_start_all(s: Seq<char>, p: Seq<char>) -> Seq<char>
    decreases s.len(),
{
    if p.len() > 0 && starts_with(s, p) {
        trim_start_all(s.skip(p.len() as int), p)
    } else {
        s
    }
}

/// `s` with every trailing `c` removed.
pub open spec fn trim_end_all(s: Seq<char>, c: char) -> Seq<char>
    decreases s.len(),
{
    if ends_with_char(s, c) {
        trim_end_all(s.drop_last(), c)
    } else {
        s
    }
}

/// The pieces of `cur + s` between occurrences of `sep`, where `cur` is the piece in progress.
pub open spec fn split_from(cur: Seq<char>, s: Seq<char>, sep: char) -> Seq<Seq<char>>
    decreases s.len(),
{
    if s.len() == 0 {
        seq![cur]
    } else if s[0] == sep {
        seq![cur] + split_from(Seq::empty(), s.drop_first(), sep)
    } else {
        split_from(cur.push(s[0]), s.drop_first(), sep)
    }
}

/// The pieces of `s` between occurrences of `sep`; there is always at least one.
pub open spec fn split(s: Seq<char>, sep: char) -> Seq<Seq<char>> {
    split_from(Seq::empty(), s, sep)
}

/// The pieces joined with `sep` between them.
pub open spec fn join(pieces: Seq<Seq<char>>, sep: char) -> Seq<char>
    decreases pieces.len(),
{
    if pieces.len() == 0 {
        Seq::empty()
    } else if pieces.len() == 1 {
        pieces[0]
    } else {
        pieces[0] + seq![sep] + join(pieces.drop_first(), sep)
    }
}

pub open spec fn lacks(s: Seq<char>, c: char) -> bool {
    forall|i: int| 0 <= i < s.len() ==> #[trigger] s[i] != c
}

pub open spec fn str_views(v: Seq<&str>) -> Seq<Seq<char>> {
    v.map_values(|x: &str| x@)
}

pub proof fn lemma_split_from_nonempty(cur: Seq<char>, s: Seq<char>, sep: char)
    ensures
        split_from(cur, s, sep).len() >= 1,
    decreases s.len(),
{
    if s.len() > 0 {
        if s[0] == sep {
            lemma_split_from_nonempty(Seq::empty(), s.drop_first(), sep);
        } else {
            lemma_split_from_nonempty(cur.push(s[0]), s.drop_first(), sep);
        }
    }
}

/// Splitting always gives at least one piece.
pub proof fn lemma_split_nonempty(s: Seq<char>, sep: char)
    ensures
        split(s, sep).len() >= 1,
{
    lemma_split_from_nonempty(Seq::empty(), s, sep);
}

pub proof fn lemma_split_from_plain(cur: Seq<char>, a: Seq<char>, rest: Seq<char>, sep: char)
    requires
        lacks(a, sep),
    ensures
        split_from(cur, a + rest, sep) == split_from(cur + a, rest, sep),
    decreases a.len(),
{
    if a.len() == 0 {
        assert(a + rest =~= rest);
        assert(cur + a =~= cur);
    } else {
        assert((a + rest)[0] == a[0]);
        assert((a + rest).drop_first() =~= a.drop_first() + rest);
        lemma_split_from_plain(cur.push(a[0]), a.drop_first(), rest, sep);
        assert(cur.push(a[0]) + a.drop_first() =~= cur + a);
    }
}

/// A piece free of the separator, followed by the separator, splits off as one piece.
pub proof fn lemma_split_cons(a: Seq<char>, rest: Seq<char>, sep: char)
    requires
        lacks(a, sep),
    ensures
        split(a + seq![sep] + rest, sep) == seq![a] + split(rest, sep),
{
    let s = a + seq![sep] + rest;
    assert(s =~= a + (seq![sep] + rest));
    lemma_split_from_plain(Seq::empty(), a, seq![sep] + rest, sep);
    assert(Seq::<char>::empty() + a =~= a);
    assert((seq![sep] + rest).drop_first() =~= rest);
}

/// Text free of the separator is a single piece.
pub proof fn lemma_split_single(a: Seq<char>, sep: char)
    requires
        lacks(a, sep),
    ensures
        split(a, sep) == seq![a],
{
    lemma_split_from_plain(Seq::empty(), a, Seq::empty(), sep);
    assert(a + Seq::<char>::empty() =~= a);
    assert(Seq::<char>::empty() + a =~= a);
}

/// Joining pieces free of the separator and splitting again gives the pieces back.
pub proof fn lemma_split_join(pieces: Seq<Seq<char>>, sep: char)
    requires
        pieces.len() > 0,
        forall|i: int| 0 <= i < pieces.len() ==> lacks(#[trigger] pieces[i], sep),
    ensures
        split(join(pieces, sep), sep) == pieces,
    decreases pieces.len(),
{
    if pieces.len() == 1 {
        lemma_split_single(pieces[0], sep);
        assert(seq![pieces[0]] =~= pieces);
    } else {
        let rest = pieces.drop_first();
        assert forall|i: int| 0 <= i < rest.len() implies lacks(#[trigger] rest[i], sep) by {
            assert(rest[i] == pieces[i + 1]);
        }
        lemma_split_join(rest, sep);
        lemma_split_cons(pieces[0], join(rest, sep), sep);
        assert(seq![pieces[0]] + rest =~= pieces);
    }
}

/// Two texts free of `c` are free of it together.
pub proof fn lemma_lacks_concat(a: Seq<char>, b: Seq<char>, c: char)
    requires
        lacks(a, c),
        lacks(b, c),
    ensures
        lacks(a + b, c),
{
    assert forall|i: int| 0 <= i < (a + b).len() implies #[trigger] (a + b)[i] != c by {
        if i < a.len() {
            assert((a + b)[i] == a[i]);
        } else {
            assert((a + b)[i] == b[i - a.len()]);
        }
    }
}

/// Pieces free of `c`, joined by another separator, are free of `c`.
pub proof fn lemma_join_lacks(pieces: Seq<Seq<char>>, sep: char, c: char)
    requires
        sep != c,
        forall|i: int| 0 <= i < pieces.len() ==> lacks(#[trigger] pieces[i], c),
    ensures
        lacks(join(pieces, sep), c),
    decreases pieces.len(),
{
    if pieces.len() == 0 {
    } else if pieces.len() == 1 {
        assert(lacks(pieces[0], c));
    } else {
        let rest = pieces.drop_first();
        assert forall|i: int| 0 <= i < rest.len() implies lacks(#[trigger] rest[i], c) by {
            assert(rest[i] == pieces[i + 1]);
        }
        lemma_join_lacks(rest, sep, c);
        assert(lacks(pieces[0], c));
        assert(lacks(seq![sep], c));
        lemma_lacks_concat(pieces[0], seq![sep], c);
        lemma_lacks_concat(pieces[0] + seq![sep], join(rest, sep), c);
    }
}

/// Joining one more piece appends the separator and the piece.
pub proof fn lemma_join_push(pieces: Seq<Seq<char>>, x: Seq<char>, sep: char)
    requires
        pieces.len() > 0,
    ensures
        join(pieces.push(x), sep) == join(pieces, sep) + seq![sep] + x,
    decreases pieces.len(),
{
    let longer = pieces.push(x);
    assert(longer[0] == pieces[0]);
    if pieces.len() == 1 {
        assert(longer.drop_first() =~= seq![x]);
        assert(join(seq![x], sep) == x);
        assert(join(longer, sep) == pieces[0] + seq![sep] + x);
        assert(join(pieces, sep) == pieces[0]);
    } else {
        lemma_join_push(pieces.drop_first(), x, sep);
        assert(longer.drop_first() =~= pieces.drop_first().push(x));
        assert(join(longer, sep) == pieces[0] + seq![sep] + join(longer.drop_first(), sep));
        assert(join(pieces, sep) == pieces[0] + seq![sep] + join(pieces.drop_first(), sep));
        assert(pieces[0] + seq![sep] + (join(pieces.drop_first(), sep) + seq![sep] + x) =~= (
        pieces[0] + seq![sep] + join(pieces.drop_first(), sep)) + seq![sep] + x);
    }
}

/// A text whose `i`-th character differs from that of `p` does not start with `p`.
pub proof fn lemma_not_starts_at(s: Seq<char>, p: Seq<char>, i: int)
    requires
        0 <= i < p.len(),
        i < s.len(),
        s[i] != p[i],
    ensures
        !starts_with(s, p),
{
    if starts_with(s, p) {
        assert(s.take(p.len() as int)[i] == s[i]);
    }
}

pub proof fn lemma_trim_end_all_stops(a: Seq<char>, c: char)
    requires
        !ends_with_char(a, c),
    ensures
        trim_end_all(a.push(c), c) == a,
{
    assert(a.push(c).drop_last() =~= a);
    assert(ends_with_char(a.push(c), c));
    assert(trim_end_all(a, c) == a);
}

pub proof fn lemma_trim_start_all_stops(s: Seq<char>, p: Seq<char>)
    requires
        p.len() > 0,
        !starts_with(s, p),
    ensures
        trim_start_all(s, p) == s,
{
}

pub proof fn lemma_trim_start_all_prefix(p: Seq<char>, rest: Seq<char>)
    requires
        p.len() > 0,
        !starts_with(rest, p),
    ensures
        trim_start_all(p + rest, p) == rest,
{
    let s = p + rest;
    assert(s.take(p.len() as int) =~= p);
    assert(s.skip(p.len() as int) =~= rest);
    assert(starts_with(s, p));
    lemma_trim_start_all_stops(rest, p);
}

// === Executable helpers =====================================================================

/// Appends one character to a string (std's `String::push`).
#[verifier::external_body]
pub(crate) fn push_char(s: &mut String, c: char)
    ensures
        final(s)@ == old(s)@.push(c),
{
    s.push(c);
}

/// The message of the error that std's `<u8 as FromStr>::from_str` returns for a text it
/// rejects; it depends on the text alone.
pub uninterp spec fn u8_parse_error(s: Seq<char>) -> Seq<char>;

/// Parses a `u8` with std's `<u8 as FromStr>::from_str`; the error is its message.
#[verifier::external_body]
pub(crate) fn parse_u8(s: &str) -> (r: Result<u8, String>)
    ensures
        r is Ok <==> unsigned_in_range(s@, 255),
        r matches Ok(v) ==> decimal_unsigned(s@) == Some(v as int),
        r matches Err(e) ==> e@ == u8_parse_error(s@),
{
    match s.parse::<u8>() {
        Ok(v) => Ok(v),
        Err(e) => Err(format!("{}", e)),
    }
}

/// The message of the error that std's `<i8 as FromStr>::from_str` returns for a text it
/// rejects; it depends on the text alone.
pub uninterp spec fn i8_parse_error(s: Seq<char>) -> Seq<char>;

/// Parses an `i8` with std's `<i8 as FromStr>::from_str`; the error is its message.
#[verifier::external_body]
pub(crate) fn parse_i8(s: &str) -> (r: Result<i8, String>)
    ensures
        r is Ok <==> signed_in_range(s@, -128, 127),
        r matches Ok(v) ==> decimal_signed(s@) == Some(v as int),
        r matches Err(e) ==> e@ == i8_parse_error(s@),
{
    match s.parse::<i8>() {
        Ok(v) => Ok(v),
        Err(e) => Err(format!("{}", e)),
    }
}

/// The message of the error that std's `<u32 as FromStr>::from_str` returns for a text it
/// rejects; it depends on the text alone.
pub uninterp spec fn u32_parse_error(s: Seq<char>) -> Seq<char>;

/// Parses a `u32` with std's `<u32 as FromStr>::from_str`; the error is its message.
#[verifier::external_body]
pub(crate) fn parse_u32(s: &str) -> (r: Result<u32, String>)
    ensures
        r is Ok <==> unsigned_in_range(s@, u32::MAX as int),
        r matches Ok(v) ==> decimal_unsigned(s@) == Some(v as int),
        r matches Err(e) ==> e@ == u32_parse_error(s@),
{
    match s.parse::<u32>() {
        Ok(v) => Ok(v),
        Err(e) => Err(format!("{}", e)),
    }
}

/// The message of the error that std's `<u64 as FromStr>::from_str` returns for a text it
/// rejects; it depends on the text alone.
pub uninterp spec fn u64_parse_error(s: Seq<char>) -> Seq<char>;

/// Parses a `u64` with std's `<u64 as FromStr>::from_str`; the error is its message.
#[verifier::external_body]
pub(crate) fn parse_u64(s: &str) -> (r: Result<u64, String>)
    ensures
        r is Ok <==> unsigned_in_range(s@, u64::MAX as int),
        r matches Ok(v) ==> decimal_unsigned(s@) == Some(v as int),
        r matches Err(e) ==> e@ == u64_parse_error(s@),
{
    match s.parse::<u64>() {
        Ok(v) => Ok(v),
        Err(e) => Err(format!("{}", e)),
    }
}

/// The message of the error that std's `<i32 as FromStr>::from_str` returns for a text it
/// rejects; it depends on the text alone.
pub uninterp spec fn i32_parse_error(s: Seq<char>) -> Seq<char>;

/// Parses an `i32` with std's `<i32 as FromStr>::from_str`; the error is its message.
#[verifier::external_body]
pub(crate) fn parse_i32(s: &str) -> (r: Result<i32, String>)
    ensures
        r is Ok <==> signed_in_range(s@, i32::MIN as int, i32::MAX as int),
        r matches Ok(v) ==> decimal_signed(s@) == Some(v as int),
        r matches Err(e) ==> e@ == i32_parse_error(s@),
{
    match s.parse::<i32>() {
        Ok(v) => Ok(v),
        Err(e) => Err(format!("{}", e)),
    }
}

/// The message of the error that std's `<usize as FromStr>::from_str` returns for a text it
/// rejects; it depends on the text alone.
pub uninterp spec fn usize_parse_error(s: Seq<char>) -> Seq<char>;

/// Parses a `usize` with std's `<usize as FromStr>::from_str`; the error is its message.
#[verifier::external_body]
pub(crate) fn parse_usize(s: &str) -> (r: Result<usize, String>)
    ensures
        r is Ok <==> unsigned_in_range(s@, usize::MAX as int),
        r matches Ok(v) ==> decimal_unsigned(s@) == Some(v as int),
        r matches Err(e) ==> e@ == usize_parse_error(s@),
{
    match s.parse::<usize>() {
        Ok(v) => Ok(v),
        Err(e) => Err(format!("{}", e)),
    }
}

/// The text of a boolean: `true` or `false`.
pub open spec fn bool_text(b: bool) -> Seq<char> {
    if b {
        seq!['t', 'r', 'u', 'e']
    } else {
        seq!['f', 'a', 'l', 's', 'e']
    }
}

/// The message of the error that std's `<bool as FromStr>::from_str` returns for a text it
/// rejects; it depends on the text alone.
pub uninterp spec fn bool_parse_error(s: Seq<char>) -> Seq<char>;

/// Parses a `bool` with std's `<bool as FromStr>::from_str`, which accepts exactly `true` and
/// `false`; the error is its message.
#[verifier::external_body]
pub(crate) fn parse_bool(s: &str) -> (r: Result<bool, String>)
    ensures
        r is Ok <==> (s@ == bool_text(true) || s@ == bool_text(false)),
        r matches Ok(b) ==> s@ == bool_text(b),
        r matches Err(e) ==> e@ == bool_parse_error(s@),
{
    match s.parse::<bool>() {
        Ok(v) => Ok(v),
        Err(e) => Err(format!("{}", e)),
    }
}

/// Decimal text of `n`.
pub(crate) fn fmt_u64(n: u64) -> (s: String)
    ensures
        s@ == dec_digits(n as nat),
    decreases n,
{
    if n < 10 {
        let mut s = String::new();
        push_char(&mut s, ((n as u8) + 48) as char);
        assert(s@ =~= dec_digits(n as nat));
        s
    } else {
        let mut s = fmt_u64(n / 10);
        push_char(&mut s, (((n % 10) as u8) + 48) as char);
        s
    }
}

/// Decimal text of `v`, with a leading `-` when negative.
pub(crate) fn fmt_i64(v: i64) -> (s: String)
    ensures
        s@ == dec_int(v as int),
{
    if v < 0 {
        let m: u64 = ((-(v + 1)) as u64) + 1;
        let mut s = String::new();
        push_char(&mut s, '-');
        let d = fmt_u64(m);
        s.append(d.as_str());
        assert(s@ =~= dec_int(v as int));
        s
    } else {
        fmt_u64(v as u64)
    }
}

/// Appends the decimal text of `n`.
pub(crate) fn append_u64(s: &mut String, n: u64)
    ensures
        final(s)@ == old(s)@ + dec_digits(n as nat),
{
    let d = fmt_u64(n);
    s.append(d.as_str());
}

/// Appends the decimal text of `v`.
pub(crate) fn append_i64(s: &mut String, v: i64)
    ensures
        final(s)@ == old(s)@ + dec_int(v as int),
{
    let d = fmt_i64(v);
    s.append(d.as_str());
}

/// Whether `s` equals `t`, character by character.
pub(crate) fn str_eq(s: &str, t: &str) -> (r: bool)
    ensures
        r == (s@ == t@),
{
    let n = s.unicode_len();
    if n != t.unicode_len() {
        return false;
    }
    let mut i: usize = 0;
    while i < n
        invariant
            n == s@.len(),
            n == t@.len(),
            i <= n,
            forall|j: int| 0 <= j < i ==> s@[j] == t@[j],
        decreases n - i,
    {
        if s.get_char(i) != t.get_char(i) {
            return false;
        }
        i = i + 1;
    }
    assert(s@ =~= t@);
    true
}

/// Whether `s` begins with `p`.
pub(crate) fn str_starts_with(s: &str, p: &str) -> (r: bool)
    ensures
        r == starts_with(s@, p@),
{
    let n = s.unicode_len();
    let m = p.unicode_len();
    if m > n {
        return false;
    }
    let mut i: usize = 0;
    while i < m
        invariant
            n == s@.len(),
            m == p@.len(),
            m <= n,
            i <= m,
            forall|j: int| 0 <= j < i ==> s@[j] == p@[j],
        decreases m - i,
    {
        if s.get_char(i) != p.get_char(i) {
            assert(s@.take(m as int)[i as int] != p@[i as int]);
            return false;
        }
        i = i + 1;
    }
    assert(s@.take(m as int) =~= p@);
    true
}

/// The rest of `s` after the prefix `p`, if `s` begins with it.
pub(crate) fn str_strip_prefix<'a>(s: &'a str, p: &str) -> (r: Option<&'a str>)
    ensures
        starts_with(s@, p@) ==> (r matches Some(t) && t@ == s@.skip(p@.len() as int)),
        !starts_with(s@, p@) ==> r is None,
{
    if str_starts_with(s, p) {
        let n = s.unicode_len();
        let m = p.unicode_len();
        Some(s.substring_char(m, n))
    } else {
        None
    }
}

/// `s` with every leading repetition of the non-empty pattern `p` removed.
pub(crate) fn str_trim_start_all<'a>(s: &'a str, p: &str) -> (r: &'a str)
    requires
        p@.len() > 0,
    ensures
        r@ == trim_start_all(s@, p@),
{
    let mut cur = s;
    while str_starts_with(cur, p)
        invariant
            p@.len() > 0,
            trim_start_all(cur@, p@) == trim_start_all(s@, p@),
        decreases cur@.len(),
    {
        let n = cur.unicode_len();
        let m = p.unicode_len();
        cur = cur.substring_char(m, n);
    }
    cur
}

/// `s` with every trailing `c` removed.
pub(crate) fn str_trim_end_all<'a>(s: &'a str, c: char) -> (r: &'a str)
    ensures
        r@ == trim_end_all(s@, c),
{
    let mut n = s.unicode_len();
    assert(s@.take(n as int) =~= s@);
    while n > 0 && s.get_char(n - 1) == c
        invariant
            n <= s@.len(),
            trim_end_all(s@.take(n as int), c) == trim_end_all(s@, c),
        decreases n,
    {
        assert(s@.take(n as int).drop_last() =~= s@.take(n - 1));
        n = n - 1;
    }
    assert(s@.take(n as int).len() == n);
    let r = s.substring_char(0, n);
    assert(r@ =~= s@.take(n as int));
    r
}

/// Whether `s` ends with `c`.
pub(crate) fn str_ends_with_char(s: &str, c: char) -> (r: bool)
    ensures
        r == ends_with_char(s@, c),
{
    let n = s.unicode_len();
    n > 0 && s.get_char(n - 1) == c
}

/// The pieces of `s` between occurrences of `sep`.
pub(crate) fn str_split<'a>(s: &'a str, sep: char) -> (r: Vec<&'a str>)
    ensures
        str_views(r@) == split(s@, sep),
{
    let n = s.unicode_len();
    let mut pieces: Vec<&'a str> = Vec::new();
    let mut start: usize = 0;
    let mut i: usize = 0;
    assert(s@.subrange(0, 0) =~= Seq::<char>::empty());
    assert(s@.skip(0) =~= s@);
    assert(str_views(pieces@) =~= Seq::<Seq<char>>::empty());
    assert(str_views(pieces@) + split(s@, sep) =~= split(s@, sep));
    while i < n
        invariant
            n == s@.len(),
            start <= i <= n,
            split(s@, sep) == str_views(pieces@) + split_from(
                s@.subrange(start as int, i as int),
                s@.skip(i as int),
                sep,
            ),
        decreases n - i,
    {
        let c = s.get_char(i);
        let ghost cur = s@.subrange(start as int, i as int);
        let ghost rest = s@.skip(i as int);
        assert(rest[0] == c);
        assert(rest.drop_first() =~= s@.skip(i + 1));
        if c == sep {
            let piece = s.substring_char(start, i);
            let ghost before = pieces@;
            pieces.push(piece);
            assert(str_views(pieces@) =~= str_views(before) + seq![cur]);
            start = i + 1;
            assert(s@.subrange(start as int, i + 1) =~= Seq::<char>::empty());
        } else {
            assert(cur.push(c) =~= s@.subrange(start as int, i + 1));
        }
        i = i + 1;
    }
    let piece = s.substring_char(start, n);
    let ghost before = pieces@;
    let ghost cur = s@.subrange(start as int, n as int);
    assert(s@.skip(n as int) =~= Seq::<char>::empty());
    pieces.push(piece);
    assert(str_views(pieces@) =~= str_views(before) + seq![cur]);
    pieces
}

} // verus!
