//! Text building blocks shared by the formatters: decimal digits, padding,
//! and appending to a `String`.

use vstd::prelude::*;

verus! {

/// The ASCII digit for `d` (which is below 10).
pub open spec fn digit_char(d: nat) -> char {
    (d + 48) as char
}

/// The decimal text of `n`, most significant digit first, without leading zeros.
pub open spec fn decimal(n: nat) -> Seq<char>
    decreases n,
{
    if n < 10 {
        seq![digit_char(n)]
    } else {
        decimal(n / 10).push(digit_char(n % 10))
    }
}

/// `n` copies of the character `c`.
pub open spec fn repeat_char(c: char, n: nat) -> Seq<char> {
    Seq::new(n, |i: int| c)
}

/// `s` padded on the right with spaces up to `width` characters.
pub open spec fn pad_right(s: Seq<char>, width: nat) -> Seq<char> {
    if s.len() < width {
        s + repeat_char(' ', (width - s.len()) as nat)
    } else {
        s
    }
}

/// `s` padded on the left with `'0'` up to `width` characters.
pub open spec fn pad_zeros(s: Seq<char>, width: nat) -> Seq<char> {
    if s.len() < width {
        repeat_char('0', (width - s.len()) as nat) + s
    } else {
        s
    }
}

/// Appends one character to a string by `String::push`, which vstd gives no
/// specification. Trusted: the contract claims that afterwards the string's
/// characters are the former ones followed by `c`, as the method's
/// documentation says.
#[verifier::external_body]
pub(crate) fn push_char(s: &mut String, c: char)
    ensures
        final(s)@ == old(s)@.push(c),
{
    s.push(c);
}

/// Appends `t` to `s`.
pub fn push_str(s: &mut String, t: &str)
    ensures
        final(s)@ == old(s)@ + t@,
{
    s.append(t);
}

/// The decimal digit character for `d < 10`.
pub fn digit_to_char(d: u8) -> (c: char)
    requires
        d < 10,
    ensures
        c == digit_char(d as nat),
{
    let b: u8 = d + 48;
    b as char
}

/// Appends the decimal text of `n` to `out`.
pub fn write_decimal(out: &mut String, n: u128)
    ensures
        final(out)@ == old(out)@ + decimal(n as nat),
    decreases n,
{
    if n >= 10 {
        write_decimal(out, n / 10);
    }
    let d: u8 = (n % 10) as u8;
    push_char(out, digit_to_char(d));
    proof {
        if n >= 10 {
            assert(old(out)@ + decimal(n as nat) =~= old(out)@ + decimal((n / 10) as nat) + seq![digit_char(d as nat)]);
        } else {
            assert(decimal(n as nat) =~= seq![digit_char(d as nat)]);
        }
    }
}

/// Appends `c` `n` times to `out`.
pub fn write_repeat(out: &mut String, c: char, n: usize)
    ensures
        final(out)@ == old(out)@ + repeat_char(c, n as nat),
{
    let ghost start = out@;
    let mut i: usize = 0;
    while i < n
        invariant
            i <= n,
            out@ == start + repeat_char(c, i as nat),
        decreases n - i,
    {
        push_char(out, c);
        i = i + 1;
        assert(out@ =~= start + repeat_char(c, i as nat));
    }
}

/// The decimal text of `n` as a new string.
pub fn decimal_string(n: u128) -> (s: String)
    ensures
        s@ == decimal(n as nat),
{
    let mut s = String::new();
    write_decimal(&mut s, n);
    assert(s@ =~= decimal(n as nat));
    s
}

} // verus!

verus! {

/// The characters of `s`, in order.
pub fn chars_of(s: &str) -> (v: Vec<char>)
    ensures
        v@ == s@,
{
    broadcast use vstd::string::axiom_spec_iter;
    let mut v: Vec<char> = Vec::new();
    for c in it: s.chars()
        invariant
            v@ == it.seq().take(it.index() as int),
    {
        v.push(c);
    }
    v
}

} // verus!

verus! {

/// The index of the first `c` in `s`, or -1 when there is none.
pub open spec fn index_of<A>(s: Seq<A>, c: A) -> int
    decreases s.len(),
{
    if s.len() == 0 {
        -1
    } else if s[0] == c {
        0
    } else {
        let r = index_of(s.drop_first(), c);
        if r < 0 {
            -1
        } else {
            r + 1
        }
    }
}

/// `s` split at every `c`: the pieces between separators, in order (always at
/// least one piece, possibly empty), as `str::split` does.
pub open spec fn split_on<A>(s: Seq<A>, c: A) -> Seq<Seq<A>>
    decreases s.len(),
{
    let i = index_of(s, c);
    if 0 <= i < s.len() {
        seq![s.take(i)] + split_on(s.skip(i + 1), c)
    } else {
        seq![s]
    }
}

pub proof fn lemma_index_of<A>(s: Seq<A>, c: A)
    ensures
        -1 <= index_of(s, c) < s.len(),
        index_of(s, c) >= 0 ==> s[index_of(s, c)] == c,
        forall|k: int| 0 <= k < s.len() && (index_of(s, c) < 0 || k < index_of(s, c)) ==> s[k] != c,
    decreases s.len(),
{
    if s.len() > 0 && s[0] != c {
        lemma_index_of(s.drop_first(), c);
        assert forall|k: int| 0 <= k < s.len() && (index_of(s, c) < 0 || k < index_of(s, c)) implies s[k] != c by {
            if k > 0 {
                assert(s[k] == s.drop_first()[k - 1]);
            }
        }
    }
}

/// The first index of `c` is determined by where `c` first occurs.
pub proof fn lemma_index_of_is<A>(s: Seq<A>, c: A, j: int)
    requires
        -1 <= j < s.len(),
        j >= 0 ==> s[j] == c,
        forall|k: int| 0 <= k < s.len() && (j < 0 || k < j) ==> s[k] != c,
    ensures
        index_of(s, c) == j,
{
    lemma_index_of(s, c);
    let i = index_of(s, c);
    if i >= 0 && j >= 0 {
        if i < j {
            assert(s[i] != c);
        }
        if j < i {
            assert(s[j] != c);
        }
    } else if i >= 0 {
        assert(s[i] != c);
    } else if j >= 0 {
        assert(s[j] != c);
    }
}

/// The first `c` in `t[from..to]`.
pub fn find_char(t: &[char], from: usize, to: usize, c: char) -> (r: Option<usize>)
    requires
        from <= to <= t@.len(),
    ensures
        match r {
            Some(j) => from <= j < to && index_of(t@.subrange(from as int, to as int), c) == j - from,
            None => index_of(t@.subrange(from as int, to as int), c) == -1,
        },
{
    let mut i = from;
    while i < to
        invariant
            from <= i <= to <= t@.len(),
            forall|k: int| from <= k < i ==> t@[k] != c,
        decreases to - i,
    {
        if t[i] == c {
            proof {
                lemma_index_of_is(t@.subrange(from as int, to as int), c, i - from);
            }
            return Some(i);
        }
        i = i + 1;
    }
    proof {
        lemma_index_of_is(t@.subrange(from as int, to as int), c, -1);
    }
    None
}

/// The first `c` in `t[from..to]`.
pub fn find_byte(t: &[u8], from: usize, to: usize, c: u8) -> (r: Option<usize>)
    requires
        from <= to <= t@.len(),
    ensures
        match r {
            Some(j) => from <= j < to && index_of(t@.subrange(from as int, to as int), c) == j - from,
            None => index_of(t@.subrange(from as int, to as int), c) == -1,
        },
{
    let mut i = from;
    while i < to
        invariant
            from <= i <= to <= t@.len(),
            forall|k: int| from <= k < i ==> t@[k] != c,
        decreases to - i,
    {
        if t[i] == c {
            proof {
                lemma_index_of_is(t@.subrange(from as int, to as int), c, i - from);
            }
            return Some(i);
        }
        i = i + 1;
    }
    proof {
        lemma_index_of_is(t@.subrange(from as int, to as int), c, -1);
    }
    None
}

} // verus!

verus! {

/// An ASCII decimal digit.
pub open spec fn is_digit(c: char) -> bool {
    '0' <= c && c <= '9'
}

/// An ASCII hexadecimal digit, either case.
pub open spec fn is_hex_digit(c: char) -> bool {
    is_digit(c) || ('a' <= c && c <= 'f') || ('A' <= c && c <= 'F')
}

/// The value of a hexadecimal (or decimal) digit.
pub open spec fn hex_digit_value(c: char) -> nat {
    if is_digit(c) {
        (c as int - 48) as nat
    } else if 'a' <= c && c <= 'f' {
        (c as int - 87) as nat
    } else {
        (c as int - 55) as nat
    }
}

/// Every character of `s` is a decimal digit.
pub open spec fn all_digits(s: Seq<char>) -> bool {
    forall|i: int| 0 <= i < s.len() ==> is_digit(#[trigger] s[i])
}

/// Every character of `s` is a hexadecimal digit.
pub open spec fn all_hex_digits(s: Seq<char>) -> bool {
    forall|i: int| 0 <= i < s.len() ==> is_hex_digit(#[trigger] s[i])
}

/// The number that the digits `s` denote in base `radix`.
pub open spec fn digits_value(s: Seq<char>, radix: nat) -> nat
    decreases s.len(),
{
    if s.len() == 0 {
        0
    } else {
        digits_value(s.drop_last(), radix) * radix + hex_digit_value(s.last())
    }
}

/// `s` read as a decimal number of at least one digit that is at most `max`
/// (leading zeros allowed).
pub open spec fn bounded_decimal(s: Seq<char>, max: nat) -> Option<nat> {
    if s.len() > 0 && all_digits(s) && digits_value(s, 10) <= max {
        Some(digits_value(s, 10))
    } else {
        None
    }
}

pub proof fn lemma_digits_value_monotone(s: Seq<char>, k: int, radix: nat)
    requires
        0 <= k <= s.len(),
        radix > 0,
    ensures
        digits_value(s.take(k), radix) <= digits_value(s, radix),
    decreases s.len() - k,
{
    if k < s.len() {
        lemma_digits_value_monotone(s, k + 1, radix);
        assert(s.take(k + 1).drop_last() =~= s.take(k));
        let v = digits_value(s.take(k), radix);
        assert(v * radix >= v) by (nonlinear_arith)
            requires
                radix > 0,
        ;
    } else {
        assert(s.take(k) =~= s);
    }
}

/// Reads `t[lo..hi]` as a decimal number no greater than `max`.
pub fn parse_decimal(t: &[char], lo: usize, hi: usize, max: u64) -> (r: Option<u64>)
    requires
        lo <= hi <= t@.len(),
        max <= 0xffff_ffff,
    ensures
        match r {
            Some(v) => bounded_decimal(t@.subrange(lo as int, hi as int), max as nat) == Some(v as nat),
            None => bounded_decimal(t@.subrange(lo as int, hi as int), max as nat) is None,
        },
{
    let ghost s = t@.subrange(lo as int, hi as int);
    if lo == hi {
        return None;
    }
    let mut acc: u64 = 0;
    let mut i = lo;
    while i < hi
        invariant
            lo <= i <= hi <= t@.len(),
            s == t@.subrange(lo as int, hi as int),
            max <= 0xffff_ffff,
            acc <= max,
            all_digits(s.take(i - lo)),
            acc as nat == digits_value(s.take(i - lo), 10),
        decreases hi - i,
    {
        let c = t[i];
        if !(c >= '0' && c <= '9') {
            assert(!is_digit(s[i - lo]));
            return None;
        }
        let d: u64 = ((c as u32) - 48) as u64;
        let next: u64 = acc * 10 + d;
        assert(s.take(i - lo + 1).drop_last() =~= s.take(i - lo));
        assert(s.take(i - lo + 1).last() == c);
        if next > max {
            proof {
                lemma_digits_value_monotone(s, i - lo + 1, 10);
            }
            return None;
        }
        acc = next;
        i = i + 1;
        assert(all_digits(s.take(i - lo))) by {
            assert forall|k: int| 0 <= k < s.take(i - lo).len() implies is_digit(#[trigger] s.take(i - lo)[k]) by {
                if k < i - 1 - lo {
                    assert(s.take(i - lo)[k] == s.take(i - 1 - lo)[k]);
                }
            }
        }
    }
    assert(s.take(hi - lo) =~= s);
    Some(acc)
}

/// Whether `c` is white space (`char::is_whitespace`: the Unicode
/// White_Space property).
pub open spec fn is_ws(c: char) -> bool {
    ('\t' <= c && c <= '\r') || c == ' ' || c == '\u{85}' || c == '\u{a0}' || c == '\u{1680}'
        || ('\u{2000}' <= c && c <= '\u{200a}') || c == '\u{2028}' || c == '\u{2029}' || c
        == '\u{202f}' || c == '\u{205f}' || c == '\u{3000}'
}

/// Whether `c` is white space.
pub fn char_is_ws(c: char) -> (r: bool)
    ensures
        r == is_ws(c),
{
    (c >= '\t' && c <= '\r') || c == ' ' || c == '\u{85}' || c == '\u{a0}' || c == '\u{1680}' || (
    c >= '\u{2000}' && c <= '\u{200a}') || c == '\u{2028}' || c == '\u{2029}' || c == '\u{202f}'
        || c == '\u{205f}' || c == '\u{3000}'
}

/// The number of leading white-space characters of `s`.
pub open spec fn leading_ws(s: Seq<char>) -> nat
    decreases s.len(),
{
    if s.len() > 0 && is_ws(s[0]) {
        1 + leading_ws(s.drop_first())
    } else {
        0
    }
}

/// The number of trailing white-space characters of `s`.
pub open spec fn trailing_ws(s: Seq<char>) -> nat
    decreases s.len(),
{
    if s.len() > 0 && is_ws(s.last()) {
        1 + trailing_ws(s.drop_last())
    } else {
        0
    }
}

/// `s` without leading white space (`str::trim_start`).
pub open spec fn trim_start(s: Seq<char>) -> Seq<char> {
    s.skip(leading_ws(s) as int)
}

/// `s` without leading and trailing white space (`str::trim`).
pub open spec fn trim(s: Seq<char>) -> Seq<char> {
    let r = trim_start(s);
    r.take(r.len() - trailing_ws(r))
}

pub proof fn lemma_leading_ws(s: Seq<char>)
    ensures
        leading_ws(s) <= s.len(),
        forall|k: int| 0 <= k < leading_ws(s) ==> is_ws(#[trigger] s[k]),
        leading_ws(s) < s.len() ==> !is_ws(s[leading_ws(s) as int]),
    decreases s.len(),
{
    if s.len() > 0 && is_ws(s[0]) {
        lemma_leading_ws(s.drop_first());
        assert forall|k: int| 0 <= k < leading_ws(s) implies is_ws(#[trigger] s[k]) by {
            if k > 0 {
                assert(s[k] == s.drop_first()[k - 1]);
            }
        }
    }
}

pub proof fn lemma_leading_ws_is(s: Seq<char>, n: int)
    requires
        0 <= n <= s.len(),
        forall|k: int| 0 <= k < n ==> is_ws(#[trigger] s[k]),
        n < s.len() ==> !is_ws(s[n]),
    ensures
        leading_ws(s) == n,
    decreases s.len(),
{
    if n > 0 {
        assert(is_ws(s[0]));
        assert forall|k: int| 0 <= k < n - 1 implies is_ws(#[trigger] s.drop_first()[k]) by {
            assert(s.drop_first()[k] == s[k + 1]);
        }
        lemma_leading_ws_is(s.drop_first(), n - 1);
    }
}

pub proof fn lemma_trailing_ws_is(s: Seq<char>, n: int)
    requires
        0 <= n <= s.len(),
        forall|k: int| s.len() - n <= k < s.len() ==> is_ws(#[trigger] s[k]),
        n < s.len() ==> !is_ws(s[s.len() - n - 1]),
    ensures
        trailing_ws(s) == n,
    decreases s.len(),
{
    if n > 0 {
        assert(is_ws(s[s.len() - 1]));
        assert forall|k: int| s.drop_last().len() - (n - 1) <= k < s.drop_last().len() implies is_ws(#[trigger] s.drop_last()[k]) by {
            assert(s.drop_last()[k] == s[k]);
        }
        lemma_trailing_ws_is(s.drop_last(), n - 1);
    }
}

/// The bounds of `trim(t[lo..hi])` within `t`.
pub fn trim_range(t: &[char], lo: usize, hi: usize) -> (r: (usize, usize))
    requires
        lo <= hi <= t@.len(),
    ensures
        lo <= r.0 <= r.1 <= hi,
        t@.subrange(r.0 as int, r.1 as int) == trim(t@.subrange(lo as int, hi as int)),
{
    let ghost s = t@.subrange(lo as int, hi as int);
    let mut a = lo;
    while a < hi && char_is_ws(t[a])
        invariant
            lo <= a <= hi <= t@.len(),
            forall|k: int| lo <= k < a ==> is_ws(#[trigger] t@[k]),
        decreases hi - a,
    {
        a = a + 1;
    }
    proof {
        assert forall|k: int| 0 <= k < a - lo implies is_ws(#[trigger] s[k]) by {
            assert(s[k] == t@[lo + k]);
        }
        lemma_leading_ws_is(s, a - lo);
    }
    let ghost r = trim_start(s);
    assert(r =~= t@.subrange(a as int, hi as int));
    let mut b = hi;
    while b > a && char_is_ws(t[b - 1])
        invariant
            lo <= a <= b <= hi <= t@.len(),
            forall|k: int| b <= k < hi ==> is_ws(#[trigger] t@[k]),
        decreases b - a,
    {
        b = b - 1;
    }
    proof {
        assert forall|k: int| r.len() - (hi - b) <= k < r.len() implies is_ws(#[trigger] r[k]) by {
            assert(r[k] == t@[a + k]);
        }
        if hi - b < r.len() {
            assert(r[r.len() - (hi - b) - 1] == t@[b - 1]);
        }
        lemma_trailing_ws_is(r, hi - b);
    }
    assert(t@.subrange(a as int, b as int) =~= trim(s));
    (a, b)
}

} // verus!

verus! {

/// One step of `split_on` on a range of `t`: the piece before the first `c`
/// and the split of the rest, or the whole range when there is no `c`.
pub proof fn lemma_split_step<A>(t: Seq<A>, from: int, to: int, c: A)
    requires
        0 <= from <= to <= t.len(),
    ensures
        ({
            let j = index_of(t.subrange(from, to), c);
            if j >= 0 {
                split_on(t.subrange(from, to), c) == seq![t.subrange(from, from + j)] + split_on(
                    t.subrange(from + j + 1, to),
                    c,
                )
            } else {
                split_on(t.subrange(from, to), c) == seq![t.subrange(from, to)]
            }
        }),
{
    let s = t.subrange(from, to);
    let j = index_of(s, c);
    lemma_index_of(s, c);
    if j >= 0 {
        assert(s.take(j) =~= t.subrange(from, from + j));
        assert(s.skip(j + 1) =~= t.subrange(from + j + 1, to));
    }
}

/// A split has at least one piece.
pub proof fn lemma_split_nonempty<A>(s: Seq<A>, c: A)
    ensures
        split_on(s, c).len() >= 1,
    decreases s.len(),
{
    lemma_index_of(s, c);
    let i = index_of(s, c);
    if 0 <= i < s.len() {
        lemma_split_nonempty(s.skip(i + 1), c);
    }
}

} // verus!

verus! {

/// The index of the last `c` in `s`, or -1.
pub open spec fn last_index_of<A>(s: Seq<A>, c: A) -> int
    decreases s.len(),
{
    if s.len() == 0 {
        -1
    } else if s.last() == c {
        s.len() - 1
    } else {
        last_index_of(s.drop_last(), c)
    }
}

pub proof fn lemma_last_index_of_is<A>(s: Seq<A>, c: A, j: int)
    requires
        -1 <= j < s.len(),
        j >= 0 ==> s[j] == c,
        forall|k: int| j < k < s.len() ==> s[k] != c,
    ensures
        last_index_of(s, c) == j,
    decreases s.len(),
{
    if s.len() > 0 && s.last() != c {
        assert forall|k: int| j < k < s.drop_last().len() implies s.drop_last()[k] != c by {
            assert(s.drop_last()[k] == s[k]);
        }
        if j >= 0 {
            assert(s.drop_last()[j] == s[j]);
        }
        lemma_last_index_of_is(s.drop_last(), c, j);
    }
}

/// The last `c` in `t[from..to]`.
pub fn rfind_char(t: &[char], from: usize, to: usize, c: char) -> (r: Option<usize>)
    requires
        from <= to <= t@.len(),
    ensures
        match r {
            Some(j) => from <= j < to && last_index_of(t@.subrange(from as int, to as int), c) == j - from,
            None => last_index_of(t@.subrange(from as int, to as int), c) == -1,
        },
{
    let ghost s = t@.subrange(from as int, to as int);
    let mut i = to;
    while i > from
        invariant
            from <= i <= to <= t@.len(),
            s == t@.subrange(from as int, to as int),
            forall|k: int| i <= k < to ==> t@[k] != c,
        decreases i - from,
    {
        if t[i - 1] == c {
            proof {
                assert forall|k: int| i - 1 - from < k < s.len() implies s[k] != c by {
                    assert(s[k] == t@[from + k]);
                }
                lemma_last_index_of_is(s, c, i - 1 - from);
            }
            return Some(i - 1);
        }
        i = i - 1;
    }
    proof {
        assert forall|k: int| -1 < k < s.len() implies s[k] != c by {
            assert(s[k] == t@[from + k]);
        }
        lemma_last_index_of_is(s, c, -1);
    }
    None
}

/// A new string holding `t[lo..hi]`.
pub fn string_from_range(t: &[char], lo: usize, hi: usize) -> (s: String)
    requires
        lo <= hi <= t@.len(),
    ensures
        s@ == t@.subrange(lo as int, hi as int),
{
    let mut s = String::new();
    let mut i = lo;
    while i < hi
        invariant
            lo <= i <= hi <= t@.len(),
            s@ == t@.subrange(lo as int, i as int),
        decreases hi - i,
    {
        push_char(&mut s, t[i]);
        i = i + 1;
        assert(s@ =~= t@.subrange(lo as int, i as int));
    }
    s
}

/// `s` read by `u16::from_str`: an optional leading `+`, then at least one
/// decimal digit, of a value up to 65535.
pub open spec fn u16_from_text(s: Seq<char>) -> Option<u16> {
    let digits = if s.len() > 0 && s[0] == '+' {
        s.skip(1)
    } else {
        s
    };
    match bounded_decimal(digits, 65535) {
        Some(v) => Some(v as u16),
        None => None,
    }
}

/// Reads `t[lo..hi]` as `u16::from_str` does.
pub fn parse_u16_text(t: &[char], lo: usize, hi: usize) -> (r: Option<u16>)
    requires
        lo <= hi <= t@.len(),
    ensures
        r == u16_from_text(t@.subrange(lo as int, hi as int)),
{
    let ghost s = t@.subrange(lo as int, hi as int);
    let start = if lo < hi && t[lo] == '+' {
        assert(s[0] == t@[lo as int]);
        assert(s.skip(1) =~= t@.subrange(lo + 1, hi as int));
        lo + 1
    } else {
        if lo < hi {
            assert(s[0] == t@[lo as int]);
        }
        lo
    };
    match parse_decimal(t, start, hi, 65535) {
        Some(v) => Some(v as u16),
        None => None,
    }
}

} // verus!

verus! {

/// A line without the `\r` of a `\r\n` ending.
pub open spec fn strip_cr(l: Seq<char>) -> Seq<char> {
    if l.len() > 0 && l.last() == '\r' {
        l.drop_last()
    } else {
        l
    }
}

/// The lines of `s` (`str::lines`): split at `\n`, a `\r` before the `\n`
/// removed, and no empty last line after a final line ending.
pub open spec fn lines(s: Seq<char>) -> Seq<Seq<char>> {
    let p = split_on(s, '\n');
    let body = p.drop_last().map_values(|l: Seq<char>| strip_cr(l));
    if p.last().len() == 0 {
        body
    } else {
        body.push(p.last())
    }
}

proof fn lemma_lines_step(t: Seq<char>, from: int, to: int)
    requires
        0 <= from <= to <= t.len(),
    ensures
        ({
            let j = index_of(t.subrange(from, to), '\n');
            if j >= 0 {
                lines(t.subrange(from, to)) == seq![strip_cr(t.subrange(from, from + j))] + lines(
                    t.subrange(from + j + 1, to),
                )
            } else if from == to {
                lines(t.subrange(from, to)) == Seq::<Seq<char>>::empty()
            } else {
                lines(t.subrange(from, to)) == seq![t.subrange(from, to)]
            }
        }),
{
    lemma_split_step(t, from, to, '\n');
    let s = t.subrange(from, to);
    let j = index_of(s, '\n');
    if j >= 0 {
        let piece = t.subrange(from, from + j);
        let rest = split_on(t.subrange(from + j + 1, to), '\n');
        lemma_split_nonempty(t.subrange(from + j + 1, to), '\n');
        let p = split_on(s, '\n');
        assert(p == seq![piece] + rest);
        assert(p.drop_last() =~= seq![piece] + rest.drop_last());
        assert(p.last() == rest.last());
        let f = |l: Seq<char>| strip_cr(l);
        assert(p.drop_last().map_values(f) =~= seq![strip_cr(piece)] + rest.drop_last().map_values(f));
        if rest.last().len() == 0 {
            assert(lines(s) =~= seq![strip_cr(piece)] + lines(t.subrange(from + j + 1, to)));
        } else {
            assert(lines(s) =~= seq![strip_cr(piece)] + lines(t.subrange(from + j + 1, to)));
        }
    } else {
        let p = split_on(s, '\n');
        assert(p.drop_last() =~= Seq::<Seq<char>>::empty());
        if from == to {
            assert(lines(s) =~= Seq::<Seq<char>>::empty());
        } else {
            assert(lines(s) =~= seq![s]);
        }
    }
}

/// The bounds of the lines of `t[lo..hi]`.
#[verifier::rlimit(20)]
pub fn line_ranges(t: &[char], lo: usize, hi: usize) -> (r: Vec<(usize, usize)>)
    requires
        lo <= hi <= t@.len(),
    ensures
        r@.len() == lines(t@.subrange(lo as int, hi as int)).len(),
        forall|i: int|
            0 <= i < r@.len() ==> lo <= (#[trigger] r@[i]).0 <= r@[i].1 <= hi && t@.subrange(
                r@[i].0 as int,
                r@[i].1 as int,
            ) == lines(t@.subrange(lo as int, hi as int))[i],
{
    let ghost all = lines(t@.subrange(lo as int, hi as int));
    let mut r: Vec<(usize, usize)> = Vec::new();
    let mut pos = lo;
    let ghost mut done: Seq<Seq<char>> = Seq::empty();
    assert(all =~= done + lines(t@.subrange(pos as int, hi as int)));
    loop
        invariant_except_break
            all == done + lines(t@.subrange(pos as int, hi as int)),
        invariant
            lo <= pos <= hi <= t@.len(),
            all == lines(t@.subrange(lo as int, hi as int)),
            r@.len() == done.len(),
            forall|i: int|
                0 <= i < r@.len() ==> lo <= (#[trigger] r@[i]).0 <= r@[i].1 <= hi && t@.subrange(
                    r@[i].0 as int,
                    r@[i].1 as int,
                ) == done[i],
        ensures
            all == done,
        decreases hi - pos,
    {
        proof {
            lemma_lines_step(t@, pos as int, hi as int);
        }
        match find_char(t, pos, hi, '\n') {
            Some(j) => {
                let ghost piece = t@.subrange(pos as int, j as int);
                let end = if j > pos && t[j - 1] == '\r' {
                    assert(piece.last() == t@[j - 1]);
                    assert(strip_cr(piece) =~= t@.subrange(pos as int, j - 1));
                    j - 1
                } else {
                    if j > pos {
                        assert(piece.last() == t@[j - 1]);
                    }
                    assert(strip_cr(piece) =~= t@.subrange(pos as int, j as int));
                    j
                };
                r.push((pos, end));
                proof {
                    assert(all =~= done.push(strip_cr(piece)) + lines(t@.subrange(j + 1, hi as int)));
                    done = done.push(strip_cr(piece));
                }
                pos = j + 1;
            },
            None => {
                if pos < hi {
                    r.push((pos, hi));
                    proof {
                        done = done.push(t@.subrange(pos as int, hi as int));
                    }
                    assert(all =~= done);
                } else {
                    assert(all =~= done);
                }
                break;
            },
        }
    }
    r
}

/// The length of the leading run of non-white-space characters.
pub open spec fn word_len(s: Seq<char>) -> nat
    decreases s.len(),
{
    if s.len() > 0 && !is_ws(s[0]) {
        1 + word_len(s.drop_first())
    } else {
        0
    }
}

/// The white-space-separated words of `s` (`str::split_whitespace`).
pub open spec fn words(s: Seq<char>) -> Seq<Seq<char>>
    decreases s.len(),
{
    if s.len() == 0 {
        seq![]
    } else if is_ws(s[0]) {
        words(s.drop_first())
    } else {
        let k = word_len(s);
        if 0 < k <= s.len() {
            seq![s.take(k as int)] + words(s.skip(k as int))
        } else {
            seq![]
        }
    }
}

proof fn lemma_word_len_is(s: Seq<char>, n: int)
    requires
        0 <= n <= s.len(),
        forall|k: int| 0 <= k < n ==> !is_ws(#[trigger] s[k]),
        n < s.len() ==> is_ws(s[n]),
    ensures
        word_len(s) == n,
    decreases s.len(),
{
    if n > 0 {
        assert forall|k: int| 0 <= k < n - 1 implies !is_ws(#[trigger] s.drop_first()[k]) by {
            assert(s.drop_first()[k] == s[k + 1]);
        }
        lemma_word_len_is(s.drop_first(), n - 1);
    }
}

/// The bounds of the words of `t[lo..hi]`.
#[verifier::rlimit(20)]
pub fn word_ranges(t: &[char], lo: usize, hi: usize) -> (r: Vec<(usize, usize)>)
    requires
        lo <= hi <= t@.len(),
    ensures
        r@.len() == words(t@.subrange(lo as int, hi as int)).len(),
        forall|i: int|
            0 <= i < r@.len() ==> lo <= (#[trigger] r@[i]).0 <= r@[i].1 <= hi && t@.subrange(
                r@[i].0 as int,
                r@[i].1 as int,
            ) == words(t@.subrange(lo as int, hi as int))[i],
{
    let ghost all = words(t@.subrange(lo as int, hi as int));
    let mut r: Vec<(usize, usize)> = Vec::new();
    let mut pos = lo;
    let ghost mut done: Seq<Seq<char>> = Seq::empty();
    assert(all =~= done + words(t@.subrange(pos as int, hi as int)));
    while pos < hi
        invariant
            lo <= pos <= hi <= t@.len(),
            all == done + words(t@.subrange(pos as int, hi as int)),
            r@.len() == done.len(),
            forall|i: int|
                0 <= i < r@.len() ==> lo <= (#[trigger] r@[i]).0 <= r@[i].1 <= hi && t@.subrange(
                    r@[i].0 as int,
                    r@[i].1 as int,
                ) == done[i],
        decreases hi - pos,
    {
        let ghost s = t@.subrange(pos as int, hi as int);
        if char_is_ws(t[pos]) {
            assert(s[0] == t@[pos as int]);
            assert(s.drop_first() =~= t@.subrange(pos + 1, hi as int));
            pos = pos + 1;
        } else {
            assert(s[0] == t@[pos as int]);
            let mut e = pos + 1;
            while e < hi && !char_is_ws(t[e])
                invariant
                    pos < e <= hi <= t@.len(),
                    forall|k: int| pos <= k < e ==> !is_ws(#[trigger] t@[k]),
                decreases hi - e,
            {
                e = e + 1;
            }
            proof {
                assert forall|k: int| 0 <= k < e - pos implies !is_ws(#[trigger] s[k]) by {
                    assert(s[k] == t@[pos + k]);
                }
                if e < hi {
                    assert(s[e - pos] == t@[e as int]);
                }
                lemma_word_len_is(s, e - pos);
                assert(s.take(e - pos) =~= t@.subrange(pos as int, e as int));
                assert(s.skip(e - pos) =~= t@.subrange(e as int, hi as int));
            }
            r.push((pos, e));
            proof {
                assert(all =~= done.push(t@.subrange(pos as int, e as int)) + words(t@.subrange(e as int, hi as int)));
                done = done.push(t@.subrange(pos as int, e as int));
            }
            pos = e;
        }
    }
    assert(words(t@.subrange(pos as int, hi as int)) =~= Seq::<Seq<char>>::empty());
    assert(all =~= done);
    r
}

/// Whether `s` begins with `p`.
pub open spec fn starts_with(s: Seq<char>, p: Seq<char>) -> bool {
    p.len() <= s.len() && s.take(p.len() as int) == p
}

/// Whether `t[lo..hi]` begins with `p`.
pub fn range_starts_with(t: &[char], lo: usize, hi: usize, p: &[char]) -> (r: bool)
    requires
        lo <= hi <= t@.len(),
    ensures
        r == starts_with(t@.subrange(lo as int, hi as int), p@),
{
    let ghost s = t@.subrange(lo as int, hi as int);
    if p.len() > hi - lo {
        return false;
    }
    let mut i: usize = 0;
    while i < p.len()
        invariant
            i <= p@.len() <= hi - lo,
            lo <= hi <= t@.len(),
            s == t@.subrange(lo as int, hi as int),
            forall|k: int| 0 <= k < i ==> t@[lo + k] == p@[k],
        decreases p@.len() - i,
    {
        if t[lo + i] != p[i] {
            assert(s.take(p@.len() as int)[i as int] == t@[lo + i]);
            return false;
        }
        i = i + 1;
    }
    assert(s.take(p@.len() as int) =~= p@);
    true
}

/// Whether `t[lo..hi]` equals `p`.
pub fn range_eq(t: &[char], lo: usize, hi: usize, p: &[char]) -> (r: bool)
    requires
        lo <= hi <= t@.len(),
    ensures
        r == (t@.subrange(lo as int, hi as int) == p@),
{
    if hi - lo != p.len() {
        return false;
    }
    let b = range_starts_with(t, lo, hi, p);
    assert(t@.subrange(lo as int, hi as int).take(p@.len() as int) =~= t@.subrange(lo as int, hi as int));
    b
}

} // verus!

verus! {

/// The first `Some` that `f` gives for a line of `ls`, in order.
pub open spec fn first_some<T>(ls: Seq<Seq<char>>, f: spec_fn(Seq<char>) -> Option<T>) -> Option<T>
    decreases ls.len(),
{
    if ls.len() == 0 {
        None
    } else if f(ls[0]) is Some {
        f(ls[0])
    } else {
        first_some(ls.drop_first(), f)
    }
}

/// Every `Some` that `f` gives for the lines of `ls`, in order.
pub open spec fn collect_some<T>(ls: Seq<Seq<char>>, f: spec_fn(Seq<char>) -> Option<T>) -> Seq<T>
    decreases ls.len(),
{
    if ls.len() == 0 {
        seq![]
    } else {
        let r = collect_some(ls.drop_last(), f);
        match f(ls.last()) {
            Some(v) => r.push(v),
            None => r,
        }
    }
}

/// Lines for which `f` gives nothing do not change the first `Some`.
pub proof fn lemma_first_some_skip<T>(ls: Seq<Seq<char>>, f: spec_fn(Seq<char>) -> Option<T>, i: int)
    requires
        0 <= i <= ls.len(),
        forall|k: int| 0 <= k < i ==> f(#[trigger] ls[k]) is None,
    ensures
        first_some(ls, f) == first_some(ls.skip(i), f),
    decreases i,
{
    if i > 0 {
        assert(f(ls[0]) is None);
        assert forall|k: int| 0 <= k < i - 1 implies f(#[trigger] ls.drop_first()[k]) is None by {
            assert(ls.drop_first()[k] == ls[k + 1]);
        }
        lemma_first_some_skip(ls.drop_first(), f, i - 1);
        assert(ls.drop_first().skip(i - 1) =~= ls.skip(i));
    } else {
        assert(ls.skip(0) =~= ls);
    }
}

pub proof fn lemma_collect_some_step<T>(ls: Seq<Seq<char>>, f: spec_fn(Seq<char>) -> Option<T>, i: int)
    requires
        0 <= i < ls.len(),
    ensures
        collect_some(ls.take(i + 1), f) == (match f(ls[i]) {
            Some(v) => collect_some(ls.take(i), f).push(v),
            None => collect_some(ls.take(i), f),
        }),
{
    assert(ls.take(i + 1).drop_last() =~= ls.take(i));
    assert(ls.take(i + 1).last() == ls[i]);
}

} // verus!

verus! {

pub proof fn lemma_digit_char(d: nat)
    requires
        d < 10,
    ensures
        is_digit(digit_char(d)),
        is_hex_digit(digit_char(d)),
        hex_digit_value(digit_char(d)) == d,
        !is_ws(digit_char(d)),
        digit_char(d) != '.' && digit_char(d) != ':',
{
}

/// The decimal text of `n` is canonical: digits only, no leading zero,
/// denoting `n`.
pub proof fn lemma_decimal(n: nat)
    ensures
        decimal(n).len() >= 1,
        all_digits(decimal(n)),
        digits_value(decimal(n), 10) == n,
        (decimal(n).len() == 1) <==> n < 10,
        n >= 10 ==> decimal(n)[0] != '0',
        n < 100 ==> decimal(n).len() <= 2,
        n < 1000 ==> decimal(n).len() <= 3,
    decreases n,
{
    lemma_digit_char(n % 10);
    if n >= 10 {
        lemma_decimal(n / 10);
        let p = decimal(n / 10);
        let c = digit_char(n % 10);
        assert(decimal(n) == p.push(c));
        assert(decimal(n).drop_last() =~= p);
        assert(decimal(n).last() == c);
        assert(digits_value(decimal(n), 10) == digits_value(p, 10) * 10 + hex_digit_value(c));
        assert(n == (n / 10) * 10 + n % 10);
        assert forall|i: int| 0 <= i < decimal(n).len() implies is_digit(#[trigger] decimal(n)[i]) by {
            if i < p.len() {
                assert(decimal(n)[i] == p[i]);
            }
        }
        assert(decimal(n)[0] == p[0]);
        if n / 10 < 10 {
            assert(p == seq![digit_char(n / 10)]);
            lemma_digit_char(n / 10);
        }
    } else {
        assert(decimal(n).drop_last() =~= Seq::<char>::empty());
        assert(digits_value(Seq::<char>::empty(), 10) == 0);
    }
}

/// Canonical decimal digits are the decimal text of their value.
pub proof fn lemma_decimal_unique(p: Seq<char>)
    requires
        p.len() >= 1,
        all_digits(p),
        p.len() == 1 || p[0] != '0',
    ensures
        p == decimal(digits_value(p, 10)),
    decreases p.len(),
{
    let v = digits_value(p, 10);
    let c = p.last();
    assert(is_digit(p[p.len() - 1]));
    let d = hex_digit_value(c);
    if p.len() == 1 {
        assert(p.drop_last() =~= Seq::<char>::empty());
        assert(digits_value(Seq::<char>::empty(), 10) == 0);
        assert(v == d);
        assert(decimal(v) == seq![digit_char(d)]);
        assert(digit_char(d) == c);
        assert(p =~= seq![c]);
    } else {
        let q = p.drop_last();
        assert(all_digits(q)) by {
            assert forall|i: int| 0 <= i < q.len() implies is_digit(#[trigger] q[i]) by {
                assert(q[i] == p[i]);
            }
        }
        assert(q[0] == p[0]);
        lemma_decimal_unique(q);
        let w = digits_value(q, 10);
        assert(v == w * 10 + d);
        // q has no leading zero, so its value is at least 1.
        lemma_digits_value_monotone(q, 1, 10);
        assert(q.take(1).drop_last() =~= Seq::<char>::empty());
        assert(digits_value(Seq::<char>::empty(), 10) == 0);
        assert(q.take(1).last() == q[0]);
        assert(digits_value(q.take(1), 10) == hex_digit_value(q[0]));
        assert(w >= 1);
        assert(v / 10 == w && v % 10 == d);
        assert(decimal(v) == decimal(w).push(digit_char(d)));
        assert(digit_char(d) == c);
        assert(p =~= q.push(c));
    }
}

} // verus!

verus! {

/// The pieces joined again with `c` between them.
pub open spec fn join_with<A>(parts: Seq<Seq<A>>, c: A) -> Seq<A>
    decreases parts.len(),
{
    if parts.len() == 0 {
        seq![]
    } else if parts.len() == 1 {
        parts[0]
    } else {
        parts[0] + seq![c] + join_with(parts.drop_first(), c)
    }
}

/// Joining the pieces of a split gives the text back.
pub proof fn lemma_join_split<A>(s: Seq<A>, c: A)
    ensures
        join_with(split_on(s, c), c) == s,
    decreases s.len(),
{
    let i = index_of(s, c);
    lemma_index_of(s, c);
    if 0 <= i < s.len() {
        let rest = s.skip(i + 1);
        lemma_join_split(rest, c);
        lemma_split_nonempty(rest, c);
        let parts = split_on(s, c);
        assert(parts == seq![s.take(i)] + split_on(rest, c));
        assert(parts.drop_first() =~= split_on(rest, c));
        assert(parts[0] == s.take(i));
        assert(s.take(i) + seq![c] + rest =~= s);
    } else {
        assert(split_on(s, c) == seq![s]);
    }
}

/// A text without `c` splits into itself alone.
pub proof fn lemma_split_without<A>(p: Seq<A>, c: A)
    requires
        !p.contains(c),
    ensures
        split_on(p, c) == seq![p],
{
    lemma_index_of_is(p, c, -1);
}

/// A text without `c`, then `c`, then the rest, splits into that text and
/// the pieces of the rest.
pub proof fn lemma_split_concat<A>(p: Seq<A>, c: A, r: Seq<A>)
    requires
        !p.contains(c),
    ensures
        split_on(p + seq![c] + r, c) == seq![p] + split_on(r, c),
{
    let s = p + seq![c] + r;
    assert forall|k: int| 0 <= k < s.len() && (p.len() < 0 || k < p.len()) implies s[k] != c by {
        assert(s[k] == p[k]);
    }
    assert(s[p.len() as int] == c);
    lemma_index_of_is(s, c, p.len() as int);
    assert(s.take(p.len() as int) =~= p);
    assert(s.skip(p.len() as int + 1) =~= r);
}

/// Digits contain no character that is not a digit.
pub proof fn lemma_digits_exclude(s: Seq<char>, c: char)
    requires
        all_digits(s),
        !is_digit(c),
    ensures
        !s.contains(c),
{
    if s.contains(c) {
        let k = choose|k: int| 0 <= k < s.len() && s[k] == c;
        assert(is_digit(s[k]));
    }
}

} // verus!
