//! Character-level helpers shared by the parsers of this crate.
//!
//! Strings are handled as sequences of `char`; each helper states its result
//! over `Seq<char>` so that the parsers built on them can be specified exactly.
use vstd::prelude::*;

verus! {

/// The characters of `s`, in order.
pub fn chars_of(s: &str) -> (v: Vec<char>)
    ensures
        v@ == s@,
{
    let mut v: Vec<char> = Vec::new();
    for c in it: s.chars()
        invariant
            v@ == it.seq().take(it.index() as int),
    {
        v.push(c);
    }
    v
}

/// The pieces of `s` between occurrences of `sep`, as `str::split` with a
/// `char` pattern yields them: one more piece than there are separators,
/// empty pieces included.
pub open spec fn split(s: Seq<char>, sep: char) -> Seq<Seq<char>>
    decreases s.len(),
{
    if s.len() == 0 {
        seq![Seq::<char>::empty()]
    } else {
        let rest = split(s.drop_last(), sep);
        if s.last() == sep {
            rest.push(Seq::<char>::empty())
        } else {
            rest.update(rest.len() - 1, rest.last().push(s.last()))
        }
    }
}

/// `split` always yields at least one piece.
pub proof fn lemma_split_nonempty(s: Seq<char>, sep: char)
    ensures
        split(s, sep).len() >= 1,
    decreases s.len(),
{
    if s.len() > 0 {
        lemma_split_nonempty(s.drop_last(), sep);
    }
}

/// Pairs `(start, end)` of positions in `chars` such that the characters in
/// each range are the pieces of `chars[lo..hi]` split at `sep`.
pub fn split_ranges(chars: &Vec<char>, lo: usize, hi: usize, sep: char) -> (r: Vec<(usize, usize)>)
    requires
        lo <= hi <= chars.len(),
    ensures
        r.len() == split(chars@.subrange(lo as int, hi as int), sep).len(),
        forall|k: int|
            0 <= k < r.len() ==> {
                &&& lo <= #[trigger] r[k].0 <= r[k].1 <= hi
                &&& chars@.subrange(r[k].0 as int, r[k].1 as int) == split(
                    chars@.subrange(lo as int, hi as int),
                    sep,
                )[k]
            },
{
    let mut r: Vec<(usize, usize)> = Vec::new();
    let mut start = lo;
    let mut i = lo;
    while i < hi
        invariant
            lo <= start <= i <= hi <= chars.len(),
            r.len() + 1 == split(chars@.subrange(lo as int, i as int), sep).len(),
            chars@.subrange(start as int, i as int) == split(
                chars@.subrange(lo as int, i as int),
                sep,
            ).last(),
            forall|k: int|
                0 <= k < r.len() ==> {
                    &&& lo <= #[trigger] r[k].0 <= r[k].1 <= start
                    &&& chars@.subrange(r[k].0 as int, r[k].1 as int) == split(
                        chars@.subrange(lo as int, i as int),
                        sep,
                    )[k]
                },
        decreases hi - i,
    {
        let ghost prev = chars@.subrange(lo as int, i as int);
        let ghost next = chars@.subrange(lo as int, i + 1);
        assert(next.drop_last() =~= prev);
        assert(next.last() == chars@[i as int]);
        proof {
            lemma_split_nonempty(prev, sep);
        }
        if chars[i] == sep {
            r.push((start, i));
            start = i + 1;
            assert(chars@.subrange(start as int, i + 1) =~= Seq::<char>::empty());
        } else {
            assert(chars@.subrange(start as int, i + 1) =~= chars@.subrange(
                start as int,
                i as int,
            ).push(chars@[i as int]));
        }
        i = i + 1;
    }
    r.push((start, hi));
    r
}


/// Why a decimal number could not be read; the kinds that `str::parse::<u8>`
/// reports.
#[derive(Debug, Clone, Copy, PartialEq, Eq)]
pub enum IntErrorKind {
    Empty,
    InvalidDigit,
    PosOverflow,
}

pub open spec fn is_digit(c: char) -> bool {
    '0' <= c && c <= '9'
}

pub open spec fn digit_value(c: char) -> int {
    c as int - '0' as int
}

/// The value of a run of decimal digits read left to right, failing at the
/// first character that is not a digit or at the first digit that takes the
/// value past `u8::MAX`, whichever comes first.
pub open spec fn spec_digits_u8(s: Seq<char>) -> Result<int, IntErrorKind>
    decreases s.len(),
{
    if s.len() == 0 {
        Ok(0)
    } else {
        match spec_digits_u8(s.drop_last()) {
            Err(e) => Err(e),
            Ok(v) => if !is_digit(s.last()) {
                Err(IntErrorKind::InvalidDigit)
            } else if v * 10 + digit_value(s.last()) > 255 {
                Err(IntErrorKind::PosOverflow)
            } else {
                Ok(v * 10 + digit_value(s.last()))
            },
        }
    }
}

/// What `str::parse::<u8>` gives for `s`: an optional leading `+`, then one
/// or more decimal digits whose value is at most 255.
pub open spec fn spec_parse_u8(s: Seq<char>) -> Result<u8, IntErrorKind> {
    if s.len() == 0 {
        Err(IntErrorKind::Empty)
    } else if s.len() == 1 && (s[0] == '+' || s[0] == '-') {
        Err(IntErrorKind::InvalidDigit)
    } else {
        let digits = if s[0] == '+' {
            s.drop_first()
        } else {
            s
        };
        match spec_digits_u8(digits) {
            Ok(v) => Ok(v as u8),
            Err(e) => Err(e),
        }
    }
}

proof fn lemma_digits_u8_range(s: Seq<char>)
    ensures
        spec_digits_u8(s) matches Ok(v) ==> 0 <= v <= 255,
    decreases s.len(),
{
    if s.len() > 0 {
        lemma_digits_u8_range(s.drop_last());
    }
}

/// Reads `chars[lo..hi]` as `str::parse::<u8>` would.
pub fn parse_u8(chars: &Vec<char>, lo: usize, hi: usize) -> (r: Result<u8, IntErrorKind>)
    requires
        lo <= hi <= chars.len(),
    ensures
        r == spec_parse_u8(chars@.subrange(lo as int, hi as int)),
{
    let ghost s = chars@.subrange(lo as int, hi as int);
    if lo == hi {
        return Err(IntErrorKind::Empty);
    }
    if hi - lo == 1 && (chars[lo] == '+' || chars[lo] == '-') {
        return Err(IntErrorKind::InvalidDigit);
    }
    let start = if chars[lo] == '+' { lo + 1 } else { lo };
    assert(chars@.subrange(start as int, hi as int) == (if s[0] == '+' {
        s.drop_first()
    } else {
        s
    }));
    let ghost whole = spec_parse_u8(s);
    assert(whole == match spec_digits_u8(chars@.subrange(start as int, hi as int)) {
        Ok(v) => Ok(v as u8),
        Err(e) => Err(e),
    });
    let mut v: u32 = 0;
    let mut i = start;
    while i < hi
        invariant
            lo <= start <= i <= hi <= chars.len(),
            whole == spec_parse_u8(chars@.subrange(lo as int, hi as int)),
            whole == match spec_digits_u8(chars@.subrange(start as int, hi as int)) {
                Ok(v) => Ok(v as u8),
                Err(e) => Err(e),
            },
            spec_digits_u8(chars@.subrange(start as int, i as int)) == Ok::<int, IntErrorKind>(
                v as int,
            ),
            v <= 255,
        decreases hi - i,
    {
        let ghost prev = chars@.subrange(start as int, i as int);
        let ghost next = chars@.subrange(start as int, i + 1);
        assert(next.drop_last() =~= prev);
        let c = chars[i];
        if !('0' <= c && c <= '9') {
            assert(spec_digits_u8(chars@.subrange(start as int, hi as int)) == Err::<int, IntErrorKind>(IntErrorKind::InvalidDigit)) by {
                assert(chars@.subrange(start as int, hi as int).take((i + 1 - start) as int) =~= next);
                lemma_digits_error_extends(chars@.subrange(start as int, hi as int), (i + 1 - start) as int);
            }
            return Err(IntErrorKind::InvalidDigit);
        }
        let d = (c as u32) - ('0' as u32);
        if v * 10 + d > 255 {
            assert(spec_digits_u8(chars@.subrange(start as int, hi as int)) == Err::<int, IntErrorKind>(IntErrorKind::PosOverflow)) by {
                assert(chars@.subrange(start as int, hi as int).take((i + 1 - start) as int) =~= next);
                lemma_digits_error_extends(chars@.subrange(start as int, hi as int), (i + 1 - start) as int);
            }
            return Err(IntErrorKind::PosOverflow);
        }
        v = v * 10 + d;
        i = i + 1;
    }
    assert(chars@.subrange(start as int, i as int) =~= chars@.subrange(start as int, hi as int));
    Ok(v as u8)
}

/// Once a prefix of the digits fails, the whole run fails the same way.
proof fn lemma_digits_error_extends(s: Seq<char>, k: int)
    requires
        0 <= k <= s.len(),
        spec_digits_u8(s.take(k)) is Err,
    ensures
        spec_digits_u8(s) == spec_digits_u8(s.take(k)),
    decreases s.len() - k,
{
    if k < s.len() {
        assert(s.take(k + 1).drop_last() =~= s.take(k));
        lemma_digits_error_extends(s, k + 1);
    } else {
        assert(s.take(k) =~= s);
    }
}


/// `String::push`: appends one character.
#[verifier::external_body]
pub(crate) fn push_char(s: &mut String, c: char)
    ensures
        final(s)@ == old(s)@.push(c),
{
    s.push(c);
}

/// A new `String` holding `chars[lo..hi]`.
pub fn string_from_range(chars: &Vec<char>, lo: usize, hi: usize) -> (r: String)
    requires
        lo <= hi <= chars.len(),
    ensures
        r@ == chars@.subrange(lo as int, hi as int),
{
    let mut r = String::new();
    let mut i = lo;
    while i < hi
        invariant
            lo <= i <= hi <= chars.len(),
            r@ == chars@.subrange(lo as int, i as int),
        decreases hi - i,
    {
        push_char(&mut r, chars[i]);
        assert(chars@.subrange(lo as int, i + 1) =~= chars@.subrange(lo as int, i as int).push(
            chars@[i as int],
        ));
        i = i + 1;
    }
    r
}

/// Appends `chars[lo..hi]`.
pub fn push_range(s: &mut String, chars: &Vec<char>, lo: usize, hi: usize)
    requires
        lo <= hi <= chars.len(),
    ensures
        final(s)@ == old(s)@ + chars@.subrange(lo as int, hi as int),
{
    let mut i = lo;
    while i < hi
        invariant
            lo <= i <= hi <= chars.len(),
            s@ == old(s)@ + chars@.subrange(lo as int, i as int),
        decreases hi - i,
    {
        push_char(s, chars[i]);
        assert(chars@.subrange(lo as int, i + 1) =~= chars@.subrange(lo as int, i as int).push(
            chars@[i as int],
        ));
        assert(old(s)@ + chars@.subrange(lo as int, i + 1) =~= (old(s)@ + chars@.subrange(lo as int, i as int)).push(chars@[i as int]));
        i = i + 1;
    }
}

/// The character that writes the decimal digit `d`.
pub open spec fn digit_char(d: int) -> char {
    if d == 0 {
        '0'
    } else if d == 1 {
        '1'
    } else if d == 2 {
        '2'
    } else if d == 3 {
        '3'
    } else if d == 4 {
        '4'
    } else if d == 5 {
        '5'
    } else if d == 6 {
        '6'
    } else if d == 7 {
        '7'
    } else if d == 8 {
        '8'
    } else {
        '9'
    }
}

/// `n` written in decimal, as `{}` formats an unsigned integer.
pub open spec fn decimal(n: nat) -> Seq<char>
    decreases n,
{
    if n < 10 {
        seq![digit_char(n as int)]
    } else {
        decimal(n / 10).push(digit_char((n % 10) as int))
    }
}

fn digit_of(d: usize) -> (c: char)
    requires
        d < 10,
    ensures
        c == digit_char(d as int),
{
    if d == 0 {
        '0'
    } else if d == 1 {
        '1'
    } else if d == 2 {
        '2'
    } else if d == 3 {
        '3'
    } else if d == 4 {
        '4'
    } else if d == 5 {
        '5'
    } else if d == 6 {
        '6'
    } else if d == 7 {
        '7'
    } else if d == 8 {
        '8'
    } else {
        '9'
    }
}

/// Each character of a number written in decimal is a digit.
pub proof fn lemma_decimal_digits(n: nat)
    ensures
        decimal(n).len() >= 1,
        forall|i: int| 0 <= i < decimal(n).len() ==> is_digit(#[trigger] decimal(n)[i]),
    decreases n,
{
    if n >= 10 {
        lemma_decimal_digits(n / 10);
        assert forall|i: int| 0 <= i < decimal(n).len() implies is_digit(#[trigger] decimal(n)[i]) by {
            if i < decimal(n / 10).len() {
                assert(decimal(n)[i] == decimal(n / 10)[i]);
            }
        }
    }
}

proof fn lemma_digit_char_value(d: int)
    requires
        0 <= d < 10,
    ensures
        is_digit(digit_char(d)),
        digit_value(digit_char(d)) == d,
{
}

proof fn lemma_digits_of_decimal(n: nat)
    requires
        n <= 255,
    ensures
        spec_digits_u8(decimal(n)) == Ok::<int, IntErrorKind>(n as int),
    decreases n,
{
    if n < 10 {
        lemma_digit_char_value(n as int);
        assert(decimal(n).drop_last() =~= Seq::<char>::empty());
        assert(decimal(n).last() == digit_char(n as int));
        assert(spec_digits_u8(decimal(n).drop_last()) == Ok::<int, IntErrorKind>(0));
        assert(is_digit(decimal(n).last()));
        assert(0 * 10 + digit_value(decimal(n).last()) == n);
    } else {
        lemma_digits_of_decimal(n / 10);
        lemma_digit_char_value((n % 10) as int);
        assert(decimal(n).drop_last() =~= decimal(n / 10));
        assert(decimal(n).last() == digit_char((n % 10) as int));
        assert((n / 10) * 10 + n % 10 == n) by (nonlinear_arith);
        assert(spec_digits_u8(decimal(n).drop_last()) == Ok::<int, IntErrorKind>((n / 10) as int));
        assert(is_digit(decimal(n).last()));
        assert((n / 10) * 10 + digit_value(decimal(n).last()) == n);
    }
}

/// Reading a `u8` written in decimal gives it back.
pub proof fn lemma_parse_decimal(n: u8)
    ensures
        spec_parse_u8(decimal(n as nat)) == Ok::<u8, IntErrorKind>(n),
{
    lemma_digits_of_decimal(n as nat);
    lemma_decimal_digits(n as nat);
    assert(is_digit(decimal(n as nat)[0]));
}

/// Appends `n` written in decimal.
pub fn push_decimal(s: &mut String, n: usize)
    ensures
        final(s)@ == old(s)@ + decimal(n as nat),
    decreases n,
{
    if n >= 10 {
        push_decimal(s, n / 10);
    }
    push_char(s, digit_of(n % 10));
    assert(final(s)@ =~= old(s)@ + decimal(n as nat)) by {
        if n < 10 {
            assert(n % 10 == n);
        }
    }
}

/// Drops one `'\r'` at the end, if there is one.
pub open spec fn strip_cr(s: Seq<char>) -> Seq<char> {
    if s.len() > 0 && s.last() == '\r' {
        s.drop_last()
    } else {
        s
    }
}

/// The lines of `s`, as `str::lines` yields them: split at `'\n'`, no empty
/// line after a final `'\n'`, and a `'\r'` dropped before each `'\n'`.
pub open spec fn lines(s: Seq<char>) -> Seq<Seq<char>> {
    let p = split(s, '\n');
    let n = if p.last().len() == 0 {
        p.len() - 1
    } else {
        p.len() as int
    };
    Seq::new(
        n as nat,
        |i: int|
            if i < p.len() - 1 {
                strip_cr(p[i])
            } else {
                p[i]
            },
    )
}

/// `r` lists, in order, ranges of `chars` that hold exactly `pieces`.
pub open spec fn ranges_hold(chars: Seq<char>, r: Seq<(usize, usize)>, pieces: Seq<Seq<char>>) -> bool {
    &&& r.len() == pieces.len()
    &&& forall|k: int|
        #![trigger r[k]]
        0 <= k < r.len() ==> r[k].0 <= r[k].1 <= chars.len() && chars.subrange(
            r[k].0 as int,
            r[k].1 as int,
        ) == pieces[k]
}

/// Ranges of `chars` that hold its lines, in order.
pub fn line_ranges(chars: &Vec<char>) -> (r: Vec<(usize, usize)>)
    ensures
        ranges_hold(chars@, r@, lines(chars@)),
{
    let parts = split_ranges(chars, 0, chars.len(), '\n');
    let ghost p = split(chars@, '\n');
    let ghost ls = lines(chars@);
    assert(chars@.subrange(0, chars.len() as int) =~= chars@);
    proof {
        lemma_split_nonempty(chars@, '\n');
    }
    let np = parts.len();
    let last = parts[np - 1];
    let n = if last.0 == last.1 { np - 1 } else { np };
    assert(p.last().len() == 0 <==> last.0 == last.1);
    let mut r: Vec<(usize, usize)> = Vec::new();
    let mut idx: usize = 0;
    while idx < n
        invariant
            n <= np == parts.len() == p.len(),
            n == ls.len(),
            idx <= n,
            r.len() == idx,
            p == split(chars@, '\n'),
            ls == lines(chars@),
            forall|j: int|
                #![trigger parts@[j]]
                0 <= j < np ==> parts@[j].0 <= parts@[j].1 <= chars.len() && chars@.subrange(
                    parts@[j].0 as int,
                    parts@[j].1 as int,
                ) == p[j],
            ranges_hold(chars@, r@, ls.take(idx as int)),
        decreases n - idx,
    {
        let (a, b) = parts[idx];
        assert(ls[idx as int] == if idx + 1 < np { strip_cr(p[idx as int]) } else { p[idx as int] });
        if idx + 1 < np && a < b && chars[b - 1] == '\r' {
            assert(chars@.subrange(a as int, b - 1) =~= chars@.subrange(a as int, b as int).drop_last());
            r.push((a, b - 1));
        } else {
            r.push((a, b));
        }
        assert(ls.take(idx + 1) =~= ls.take(idx as int).push(ls[idx as int]));
        idx = idx + 1;
    }
    assert(ls.take(n as int) =~= ls);
    r
}

/// Position of the first character of `s` that is `a` or `b`.
pub open spec fn first_of(s: Seq<char>, a: char, b: char) -> Option<int>
    decreases s.len(),
{
    if s.len() == 0 {
        None
    } else {
        match first_of(s.drop_last(), a, b) {
            Some(k) => Some(k),
            None => if s.last() == a || s.last() == b {
                Some(s.len() - 1)
            } else {
                None
            },
        }
    }
}

/// `first_of` names the first position that holds `a` or `b`, and none
/// means no position does.
pub proof fn lemma_first_of(s: Seq<char>, a: char, b: char)
    ensures
        first_of(s, a, b) matches Some(k) ==> {
            &&& 0 <= k < s.len()
            &&& (s[k] == a || s[k] == b)
            &&& forall|j: int| 0 <= j < k ==> s[j] != a && s[j] != b
        },
        first_of(s, a, b) is None ==> forall|j: int| 0 <= j < s.len() ==> s[j] != a && s[j] != b,
    decreases s.len(),
{
    if s.len() > 0 {
        lemma_first_of(s.drop_last(), a, b);
        assert forall|j: int| 0 <= j < s.len() - 1 implies s[j] == s.drop_last()[j] by {}
    }
}

/// The first position that holds `a` or `b` is what `first_of` names.
pub proof fn lemma_first_of_is(s: Seq<char>, a: char, b: char, k: int)
    requires
        0 <= k < s.len(),
        s[k] == a || s[k] == b,
        forall|j: int| 0 <= j < k ==> s[j] != a && s[j] != b,
    ensures
        first_of(s, a, b) == Some(k),
{
    lemma_first_of(s, a, b);
}

/// Finds the first position in `chars[lo..hi]` that holds `a` or `b`.
pub fn find_first_of(chars: &Vec<char>, lo: usize, hi: usize, a: char, b: char) -> (r: Option<usize>)
    requires
        lo <= hi <= chars.len(),
    ensures
        r matches Some(k) ==> lo <= k < hi && first_of(chars@.subrange(lo as int, hi as int), a, b)
            == Some(k - lo),
        r is None ==> first_of(chars@.subrange(lo as int, hi as int), a, b) is None,
{
    let mut i = lo;
    while i < hi
        invariant
            lo <= i <= hi <= chars.len(),
            first_of(chars@.subrange(lo as int, i as int), a, b) is None,
        decreases hi - i,
    {
        assert(chars@.subrange(lo as int, i + 1).drop_last() =~= chars@.subrange(lo as int, i as int));
        if chars[i] == a || chars[i] == b {
            assert(first_of(chars@.subrange(lo as int, i + 1), a, b) == Some((i - lo) as int));
            proof {
                lemma_first_of_extends(chars@.subrange(lo as int, hi as int), (i + 1 - lo) as int, a, b);
                assert(chars@.subrange(lo as int, hi as int).take((i + 1 - lo) as int) =~= chars@.subrange(lo as int, i + 1));
            }
            return Some(i);
        }
        i = i + 1;
    }
    assert(chars@.subrange(lo as int, i as int) =~= chars@.subrange(lo as int, hi as int));
    None
}

/// A position found in a prefix stays the first one in the whole.
proof fn lemma_first_of_extends(s: Seq<char>, k: int, a: char, b: char)
    requires
        0 <= k <= s.len(),
        first_of(s.take(k), a, b) is Some,
    ensures
        first_of(s, a, b) == first_of(s.take(k), a, b),
    decreases s.len() - k,
{
    if k < s.len() {
        assert(s.take(k + 1).drop_last() =~= s.take(k));
        lemma_first_of_extends(s, k + 1, a, b);
    } else {
        assert(s.take(k) =~= s);
    }
}


/// The whitespace that `str::split_ascii_whitespace` splits at
/// (`char::is_ascii_whitespace`).
pub open spec fn is_ascii_ws(c: char) -> bool {
    c == ' ' || c == '\t' || c == '\n' || c == '\x0C' || c == '\r'
}

/// The whitespace that `str::split_whitespace` splits at
/// (`char::is_whitespace`): the characters of Unicode's `White_Space`
/// property.
pub open spec fn is_unicode_ws(c: char) -> bool {
    ||| '\t' <= c <= '\r'
    ||| c == ' '
    ||| c == '\u{85}'
    ||| c == '\u{A0}'
    ||| c == '\u{1680}'
    ||| '\u{2000}' <= c <= '\u{200A}'
    ||| c == '\u{2028}'
    ||| c == '\u{2029}'
    ||| c == '\u{202F}'
    ||| c == '\u{205F}'
    ||| c == '\u{3000}'
}

/// Unicode whitespace when `unicode` holds, else ASCII whitespace.
pub open spec fn is_ws(c: char, unicode: bool) -> bool {
    if unicode {
        is_unicode_ws(c)
    } else {
        is_ascii_ws(c)
    }
}

/// Whether `c` is whitespace (see [`is_ws`]).
pub fn is_space(c: char, unicode: bool) -> (b: bool)
    ensures
        b == is_ws(c, unicode),
{
    if unicode {
        ('\t' <= c && c <= '\r') || c == ' ' || c == '\u{85}' || c == '\u{A0}' || c == '\u{1680}'
            || ('\u{2000}' <= c && c <= '\u{200A}') || c == '\u{2028}' || c == '\u{2029}'
            || c == '\u{202F}' || c == '\u{205F}' || c == '\u{3000}'
    } else {
        c == ' ' || c == '\t' || c == '\n' || c == '\x0C' || c == '\r'
    }
}

/// The maximal runs of characters other than whitespace, in order: as
/// `str::split_whitespace` yields them when `unicode` holds, else as
/// `str::split_ascii_whitespace` does.
pub open spec fn words(s: Seq<char>, unicode: bool) -> Seq<Seq<char>>
    decreases s.len(),
{
    if s.len() == 0 {
        Seq::empty()
    } else {
        let w = words(s.drop_last(), unicode);
        if is_ws(s.last(), unicode) {
            w
        } else if s.len() >= 2 && !is_ws(s[s.len() - 2], unicode) {
            w.update(w.len() - 1, w.last().push(s.last()))
        } else {
            w.push(seq![s.last()])
        }
    }
}

/// A run that ends in a character other than whitespace ends inside a word.
proof fn lemma_words_nonempty(s: Seq<char>, unicode: bool)
    requires
        s.len() > 0,
        !is_ws(s.last(), unicode),
    ensures
        words(s, unicode).len() > 0,
    decreases s.len(),
{
    if s.len() >= 2 && !is_ws(s[s.len() - 2], unicode) {
        assert(s.drop_last().last() == s[s.len() - 2]);
        lemma_words_nonempty(s.drop_last(), unicode);
    }
}

/// Ranges of `chars[lo..hi]` that hold its words, in order.
pub fn word_ranges(chars: &Vec<char>, lo: usize, hi: usize, unicode: bool) -> (r: Vec<(usize, usize)>)
    requires
        lo <= hi <= chars.len(),
    ensures
        ranges_hold(chars@, r@, words(chars@.subrange(lo as int, hi as int), unicode)),
        forall|k: int| #![trigger r@[k]] 0 <= k < r.len() ==> lo <= r@[k].0,
{
    let mut r: Vec<(usize, usize)> = Vec::new();
    let mut start = lo;
    let mut i = lo;
    while i < hi
        invariant
            lo <= start <= i <= hi <= chars.len(),
            forall|k: int| #![trigger r@[k]] 0 <= k < r.len() ==> lo <= r@[k].0,
            if i > lo && !is_ws(chars@[i - 1], unicode) {
                &&& r.len() + 1 == words(chars@.subrange(lo as int, i as int), unicode).len()
                &&& ranges_hold(
                    chars@,
                    r@.push((start, i)),
                    words(chars@.subrange(lo as int, i as int), unicode),
                )
            } else {
                ranges_hold(chars@, r@, words(chars@.subrange(lo as int, i as int), unicode))
            },
        decreases hi - i,
    {
        let ghost prev = chars@.subrange(lo as int, i as int);
        let ghost next = chars@.subrange(lo as int, i + 1);
        assert(next.drop_last() =~= prev);
        let c = chars[i];
        let ws = is_space(c, unicode);
        let in_word = i > lo && !is_space(chars[i - 1], unicode);
        if ws {
            assert(words(next, unicode) == words(prev, unicode));
            if in_word {
                r.push((start, i));
            }
            assert(ranges_hold(chars@, r@, words(next, unicode)));
        } else if in_word {
            assert(next.len() >= 2 && next[next.len() - 2] == chars@[i - 1]);
            assert(prev.last() == chars@[i - 1]);
            proof {
                lemma_words_nonempty(prev, unicode);
            }
            let ghost w = words(prev, unicode);
            assert(words(next, unicode) == w.update(w.len() - 1, w.last().push(c)));
            assert(chars@.subrange(start as int, i + 1) =~= chars@.subrange(start as int, i as int).push(c));
            let ghost old_r = r@.push((start, i));
            let ghost new_r = r@.push((start, (i + 1) as usize));
            assert(old_r[r.len() as int] == (start, i));
            assert(w.last() == chars@.subrange(start as int, i as int));
            assert forall|k: int| 0 <= k < r.len() implies new_r[k] == old_r[k] by {}
            assert(ranges_hold(chars@, new_r, words(next, unicode)));
        } else {
            start = i;
            assert(words(next, unicode) == words(prev, unicode).push(seq![c]));
            assert(chars@.subrange(start as int, i + 1) =~= seq![c]);
            assert(ranges_hold(chars@, r@.push((start, (i + 1) as usize)), words(next, unicode)));
        }
        i = i + 1;
    }
    if i > lo {
        if !is_space(chars[i - 1], unicode) {
            r.push((start, i));
        }
    }
    r
}

} // verus!
