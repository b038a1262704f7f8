//! Names for generated items: turning arbitrary text into an identifier,
//! and matching attribute paths.
use vstd::prelude::*;

use convert_case::Casing;

use crate::text::{chars_of, decimal, is_ascii_ws, push_char, push_decimal, push_range};
use vstd::utf8::{
    char_is_scalar, encode_scalar, encode_utf8, last_continuation_byte, leading_byte_width_1,
    leading_byte_width_2, leading_byte_width_3, leading_byte_width_4, second_last_continuation_byte,
    third_last_continuation_byte,
};

verus! {

/// A character that may stay in an identifier: an ASCII letter or digit,
/// or `_`.
pub open spec fn ident_char(c: char) -> bool {
    ('a' <= c && c <= 'z') || ('A' <= c && c <= 'Z') || ('0' <= c && c <= '9') || c == '_'
}

/// How many bytes UTF-8 takes for `c`.
pub open spec fn utf8_len(c: char) -> nat {
    if (c as u32) < 0x80 {
        1
    } else if (c as u32) < 0x800 {
        2
    } else if (c as u32) < 0x10000 {
        3
    } else {
        4
    }
}

/// `s` with each byte of each character that may not stay in an
/// identifier replaced by `_`.
pub open spec fn sanitized(s: Seq<char>) -> Seq<char>
    decreases s.len(),
{
    if s.len() == 0 {
        Seq::empty()
    } else {
        sanitized(s.drop_last()) + if ident_char(s.last()) {
            seq![s.last()]
        } else {
            Seq::new(utf8_len(s.last()), |i: int| '_')
        }
    }
}

/// Replaces each byte of each character that may not stay in an identifier
/// by `_`, so that the byte length is kept.
pub fn sanitize_name(s: String) -> (r: String)
    ensures
        r@ == sanitized(s@),
        encode_utf8(r@) == sanitized_bytes(encode_utf8(s@)),
{
    let chars = chars_of(s.as_str());
    let mut r = String::new();
    let mut i: usize = 0;
    while i < chars.len()
        invariant
            i <= chars.len(),
            chars@ == s@,
            r@ == sanitized(chars@.take(i as int)),
        decreases chars.len() - i,
    {
        let c = chars[i];
        let ghost before = r@;
        assert(chars@.take(i + 1).drop_last() =~= chars@.take(i as int));
        assert(chars@.take(i + 1).last() == c);
        if ('a' <= c && c <= 'z') || ('A' <= c && c <= 'Z') || ('0' <= c && c <= '9') || c == '_' {
            push_char(&mut r, c);
        } else {
            let code = c as u32;
            let n: usize = if code < 0x80 {
                1
            } else if code < 0x800 {
                2
            } else if code < 0x10000 {
                3
            } else {
                4
            };
            assert(n == utf8_len(c));
            let mut k: usize = 0;
            while k < n
                invariant
                    k <= n,
                    r@ == before + Seq::new(k as nat, |j: int| '_'),
                decreases n - k,
            {
                push_char(&mut r, '_');
                assert(before + Seq::new((k + 1) as nat, |j: int| '_') =~= (before + Seq::new(
                    k as nat,
                    |j: int| '_',
                )).push('_'));
                k = k + 1;
            }
        }
        i = i + 1;
    }
    assert(chars@.take(i as int) =~= s@);
    proof {
        lemma_sanitized_bytes(s@);
    }
    r
}

/// A sanitized name is kept as it is by sanitizing it again.
pub proof fn lemma_sanitized_idempotent(s: Seq<char>)
    ensures
        sanitized(sanitized(s)) == sanitized(s),
{
    lemma_sanitized_all_ident(s);
    lemma_sanitized_keeps_ident(sanitized(s));
}

/// Every character of a sanitized name may stay in an identifier.
pub proof fn lemma_sanitized_all_ident(s: Seq<char>)
    ensures
        forall|i: int| 0 <= i < sanitized(s).len() ==> ident_char(#[trigger] sanitized(s)[i]),
    decreases s.len(),
{
    if s.len() > 0 {
        lemma_sanitized_all_ident(s.drop_last());
        let a = sanitized(s.drop_last());
        let b = if ident_char(s.last()) {
            seq![s.last()]
        } else {
            Seq::new(utf8_len(s.last()), |i: int| '_')
        };
        assert forall|i: int| 0 <= i < sanitized(s).len() implies ident_char(#[trigger] sanitized(s)[i]) by {
            if i < a.len() {
                assert(sanitized(s)[i] == a[i]);
            } else {
                assert(sanitized(s)[i] == b[i - a.len()]);
            }
        }
    }
}

/// A name made only of identifier characters is kept as it is.
proof fn lemma_sanitized_keeps_ident(s: Seq<char>)
    requires
        forall|i: int| 0 <= i < s.len() ==> ident_char(#[trigger] s[i]),
    ensures
        sanitized(s) == s,
    decreases s.len(),
{
    if s.len() > 0 {
        assert(ident_char(s[s.len() - 1]));
        lemma_sanitized_keeps_ident(s.drop_last());
        assert(s.drop_last().push(s.last()) =~= s);
        assert(sanitized(s) =~= s.drop_last() + seq![s.last()]);
    }
}

/// A byte that may stay in an identifier: an ASCII letter or digit, or `_`.
pub open spec fn ident_byte(b: u8) -> bool {
    (97 <= b && b <= 122) || (65 <= b && b <= 90) || (48 <= b && b <= 57) || b == 95
}

/// `bytes` with each byte that may not stay in an identifier replaced by
/// `_`.
pub open spec fn sanitized_bytes(bytes: Seq<u8>) -> Seq<u8> {
    bytes.map_values(|b: u8| if ident_byte(b) { b } else { 95u8 })
}

/// Sanitizing a name works byte by byte on its UTF-8 text: each byte that
/// may not stay in an identifier becomes `_`, the others stay. So the byte
/// length is kept, and every byte of the result is ASCII.
pub proof fn lemma_sanitized_bytes(s: Seq<char>)
    ensures
        encode_utf8(sanitized(s)) == sanitized_bytes(encode_utf8(s)),
        encode_utf8(sanitized(s)).len() == encode_utf8(s).len(),
    decreases s.len(),
{
    if s.len() > 0 {
        let rest = s.drop_last();
        let c = s.last();
        lemma_sanitized_bytes(rest);
        let piece = if ident_char(c) {
            seq![c]
        } else {
            Seq::new(utf8_len(c), |i: int| '_')
        };
        lemma_encode_concat(sanitized(rest), piece);
        assert(s =~= rest + seq![c]);
        lemma_encode_concat(rest, seq![c]);
        lemma_encode_one(c);
        lemma_piece_bytes(c);
        assert(sanitized_bytes(encode_utf8(rest) + encode_scalar(c as u32)) =~= sanitized_bytes(
            encode_utf8(rest),
        ) + sanitized_bytes(encode_scalar(c as u32)));
    }
}

/// The UTF-8 text of two strings written one after the other.
proof fn lemma_encode_concat(a: Seq<char>, b: Seq<char>)
    ensures
        encode_utf8(a + b) == encode_utf8(a) + encode_utf8(b),
    decreases a.len(),
{
    if a.len() == 0 {
        assert(a + b =~= b);
    } else {
        assert((a + b).drop_first() =~= a.drop_first() + b);
        lemma_encode_concat(a.drop_first(), b);
        assert(encode_utf8(a) + encode_utf8(b) =~= encode_scalar(a[0] as u32) + (encode_utf8(
            a.drop_first(),
        ) + encode_utf8(b)));
    }
}

/// The UTF-8 text of a single character.
proof fn lemma_encode_one(c: char)
    ensures
        encode_utf8(seq![c]) == encode_scalar(c as u32),
{
    let t = seq![c];
    assert(t.drop_first() =~= Seq::<char>::empty());
    assert(encode_utf8(t.drop_first()) == Seq::<u8>::empty());
    assert(encode_utf8(t) == encode_scalar(t[0] as u32) + encode_utf8(t.drop_first()));
    assert(encode_utf8(t) =~= encode_scalar(c as u32));
}

/// The UTF-8 text of a run of `_`.
proof fn lemma_encode_underscores(n: nat)
    ensures
        encode_utf8(Seq::new(n, |i: int| '_')) == Seq::new(n, |i: int| 95u8),
    decreases n,
{
    if n > 0 {
        let u = Seq::new(n, |i: int| '_');
        assert(u.drop_first() =~= Seq::new((n - 1) as nat, |i: int| '_'));
        lemma_encode_underscores((n - 1) as nat);
        let v: u32 = '_' as u32;
        assert(v == 95);
        assert(v & 0x7F == v) by (bit_vector)
            requires
                v == 95,
        ;
        assert(encode_scalar(v) =~= seq![95u8]);
        assert(encode_utf8(u) =~= Seq::new(n, |i: int| 95u8));
    }
}

/// Every byte of a character of two or more bytes is at least 0x80.
proof fn lemma_high_bytes(v: u32)
    by (bit_vector)
    ensures
        leading_byte_width_2(v) >= 0x80,
        leading_byte_width_3(v) >= 0x80,
        leading_byte_width_4(v) >= 0x80,
        last_continuation_byte(v) >= 0x80,
        second_last_continuation_byte(v) >= 0x80,
        third_last_continuation_byte(v) >= 0x80,
{
}

/// What sanitizing makes of one character, byte by byte.
proof fn lemma_piece_bytes(c: char)
    ensures
        encode_utf8(
            if ident_char(c) {
                seq![c]
            } else {
                Seq::new(utf8_len(c), |i: int| '_')
            },
        ) == sanitized_bytes(encode_scalar(c as u32)),
{
    let v = c as u32;
    char_is_scalar(c);
    lemma_high_bytes(v);
    if v < 0x80 {
        assert(v & 0x7F == v) by (bit_vector)
            requires
                v < 0x80,
        ;
        assert(leading_byte_width_1(v) == v);
        assert(ident_byte(leading_byte_width_1(v)) == ident_char(c));
    }
    if ident_char(c) {
        lemma_encode_one(c);
        assert(sanitized_bytes(encode_scalar(v)) =~= encode_scalar(v));
    } else {
        lemma_encode_underscores(utf8_len(c));
        assert(sanitized_bytes(encode_scalar(v)) =~= Seq::new(utf8_len(c), |i: int| 95u8));
    }
}

/// What `convert_case` makes of a text in snake case.
pub uninterp spec fn snake_case(s: Seq<char>) -> Seq<char>;

/// `Casing::to_case(Case::Snake)` of the `convert_case` crate. Its result is
/// named [`snake_case`] of the text; the crate's rules for splitting words
/// and lowering letters are not written out.
#[verifier::external_body]
fn to_snake_case(s: &str) -> (r: String)
    ensures
        r@ == snake_case(s@),
{
    s.to_case(convert_case::Case::Snake)
}

/// `s` without its ASCII whitespace.
pub open spec fn without_ascii_ws(s: Seq<char>) -> Seq<char>
    decreases s.len(),
{
    if s.len() == 0 {
        Seq::empty()
    } else if is_ascii_ws(s.last()) {
        without_ascii_ws(s.drop_last())
    } else {
        without_ascii_ws(s.drop_last()).push(s.last())
    }
}

/// The name that field `i` gets: its own name when it has one; else its
/// type's text, `_` and `i`, sanitized, without whitespace, in snake case.
pub open spec fn spec_field_name(i: nat, ident: Option<Seq<char>>, type_text: Seq<char>) -> Seq<char> {
    match ident {
        Some(name) => name,
        None => snake_case(without_ascii_ws(sanitized(type_text + seq!['_'] + decimal(i)))),
    }
}

/// `s` with its ASCII whitespace removed.
fn remove_ascii_ws(s: &String) -> (r: String)
    ensures
        r@ == without_ascii_ws(s@),
{
    let chars = chars_of(s.as_str());
    let mut r = String::new();
    let mut i: usize = 0;
    while i < chars.len()
        invariant
            i <= chars.len(),
            chars@ == s@,
            r@ == without_ascii_ws(chars@.take(i as int)),
        decreases chars.len() - i,
    {
        let c = chars[i];
        assert(chars@.take(i + 1).drop_last() =~= chars@.take(i as int));
        assert(chars@.take(i + 1).last() == c);
        if !crate::text::is_space(c, false) {
            push_char(&mut r, c);
        }
        i = i + 1;
    }
    assert(chars@.take(i as int) =~= s@);
    r
}

/// The name that field `i` of a variant gets in the generated match arm
/// (see [`spec_field_name`]); `type_text` is the field's type as written.
pub fn field_name(i: usize, ident: &Option<String>, type_text: &str) -> (r: String)
    ensures
        r@ == spec_field_name(
            i as nat,
            match ident {
                Some(n) => Some(n@),
                None => None,
            },
            type_text@,
        ),
{
    match ident {
        Some(name) => name.clone(),
        None => {
            let chars = chars_of(type_text);
            let mut text = String::new();
            push_range(&mut text, &chars, 0, chars.len());
            push_char(&mut text, '_');
            push_decimal(&mut text, i);
            assert(chars@.subrange(0, chars.len() as int) =~= chars@);
            assert(text@ =~= type_text@ + seq!['_'] + decimal(i as nat));
            let clean = remove_ascii_ws(&sanitize_name(text));
            to_snake_case(clean.as_str())
        },
    }
}

/// The names of the fields that a variant hands to its delegate: the
/// fields of `type_texts` from `skip` on, numbered from 0.
pub fn field_names(type_texts: &Vec<String>, skip: usize) -> (r: Vec<String>)
    requires
        skip <= type_texts.len(),
    ensures
        r.len() == type_texts.len() - skip,
        forall|k: int|
            0 <= k < r.len() ==> #[trigger] r@[k]@ == spec_field_name(
                k as nat,
                None,
                type_texts@[skip + k]@,
            ),
{
    let mut r: Vec<String> = Vec::new();
    let mut k: usize = 0;
    while skip + k < type_texts.len()
        invariant
            skip <= type_texts.len(),
            r.len() == k,
            skip + k <= type_texts.len(),
            forall|j: int|
                0 <= j < k ==> #[trigger] r@[j]@ == spec_field_name(j as nat, None, type_texts@[skip + j]@),
        decreases type_texts.len() - skip - k,
    {
        let name = field_name(k, &None, type_texts[skip + k].as_str());
        r.push(name);
        k = k + 1;
    }
    r
}

/// A path written as its segments, such as `["harmony_autonomy", "delegate"]`.
pub struct PathComponents(pub &'static [&'static str]);

impl PathComponents {
    /// Whether a path has exactly these segments, in order.
    pub fn matches(&self, segments: &Vec<String>) -> (r: bool)
        ensures
            r == (self.0@.map_values(|s: &str| s@) == segments@.map_values(|s: String| s@)),
    {
        let ghost mine = self.0@.map_values(|s: &str| s@);
        let ghost theirs = segments@.map_values(|s: String| s@);
        if self.0.len() != segments.len() {
            assert(mine.len() != theirs.len());
            return false;
        }
        let mut i: usize = 0;
        while i < segments.len()
            invariant
                i <= segments.len() == self.0.len(),
                mine == self.0@.map_values(|s: &str| s@),
                theirs == segments@.map_values(|s: String| s@),
                forall|k: int| 0 <= k < i ==> mine[k] == theirs[k],
            decreases segments.len() - i,
        {
            let seg = String::from_str(self.0[i]);
            if !(seg == segments[i]) {
                assert(mine[i as int] != theirs[i as int]);
                return false;
            }
            i = i + 1;
        }
        assert(mine =~= theirs);
        true
    }
}

} // verus!
