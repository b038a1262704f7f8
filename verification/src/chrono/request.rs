//! Reading a roll request, such as `advantage:3 proficiency`, into a pool of
//! dice.
use vstd::prelude::*;

use crate::text::{
    chars_of, find_first_of, first_of, parse_u8, spec_parse_u8, string_from_range, word_ranges,
    words, IntErrorKind,
};

verus! {

/// The name that `str::to_lowercase` gives for `s`.
pub uninterp spec fn lowercase(s: Seq<char>) -> Seq<char>;

/// `str::to_lowercase`: the result is `lowercase` of the argument; what
/// that is for each character is Unicode's lowercase mapping, which is not
/// stated here.
#[verifier::external_body]
fn to_lowercase(s: &str) -> (r: String)
    ensures
        r@ == lowercase(s@),
{
    s.to_lowercase()
}

/// One word of a request: `name` rolls the die once, `name:n` rolls it `n`
/// times; `n` is read as `str::parse::<u8>` reads it.
pub open spec fn spec_pool_entry(w: Seq<char>) -> Result<(Seq<char>, u8), IntErrorKind> {
    match first_of(w, ':', ':') {
        None => Ok((w, 1u8)),
        Some(k) => match spec_parse_u8(w.skip(k + 1)) {
            Ok(n) => Ok((w.take(k), n)),
            Err(e) => Err(e),
        },
    }
}

/// The entries of each word in turn, or the first error among them.
pub open spec fn spec_entries(ws: Seq<Seq<char>>) -> Result<Seq<(Seq<char>, u8)>, IntErrorKind>
    decreases ws.len(),
{
    if ws.len() == 0 {
        Ok(Seq::empty())
    } else {
        match spec_entries(ws.drop_last()) {
            Err(e) => Err(e),
            Ok(v) => match spec_pool_entry(ws.last()) {
                Ok(x) => Ok(v.push(x)),
                Err(e) => Err(e),
            },
        }
    }
}

/// The pool that a request asks for: its words, split at ASCII whitespace.
pub open spec fn spec_pools(s: Seq<char>) -> Result<Seq<(Seq<char>, u8)>, IntErrorKind> {
    spec_entries(words(s, false))
}

/// The names and counts of a pool, as plain values.
pub open spec fn pool_view(p: Seq<(String, u8)>) -> Seq<(Seq<char>, u8)> {
    p.map_values(|e: (String, u8)| (e.0@, e.1))
}

proof fn lemma_entries_error_extends(ws: Seq<Seq<char>>, k: int)
    requires
        0 <= k <= ws.len(),
        spec_entries(ws.take(k)) is Err,
    ensures
        spec_entries(ws) == spec_entries(ws.take(k)),
    decreases ws.len() - k,
{
    if k < ws.len() {
        assert(ws.take(k + 1).drop_last() =~= ws.take(k));
        lemma_entries_error_extends(ws, k + 1);
    } else {
        assert(ws.take(k) =~= ws);
    }
}

/// Reading words into entries gives one entry per word, in order, each as
/// that word reads on its own; it fails exactly when some word does not
/// read, with the error of the first such word.
pub proof fn lemma_entries_per_word(ws: Seq<Seq<char>>)
    ensures
        spec_entries(ws) is Ok <==> forall|i: int| 0 <= i < ws.len() ==> #[trigger] spec_pool_entry(ws[i]) is Ok,
        spec_entries(ws) matches Ok(v) ==> v.len() == ws.len() && forall|i: int|
            0 <= i < ws.len() ==> v[i] == (#[trigger] spec_pool_entry(ws[i]))->Ok_0,
        spec_entries(ws) matches Err(e) ==> exists|i: int|
            0 <= i < ws.len() && #[trigger] spec_pool_entry(ws[i]) == Err::<(Seq<char>, u8), IntErrorKind>(e)
                && forall|j: int| 0 <= j < i ==> #[trigger] spec_pool_entry(ws[j]) is Ok,
    decreases ws.len(),
{
    if ws.len() > 0 {
        let init = ws.drop_last();
        lemma_entries_per_word(init);
        assert forall|i: int| 0 <= i < init.len() implies init[i] == ws[i] by {}
        if spec_entries(init) is Err {
            let e = spec_entries(init)->Err_0;
            let i = choose|i: int|
                0 <= i < init.len() && #[trigger] spec_pool_entry(init[i]) == Err::<(Seq<char>, u8), IntErrorKind>(e)
                    && forall|j: int| 0 <= j < i ==> #[trigger] spec_pool_entry(init[j]) is Ok;
            assert(spec_pool_entry(ws[i]) == Err::<(Seq<char>, u8), IntErrorKind>(e));
            assert forall|j: int| 0 <= j < i implies #[trigger] spec_pool_entry(ws[j]) is Ok by {
                assert(spec_pool_entry(init[j]) is Ok);
            }
        } else {
            assert forall|j: int| 0 <= j < init.len() implies #[trigger] spec_pool_entry(ws[j]) is Ok by {
                assert(spec_pool_entry(init[j]) is Ok);
            }
            assert(ws.last() == ws[ws.len() - 1]);
        }
    }
}

/// A request gives one pool entry per word (split at ASCII whitespace), in
/// order, each as that word reads on its own: a die named twice is rolled
/// twice. It fails exactly when some word does not read, with the error of
/// the first such word.
pub proof fn lemma_pools_per_word(s: Seq<char>)
    ensures
        spec_pools(s) is Ok <==> forall|i: int|
            0 <= i < words(s, false).len() ==> #[trigger] spec_pool_entry(words(s, false)[i]) is Ok,
        spec_pools(s) matches Ok(v) ==> v.len() == words(s, false).len() && forall|i: int|
            0 <= i < v.len() ==> v[i] == (#[trigger] spec_pool_entry(words(s, false)[i]))->Ok_0,
        spec_pools(s) matches Err(e) ==> exists|i: int|
            0 <= i < words(s, false).len() && #[trigger] spec_pool_entry(words(s, false)[i]) == Err::<
                (Seq<char>, u8),
                IntErrorKind,
            >(e) && forall|j: int| 0 <= j < i ==> #[trigger] spec_pool_entry(words(s, false)[j]) is Ok,
{
    lemma_entries_per_word(words(s, false));
}

/// Reads a request that is already in lower case.
pub fn parse_pools(content: &str) -> (r: Result<Vec<(String, u8)>, IntErrorKind>)
    ensures
        match spec_pools(content@) {
            Ok(v) => r matches Ok(p) && pool_view(p@) == v,
            Err(e) => r == Err::<Vec<(String, u8)>, IntErrorKind>(e),
        },
{
    let chars = chars_of(content);
    let ws = word_ranges(&chars, 0, chars.len(), false);
    let ghost wv = words(content@, false);
    assert(chars@.subrange(0, chars.len() as int) =~= content@);
    let mut out: Vec<(String, u8)> = Vec::new();
    assert(wv.take(0) =~= Seq::<Seq<char>>::empty());
    assert(pool_view(out@) =~= Seq::<(Seq<char>, u8)>::empty());
    let mut i: usize = 0;
    while i < ws.len()
        invariant
            i <= ws.len() == wv.len(),
            wv == words(content@, false),
            crate::text::ranges_hold(chars@, ws@, wv),
            spec_entries(wv.take(i as int)) == Ok::<Seq<(Seq<char>, u8)>, IntErrorKind>(
                pool_view(out@),
            ),
        decreases ws.len() - i,
    {
        let (a, b) = ws[i];
        assert(ws@[i as int] == (a, b));
        let ghost w = wv[i as int];
        assert(chars@.subrange(a as int, b as int) == w);
        assert(wv.take(i + 1).drop_last() =~= wv.take(i as int));
        assert(wv.take(i + 1).last() == w);
        let ghost old_out = out@;
        let entry = match find_first_of(&chars, a, b, ':', ':') {
            None => (string_from_range(&chars, a, b), 1u8),
            Some(k) => {
                assert(chars@.subrange(k + 1, b as int) =~= w.skip(k + 1 - a));
                assert(chars@.subrange(a as int, k as int) =~= w.take(k - a));
                match parse_u8(&chars, k + 1, b) {
                    Ok(n) => (string_from_range(&chars, a, k), n),
                    Err(e) => {
                        proof {
                            assert(spec_pool_entry(w) == Err::<(Seq<char>, u8), IntErrorKind>(e));
                            assert(spec_entries(wv.take(i + 1)) == Err::<Seq<(Seq<char>, u8)>, IntErrorKind>(e));
                            lemma_entries_error_extends(wv, i + 1);
                        }
                        return Err(e);
                    },
                }
            },
        };
        assert(spec_pool_entry(w) == Ok::<(Seq<char>, u8), IntErrorKind>((entry.0@, entry.1)));
        out.push(entry);
        assert(pool_view(out@) =~= pool_view(old_out).push((entry.0@, entry.1)));
        i = i + 1;
    }
    assert(wv.take(i as int) =~= wv);
    Ok(out)
}

/// Reads a roll request: the text is put in lower case, then read as
/// [`parse_pools`] reads it.
pub fn parse_roll_request(content: &str) -> (r: Result<Vec<(String, u8)>, IntErrorKind>)
    ensures
        match spec_pools(lowercase(content@)) {
            Ok(v) => r matches Ok(p) && pool_view(p@) == v,
            Err(e) => r == Err::<Vec<(String, u8)>, IntErrorKind>(e),
        },
{
    let lowered = to_lowercase(content);
    parse_pools(lowered.as_str())
}

/// What a `roll` message asks for: nothing when the message is empty (it is
/// ignored), else the request read as [`parse_roll_request`] reads it.
pub fn roll_message(content: &str) -> (r: Option<Result<Vec<(String, u8)>, IntErrorKind>>)
    ensures
        r is None <==> content@.len() == 0,
        r matches Some(x) ==> match spec_pools(lowercase(content@)) {
            Ok(v) => x matches Ok(p) && pool_view(p@) == v,
            Err(e) => x == Err::<Vec<(String, u8)>, IntErrorKind>(e),
        },
{
    if chars_of(content).len() == 0 {
        None
    } else {
        Some(parse_roll_request(content))
    }
}

} // verus!
