//! Single die-face outcomes and how a face is written in the dice table.
use vstd::prelude::*;

use crate::chrono::error::RollError;
use crate::text::chars_of;

verus! {

/// One outcome on a die face.
#[derive(Debug, Clone, PartialEq, Eq, Structural)]
pub enum RollAxes {
    Blank,
    OppThreat(bool),
    PassFail { outcome: bool, outstanding: bool },
}

/// The outcome that a character stands for, if any: `S` success, `F`
/// failure, `*` triumph, `X` despair, `O` opportunity, `T` threat.
pub open spec fn axis_of(c: char) -> Option<RollAxes> {
    if c == 'S' {
        Some(RollAxes::PassFail { outcome: true, outstanding: false })
    } else if c == 'F' {
        Some(RollAxes::PassFail { outcome: false, outstanding: false })
    } else if c == '*' {
        Some(RollAxes::PassFail { outcome: true, outstanding: true })
    } else if c == 'X' {
        Some(RollAxes::PassFail { outcome: false, outstanding: true })
    } else if c == 'O' {
        Some(RollAxes::OppThreat(true))
    } else if c == 'T' {
        Some(RollAxes::OppThreat(false))
    } else {
        None
    }
}

/// The outcomes of the characters of `s` in order, or the first character
/// that stands for none.
pub open spec fn spec_axes(s: Seq<char>) -> Result<Seq<RollAxes>, char>
    decreases s.len(),
{
    if s.len() == 0 {
        Ok(Seq::empty())
    } else {
        match spec_axes(s.drop_last()) {
            Err(c) => Err(c),
            Ok(v) => match axis_of(s.last()) {
                Some(a) => Ok(v.push(a)),
                None => Err(s.last()),
            },
        }
    }
}

/// The outcomes that a written face stands for: the empty face and `B` are
/// one blank; otherwise one outcome per character.
pub open spec fn spec_face(s: Seq<char>) -> Result<Seq<RollAxes>, char> {
    if s.len() == 0 || s == seq!['B'] {
        Ok(seq![RollAxes::Blank])
    } else {
        spec_axes(s)
    }
}

/// A blank face may be written as no characters or as a single `B`; either
/// reads as one blank outcome.
pub proof fn lemma_blank_forms()
    ensures
        spec_face(Seq::empty()) == Ok::<Seq<RollAxes>, char>(seq![RollAxes::Blank]),
        spec_face(seq!['B']) == Ok::<Seq<RollAxes>, char>(seq![RollAxes::Blank]),
{
}

impl RollAxes {
    /// The outcome that `c` stands for; any other character is refused.
    pub fn try_from(c: char) -> (r: Result<RollAxes, RollError>)
        ensures
            match axis_of(c) {
                Some(a) => r == Ok::<RollAxes, RollError>(a),
                None => r matches Err(RollError::InvalidAxisChar(e)) && e == c,
            },
    {
        match c {
            'S' => Ok(RollAxes::PassFail { outcome: true, outstanding: false }),
            'F' => Ok(RollAxes::PassFail { outcome: false, outstanding: false }),
            '*' => Ok(RollAxes::PassFail { outcome: true, outstanding: true }),
            'X' => Ok(RollAxes::PassFail { outcome: false, outstanding: true }),
            'O' => Ok(RollAxes::OppThreat(true)),
            'T' => Ok(RollAxes::OppThreat(false)),
            _ => Err(RollError::InvalidAxisChar(c)),
        }
    }
}

/// The outcomes on one die face.
#[derive(Debug, Clone)]
pub struct RollAxesVec(pub Vec<RollAxes>);

impl View for RollAxesVec {
    type V = Seq<RollAxes>;

    open spec fn view(&self) -> Seq<RollAxes> {
        self.0@
    }
}

impl From<Vec<RollAxes>> for RollAxesVec {
    fn from(vec: Vec<RollAxes>) -> (r: Self) {
        RollAxesVec(vec)
    }
}

impl vstd::std_specs::convert::FromSpecImpl<Vec<RollAxes>> for RollAxesVec {
    open spec fn obeys_from_spec() -> bool {
        true
    }

    open spec fn from_spec(vec: Vec<RollAxes>) -> Self {
        RollAxesVec(vec)
    }
}

impl RollAxesVec {
    /// Reads the face written in `chars[lo..hi]`.
    pub fn from_chars(chars: &Vec<char>, lo: usize, hi: usize) -> (r: Result<RollAxesVec, RollError>)
        requires
            lo <= hi <= chars.len(),
        ensures
            match spec_face(chars@.subrange(lo as int, hi as int)) {
                Ok(v) => r matches Ok(f) && f@ == v,
                Err(c) => r matches Err(RollError::InvalidAxisChar(e)) && e == c,
            },
    {
        let ghost s = chars@.subrange(lo as int, hi as int);
        if lo == hi || (hi - lo == 1 && chars[lo] == 'B') {
            assert(s.len() == 0 || s =~= seq!['B']);
            let mut v: Vec<RollAxes> = Vec::new();
            v.push(RollAxes::Blank);
            return Ok(RollAxesVec(v));
        }
        assert(!(s.len() == 0 || s =~= seq!['B'])) by {
            if s =~= seq!['B'] {
                assert(s[0] == chars@[lo as int]);
            }
        }
        let mut v: Vec<RollAxes> = Vec::new();
        let mut i = lo;
        while i < hi
            invariant
                lo <= i <= hi <= chars.len(),
                s == chars@.subrange(lo as int, hi as int),
                spec_face(s) == spec_axes(s),
                spec_axes(chars@.subrange(lo as int, i as int)) == Ok::<Seq<RollAxes>, char>(v@),
            decreases hi - i,
        {
            assert(chars@.subrange(lo as int, i + 1).drop_last() =~= chars@.subrange(lo as int, i as int));
            match RollAxes::try_from(chars[i]) {
                Ok(a) => {
                    v.push(a);
                },
                Err(e) => {
                    proof {
                        assert(s.take(i + 1 - lo) =~= chars@.subrange(lo as int, i + 1));
                        lemma_axes_error_extends(s, i + 1 - lo);
                    }
                    return Err(e);
                },
            }
            i = i + 1;
        }
        assert(chars@.subrange(lo as int, i as int) =~= s);
        Ok(RollAxesVec(v))
    }

    /// Reads a written face: the empty face and `B` are one blank; otherwise
    /// each character must stand for an outcome.
    pub fn from_str(s: &str) -> (r: Result<RollAxesVec, RollError>)
        ensures
            match spec_face(s@) {
                Ok(v) => r matches Ok(f) && f@ == v,
                Err(c) => r matches Err(RollError::InvalidAxisChar(e)) && e == c,
            },
    {
        let chars = chars_of(s);
        assert(chars@.subrange(0, chars.len() as int) =~= chars@);
        RollAxesVec::from_chars(&chars, 0, chars.len())
    }
}

/// Once a prefix of a face fails, the whole face fails at the same character.
proof fn lemma_axes_error_extends(s: Seq<char>, k: int)
    requires
        0 <= k <= s.len(),
        spec_axes(s.take(k)) is Err,
    ensures
        spec_axes(s) == spec_axes(s.take(k)),
    decreases s.len() - k,
{
    if k < s.len() {
        assert(s.take(k + 1).drop_last() =~= s.take(k));
        lemma_axes_error_extends(s, k + 1);
    } else {
        assert(s.take(k) =~= s);
    }
}

} // verus!
