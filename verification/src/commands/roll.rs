//! The `roll` command: what can be rolled, and dice pools written `NdM`.
use vstd::prelude::*;

use crate::chrono::types::{MutantClassInstance, MutationInstance};
use crate::text::{
    chars_of, decimal, find_first_of, first_of, is_digit, lemma_decimal_digits, lemma_first_of_is,
    lemma_parse_decimal, parse_u8, spec_parse_u8,
};

verus! {

/// What the `roll` command can roll.
#[derive(Debug, Clone)]
pub enum SubcommandRoll {
    /// Rolls 1 Mutant Class, 2 of its subclasses, and (if applicable) a
    /// subclass `Variant`.
    MutantClass,
    /// Rolls 2 Mutant Classes.
    Agent,
    /// Rolls a `Future Tech` and (if applicable) its subtable(s).
    FutureTech,
    /// Rolls either a minor, major, or apocalyptic anomaly.
    Anomaly { kind: String },
    /// Rolls a `Variant` of a Mutant Subclass.
    Variant { kind: String },
    /// Rolls a Mutation and (if applicable) its subtable(s).
    Mutation { n_mutations: usize },
    /// A collection of dice-pools, each written `<N>d<n>` or `<N>D<n>`.
    DicePools { pools: Vec<DicePool> },
}

/// `N` dice with `n` sides each.
#[derive(Debug, Clone, Copy)]
pub struct DicePool(pub (u8, u8));

/// The result of rolling an agent.
pub enum CommandRollResult {
    Agent { classes: [MutantClassInstance; 2], mutations: Vec<MutationInstance> },
}

/// Why a dice pool could not be read.
#[derive(Debug, Clone, Copy, PartialEq, Eq, Structural)]
pub enum DicePoolErrorKind {
    /// There is no `d` or `D`.
    Format,
    /// What comes before the first `d` or `D` is not a `u8`.
    InvalidCount,
    /// What comes after it is not a `u8`.
    InvalidSize,
}

/// A dice pool that could not be read, with the text that was read.
#[derive(Debug, Clone)]
pub struct DicePoolError {
    pub kind: DicePoolErrorKind,
    pub input: String,
}

/// How a dice pool is read: split at the first `d` or `D`; the count
/// before it and the size after it are read as `str::parse::<u8>` reads
/// them, the count first.
pub open spec fn spec_dice_pool(s: Seq<char>) -> Result<(u8, u8), DicePoolErrorKind> {
    match first_of(s, 'd', 'D') {
        None => Err(DicePoolErrorKind::Format),
        Some(k) => match spec_parse_u8(s.take(k)) {
            Err(_) => Err(DicePoolErrorKind::InvalidCount),
            Ok(count) => match spec_parse_u8(s.skip(k + 1)) {
                Err(_) => Err(DicePoolErrorKind::InvalidSize),
                Ok(size) => Ok((count, size)),
            },
        },
    }
}

/// A pool written `<N>d<n>` reads back as `N` dice of `n` sides.
pub proof fn lemma_dice_pool_roundtrip(count: u8, size: u8)
    ensures
        spec_dice_pool(decimal(count as nat) + seq!['d'] + decimal(size as nat)) == Ok::<
            (u8, u8),
            DicePoolErrorKind,
        >((count, size)),
{
    let c = decimal(count as nat);
    let z = decimal(size as nat);
    let s = c + seq!['d'] + z;
    lemma_decimal_digits(count as nat);
    assert forall|j: int| 0 <= j < c.len() implies s[j] != 'd' && s[j] != 'D' by {
        assert(s[j] == c[j]);
        assert(is_digit(c[j]));
    }
    assert(s[c.len() as int] == 'd');
    lemma_first_of_is(s, 'd', 'D', c.len() as int);
    assert(s.take(c.len() as int) =~= c);
    assert(s.skip(c.len() + 1 as int) =~= z);
    lemma_parse_decimal(count);
    lemma_parse_decimal(size);
}

/// The message that reports a dice pool error.
pub open spec fn pool_error_message(kind: DicePoolErrorKind, input: Seq<char>) -> Seq<char> {
    "Invalid dice-pool format "@ + input + match kind {
        DicePoolErrorKind::Format => Seq::<char>::empty(),
        DicePoolErrorKind::InvalidCount => "; N is not a valid u8"@,
        DicePoolErrorKind::InvalidSize => "; n is not a valid u8"@,
    }
}

impl DicePoolError {
    /// The text that describes the error.
    pub fn message(&self) -> (r: String)
        ensures
            r@ == pool_error_message(self.kind, self.input@),
    {
        let mut r = String::from_str("Invalid dice-pool format ");
        r.append(self.input.as_str());
        match self.kind {
            DicePoolErrorKind::Format => {
                assert(r@ =~= pool_error_message(self.kind, self.input@));
            },
            DicePoolErrorKind::InvalidCount => {
                r.append("; N is not a valid u8");
            },
            DicePoolErrorKind::InvalidSize => {
                r.append("; n is not a valid u8");
            },
        }
        r
    }
}

impl DicePool {
    /// The number of dice and their sides.
    pub fn pool(&self) -> (r: (u8, u8))
        ensures
            r == self.0,
    {
        self.0
    }

    /// Reads a pool written `<N>d<n>` or `<N>D<n>`.
    pub fn from_str(s: &str) -> (r: Result<DicePool, DicePoolError>)
        ensures
            match spec_dice_pool(s@) {
                Ok(p) => r matches Ok(d) && d.0 == p,
                Err(k) => r matches Err(e) && e.kind == k && e.input@ == s@,
            },
    {
        let chars = chars_of(s);
        let n = chars.len();
        assert(chars@.subrange(0, n as int) =~= s@);
        match find_first_of(&chars, 0, n, 'd', 'D') {
            None => Err(DicePoolError { kind: DicePoolErrorKind::Format, input: String::from_str(s) }),
            Some(k) => {
                assert(chars@.subrange(0, k as int) =~= s@.take(k as int));
                assert(chars@.subrange(k + 1, n as int) =~= s@.skip(k + 1));
                let count = match parse_u8(&chars, 0, k) {
                    Ok(c) => c,
                    Err(_) => {
                        return Err(
                            DicePoolError {
                                kind: DicePoolErrorKind::InvalidCount,
                                input: String::from_str(s),
                            },
                        );
                    },
                };
                let size = match parse_u8(&chars, k + 1, n) {
                    Ok(c) => c,
                    Err(_) => {
                        return Err(
                            DicePoolError {
                                kind: DicePoolErrorKind::InvalidSize,
                                input: String::from_str(s),
                            },
                        );
                    },
                };
                Ok(DicePool((count, size)))
            },
        }
    }
}

impl SubcommandRoll {
    /// Runs the rolls. Only dice pools are handled, and they succeed.
    pub fn do_rolls(&self) -> (r: Result<(), DicePoolError>)
        requires
            self is DicePools,
        ensures
            r is Ok,
    {
        Ok(())
    }
}

} // verus!
