//! The game's characters and the tables they are rolled from.
use vstd::prelude::*;

use crate::consts::{NUM_AGENT_MUTANT_CLASSES, NUM_MUTANT_SUBCLASSES};

verus! {

/// An agent: its mutant classes and any further mutations.
pub struct Agent {
    mutant_classes: [MutationInstance; NUM_AGENT_MUTANT_CLASSES],
    extra_mutations: Vec<MutationInstance>,
}

/// A kind of mutation.
#[derive(Debug)]
pub struct MutationType {
    name: String,
    description: String,
    variants: (),
}

impl View for MutationType {
    /// Its name and description.
    type V = (Seq<char>, Seq<char>);

    closed spec fn view(&self) -> (Seq<char>, Seq<char>) {
        (self.name@, self.description@)
    }
}

impl Clone for MutationType {
    /// A copy with the same name and description.
    fn clone(&self) -> (r: Self)
        ensures
            r@ == self@,
    {
        MutationType { name: self.name.clone(), description: self.description.clone(), variants: () }
    }
}

/// One variant of a mutation.
#[derive(Clone, Debug)]
pub struct MutationVariant {
    kind: String,
    description: String,
    values: Vec<String>,
}

/// A mutation that a character has: its kind and the variant rolled.
#[derive(Clone, Debug)]
pub struct MutationInstance {
    _type: &'static MutationType,
    variant: &'static str,
}

/// A mutant class and its subclasses.
#[derive(Clone, Debug)]
pub struct MutantClass {
    name: String,
    description: String,
    subclasses: Vec<MutantSubclass>,
}

/// A subclass of a mutant class and its variants.
#[derive(Clone, Debug)]
pub struct MutantSubclass {
    name: String,
    description: String,
    variants: Vec<MutantSubclassVariant>,
}

/// A variant of a mutant subclass.
#[derive(Clone, Debug)]
pub struct MutantSubclassVariant {
    pub name: String,
    pub description: String,
}

/// A mutant class that a character has, with the subclasses rolled for it.
#[derive(Clone, Debug)]
pub struct MutantClassInstance {
    pub _type: &'static MutantClass,
    pub subclasses: [&'static MutantSubclass; NUM_MUTANT_SUBCLASSES],
}

/// A subclass that a character has, with the variant rolled for it, if any.
#[derive(Clone, Debug)]
pub struct MutantSubclassInstance {
    pub _type: &'static MutantSubclass,
    pub variant_index: Option<usize>,
}

} // verus!
