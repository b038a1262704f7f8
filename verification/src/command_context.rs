//! The rule by which a `CommandContext` finds the field that holds its
//! subcommands: the one field marked `#[command(subcommand)]`.
//!
//! The struct is given as plain values: per field, its name (none for a
//! tuple field) and whether it carries the mark. A type that is not a
//! struct is given with no fields.
use vstd::prelude::*;

verus! {

/// A field of the struct, as far as the rule reads it.
pub struct FieldModel {
    pub ident: Option<String>,
    pub subcommand: bool,
}

/// How the generated code reaches a field: by its name, or by its place.
#[derive(Debug, Clone, PartialEq, Eq)]
pub enum Member {
    Named(String),
    Unnamed(usize),
}

/// Why a struct has no subcommand field.
#[derive(Debug, Clone, Copy, PartialEq, Eq, Structural)]
pub enum ContextError {
    /// No field is marked `#[command(subcommand)]`.
    NoSubcommand,
    /// More than one field is marked.
    ManySubcommands,
}

impl ContextError {
    /// The text the derive reports the error with.
    pub fn message(&self) -> (r: String)
        ensures
            r@ == match self {
                ContextError::NoSubcommand => "could not find field annotated with `#[command(subcommand)]`"@,
                ContextError::ManySubcommands => "It is illegal to annotate more than one field with `#[command(subcommand)]`"@,
            },
    {
        match self {
            ContextError::NoSubcommand => String::from_str(
                "could not find field annotated with `#[command(subcommand)]`",
            ),
            ContextError::ManySubcommands => String::from_str(
                "It is illegal to annotate more than one field with `#[command(subcommand)]`",
            ),
        }
    }
}

/// How field `i` is reached.
pub open spec fn member_of(f: FieldModel, i: int) -> Member {
    match f.ident {
        Some(name) => Member::Named(name),
        None => Member::Unnamed(i as usize),
    }
}

/// The members of the marked fields among the first `k`, in order.
pub open spec fn marked_members(fields: Seq<FieldModel>, k: int) -> Seq<Member>
    decreases k,
{
    if k <= 0 {
        Seq::empty()
    } else if fields[k - 1].subcommand {
        marked_members(fields, k - 1).push(member_of(fields[k - 1], k - 1))
    } else {
        marked_members(fields, k - 1)
    }
}

/// The members of the fields marked `#[command(subcommand)]`, in order.
pub fn find_subcommands(fields: &Vec<FieldModel>) -> (r: Vec<Member>)
    ensures
        r@ == marked_members(fields@, fields.len() as int),
{
    let mut r: Vec<Member> = Vec::new();
    let mut i: usize = 0;
    while i < fields.len()
        invariant
            i <= fields.len(),
            r@ == marked_members(fields@, i as int),
        decreases fields.len() - i,
    {
        if fields[i].subcommand {
            let m = match &fields[i].ident {
                Some(name) => Member::Named(name.clone()),
                None => Member::Unnamed(i),
            };
            r.push(m);
        }
        i = i + 1;
    }
    r
}

/// The member of the one field marked `#[command(subcommand)]`; an error
/// when there is none or more than one.
pub fn subcommand_member(fields: &Vec<FieldModel>) -> (r: Result<Member, ContextError>)
    ensures
        ({
            let ms = marked_members(fields@, fields.len() as int);
            if ms.len() == 0 {
                r == Err::<Member, ContextError>(ContextError::NoSubcommand)
            } else if ms.len() > 1 {
                r == Err::<Member, ContextError>(ContextError::ManySubcommands)
            } else {
                r == Ok::<Member, ContextError>(ms[0])
            }
        }),
{
    let mut found = find_subcommands(fields);
    if found.len() == 0 {
        return Err(ContextError::NoSubcommand);
    }
    if found.len() > 1 {
        return Err(ContextError::ManySubcommands);
    }
    let m = found.remove(0);
    Ok(m)
}

} // verus!
