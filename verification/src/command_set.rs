//! The rule by which a `CommandSet` variant finds its delegate.
//!
//! A variant names its delegate with `#[delegate(path)]` or
//! `#[harmony_autonomy::delegate(path)]`; without such an attribute a tuple
//! variant hands itself to the path type of its first field. A unit variant
//! needs the attribute, and a variant with named fields is refused.
//!
//! The variant is given as plain values: the attribute arguments already
//! read as paths, and each tuple field's type as its path segments.
use vstd::prelude::*;

use crate::naming::PathComponents;

verus! {

/// The fields of a variant, as far as the delegate rule reads them.
pub enum FieldsModel {
    /// No fields.
    Unit,
    /// A tuple variant: per field, the segments of its type when that type
    /// is a path, else `None`.
    Unnamed(Vec<Option<Vec<String>>>),
    /// A variant with named fields.
    Named,
}

/// An attribute of a variant: its path, whether it is written as a list
/// (`#[name(...)]`), and its arguments read as a path (`None` when they do
/// not read as one).
pub struct AttributeModel {
    pub path: Vec<String>,
    pub is_list: bool,
    pub argument: Option<Vec<String>>,
}

/// A variant of the enum that derives `CommandSet`.
pub struct VariantModel {
    pub ident: String,
    /// One entry per list attribute whose path is a delegate path, in order:
    /// its arguments as a path, `None` when they do not read as one.
    pub delegate_args: Vec<Option<Vec<String>>>,
    pub fields: FieldsModel,
}

/// Why a variant has no delegate.
#[derive(Debug, Clone, Copy, PartialEq, Eq, Structural)]
pub enum VariantError {
    /// A unit variant without `#[delegate(...)]`.
    UnitWithoutDelegate,
    /// The first field of a tuple variant is not a path type.
    InvalidDelegateArgument,
    /// A variant with named fields, or a tuple variant with no field, and no
    /// `#[delegate(...)]`.
    NotATupleVariant,
}

impl VariantError {
    /// The text the derive reports the error with.
    pub fn message(&self) -> (r: String)
        ensures
            r@ == match self {
                VariantError::UnitWithoutDelegate => "enums derived with `#[derive(CommandSet)]` must have their unit-variants annotated with `#[delegate(...)]`"@,
                VariantError::InvalidDelegateArgument => "Invalid `#[delegate(...)]` argument"@,
                VariantError::NotATupleVariant => "if an enum is derived with `#[derive(CommandSet)]`, and a variant isn't annotated with `#[delegate(...)]`, it must be a tuple-variant (unnamed field) with at least one member"@,
            },
    {
        match self {
            VariantError::UnitWithoutDelegate => String::from_str(
                "enums derived with `#[derive(CommandSet)]` must have their unit-variants annotated with `#[delegate(...)]`",
            ),
            VariantError::InvalidDelegateArgument => String::from_str(
                "Invalid `#[delegate(...)]` argument",
            ),
            VariantError::NotATupleVariant => String::from_str(
                "if an enum is derived with `#[derive(CommandSet)]`, and a variant isn't annotated with `#[delegate(...)]`, it must be a tuple-variant (unnamed field) with at least one member",
            ),
        }
    }
}

/// The type that `CommandSet` is derived for: an enum with its variants,
/// or any other kind of type.
pub enum DataModel {
    Enum(Vec<VariantModel>),
    NotAnEnum,
}

/// Why `CommandSet` cannot be derived for a type.
#[derive(Debug, Clone, Copy, PartialEq, Eq, Structural)]
pub enum DeriveError {
    /// The type is not an enum.
    NotAnEnum,
    /// A variant has no delegate.
    Variant(VariantError),
}

impl DeriveError {
    /// The text the derive reports the error with.
    pub fn message(&self) -> (r: String)
        ensures
            match self {
                DeriveError::NotAnEnum => r@ == "`#[derive(CommandSet)]` only supports enums"@,
                DeriveError::Variant(e) => r@ == match e {
                    VariantError::UnitWithoutDelegate => "enums derived with `#[derive(CommandSet)]` must have their unit-variants annotated with `#[delegate(...)]`"@,
                    VariantError::InvalidDelegateArgument => "Invalid `#[delegate(...)]` argument"@,
                    VariantError::NotATupleVariant => "if an enum is derived with `#[derive(CommandSet)]`, and a variant isn't annotated with `#[delegate(...)]`, it must be a tuple-variant (unnamed field) with at least one member"@,
                },
            },
    {
        match self {
            DeriveError::NotAnEnum => String::from_str("`#[derive(CommandSet)]` only supports enums"),
            DeriveError::Variant(e) => e.message(),
        }
    }
}

/// A delegate that a `CommandSet` variant dispatches to: it is called with
/// the set's extra context and the variant's remaining fields.
pub trait CommandDelegate {
    type ExtraContext;
    type ParameterTypes;
    type ReturnType;
    type Error;

    fn call(&self, ec: Self::ExtraContext, args: Self::ParameterTypes) -> Result<
        Self::ReturnType,
        Self::Error,
    >;
}

/// A variant with its delegate: the match arm hands the fields numbered in
/// `named_fields` to `delegate`.
pub struct VariantData {
    pub ident: String,
    pub delegate: Vec<String>,
    pub named_fields: Vec<usize>,
}

/// The segments of a path, as text.
pub open spec fn segments(p: Vec<String>) -> Seq<Seq<char>> {
    p@.map_values(|s: String| s@)
}

/// Whether a path is one of the delegate attribute's paths.
pub open spec fn is_delegate_path(p: Seq<Seq<char>>) -> bool {
    p == seq!["delegate"@] || p == seq!["harmony_autonomy"@, "delegate"@]
}

/// A delegate argument, as text.
pub open spec fn arg_view(a: Option<Vec<String>>) -> Option<Seq<Seq<char>>> {
    match a {
        Some(p) => Some(segments(p)),
        None => None,
    }
}

/// Delegate arguments, as text.
pub open spec fn args_view(args: Seq<Option<Vec<String>>>) -> Seq<Option<Seq<Seq<char>>>> {
    args.map_values(|a: Option<Vec<String>>| arg_view(a))
}

/// The arguments of the delegate attributes among `attrs`, in order.
pub open spec fn spec_delegate_args(attrs: Seq<AttributeModel>) -> Seq<Option<Seq<Seq<char>>>>
    decreases attrs.len(),
{
    if attrs.len() == 0 {
        Seq::empty()
    } else {
        let a = attrs.last();
        spec_delegate_args(attrs.drop_last()) + if a.is_list && is_delegate_path(segments(a.path)) {
            seq![arg_view(a.argument)]
        } else {
            Seq::empty()
        }
    }
}

/// The first delegate argument that reads as a path.
pub open spec fn first_delegate(args: Seq<Option<Seq<Seq<char>>>>) -> Option<Seq<Seq<char>>>
    decreases args.len(),
{
    if args.len() == 0 {
        None
    } else {
        match args[0] {
            Some(p) => Some(p),
            None => first_delegate(args.drop_first()),
        }
    }
}

/// The delegate of a variant and how many of its fields go to it, or why
/// it has none.
pub open spec fn spec_parse_fields(v: VariantModel) -> Result<(Seq<Seq<char>>, nat), VariantError> {
    let given = first_delegate(args_view(v.delegate_args@));
    match v.fields {
        FieldsModel::Unit => match given {
            Some(d) => Ok((d, 0)),
            None => Err(VariantError::UnitWithoutDelegate),
        },
        FieldsModel::Unnamed(types) => match given {
            Some(d) => Ok((d, types.len() as nat)),
            None => if types.len() == 0 {
                Err(VariantError::NotATupleVariant)
            } else {
                match types[0] {
                    Some(p) => Ok((segments(p), (types.len() - 1) as nat)),
                    None => Err(VariantError::InvalidDelegateArgument),
                }
            },
        },
        FieldsModel::Named => Err(VariantError::NotATupleVariant),
    }
}

/// The field numbers `0..n`.
pub open spec fn numbered(n: nat) -> Seq<usize> {
    Seq::new(n, |i: int| i as usize)
}

/// `data` is what the delegate rule makes of `v`.
pub open spec fn data_of(v: VariantModel, data: VariantData) -> bool {
    spec_parse_fields(v) matches Ok((d, n)) && data.ident@ == v.ident@ && segments(data.delegate)
        == d && data.named_fields@ == numbered(n)
}

/// The error of the first variant, in order, that has no delegate.
pub open spec fn first_variant_error(vs: Seq<VariantModel>) -> Option<VariantError>
    decreases vs.len(),
{
    if vs.len() == 0 {
        None
    } else {
        match spec_parse_fields(vs[0]) {
            Err(e) => Some(e),
            Ok(_) => first_variant_error(vs.drop_first()),
        }
    }
}

/// A copy of a path.
fn copy_path(p: &Vec<String>) -> (r: Vec<String>)
    ensures
        r@ == p@,
{
    let mut r: Vec<String> = Vec::new();
    let mut i: usize = 0;
    while i < p.len()
        invariant
            i <= p.len(),
            r@ == p@.take(i as int),
        decreases p.len() - i,
    {
        r.push(p[i].clone());
        assert(p@.take(i + 1) =~= p@.take(i as int).push(p@[i as int]));
        i = i + 1;
    }
    assert(p@.take(i as int) =~= p@);
    r
}

/// The arguments of the delegate attributes among `attrs`, in order: those
/// written as a list whose path is `delegate` or `harmony_autonomy::delegate`.
pub fn delegate_args(attrs: &Vec<AttributeModel>) -> (r: Vec<Option<Vec<String>>>)
    ensures
        args_view(r@) == spec_delegate_args(attrs@),
{
    let short = PathComponents(&["delegate"]);
    let long = PathComponents(&["harmony_autonomy", "delegate"]);
    proof {
        reveal_strlit("delegate");
        reveal_strlit("harmony_autonomy");
    }
    let mut r: Vec<Option<Vec<String>>> = Vec::new();
    let mut i: usize = 0;
    while i < attrs.len()
        invariant
            i <= attrs.len(),
            args_view(r@) == spec_delegate_args(attrs@.take(i as int)),
            short.0@.map_values(|s: &str| s@) == seq!["delegate"@],
            long.0@.map_values(|s: &str| s@) == seq!["harmony_autonomy"@, "delegate"@],
        decreases attrs.len() - i,
    {
        let a = &attrs[i];
        assert(attrs@.take(i + 1).drop_last() =~= attrs@.take(i as int));
        assert(attrs@.take(i + 1).last() == *a);
        if a.is_list && (short.matches(&a.path) || long.matches(&a.path)) {
            let arg = match &a.argument {
                Some(p) => Some(copy_path(p)),
                None => None,
            };
            let ghost before = r@;
            r.push(arg);
            assert(args_view(r@) =~= args_view(before).push(arg_view(a.argument)));
        }
        i = i + 1;
    }
    assert(attrs@.take(i as int) =~= attrs@);
    r
}

/// Finds the delegate of a variant: the first delegate argument that reads
/// as a path; else, for a tuple variant, the path type of its first field.
/// The fields after the one taken as the delegate (all of them when an
/// attribute names it) are handed on, numbered from 0.
pub fn parse_fields(v: &VariantModel) -> (r: Result<VariantData, VariantError>)
    ensures
        match spec_parse_fields(*v) {
            Ok(_) => r matches Ok(data) && data_of(*v, data),
            Err(e) => r == Err::<VariantData, VariantError>(e),
        },
{
    let ghost args = args_view(v.delegate_args@);
    let mut given: Option<Vec<String>> = None;
    let mut i: usize = 0;
    assert(args.skip(0) =~= args);
    while i < v.delegate_args.len() && given.is_none()
        invariant
            i <= v.delegate_args.len(),
            args == args_view(v.delegate_args@),
            given is None ==> first_delegate(args) == first_delegate(args.skip(i as int)),
            given matches Some(p) ==> first_delegate(args) == Some(segments(p)),
        decreases v.delegate_args.len() - i,
    {
        assert(args.skip(i as int).drop_first() =~= args.skip(i + 1));
        assert(args.skip(i as int)[0] == arg_view(v.delegate_args@[i as int]));
        if let Some(p) = &v.delegate_args[i] {
            given = Some(copy_path(p));
        }
        i = i + 1;
    }
    proof {
        if given is None {
            assert(args.skip(i as int).len() == 0);
        }
    }
    let (delegate, count) = match &v.fields {
        FieldsModel::Unit => match given {
            Some(d) => (d, 0usize),
            None => {
                return Err(VariantError::UnitWithoutDelegate);
            },
        },
        FieldsModel::Unnamed(types) => match given {
            Some(d) => (d, types.len()),
            None => {
                if types.len() == 0 {
                    return Err(VariantError::NotATupleVariant);
                }
                match &types[0] {
                    Some(p) => (copy_path(p), types.len() - 1),
                    None => {
                        return Err(VariantError::InvalidDelegateArgument);
                    },
                }
            },
        },
        FieldsModel::Named => {
            return Err(VariantError::NotATupleVariant);
        },
    };
    let mut named_fields: Vec<usize> = Vec::new();
    let mut k: usize = 0;
    while k < count
        invariant
            k <= count,
            named_fields@ == numbered(k as nat),
        decreases count - k,
    {
        named_fields.push(k);
        assert(named_fields@ =~= numbered((k + 1) as nat));
        k = k + 1;
    }
    Ok(VariantData { ident: v.ident.clone(), delegate, named_fields })
}

/// Finds the delegate of each variant of the enum, in order; fails with
/// the error of the first variant that has none.
pub fn parse_variants(variants: &Vec<VariantModel>) -> (r: Result<Vec<VariantData>, VariantError>)
    ensures
        match first_variant_error(variants@) {
            Some(e) => r == Err::<Vec<VariantData>, VariantError>(e),
            None => r matches Ok(ds) && ds.len() == variants.len() && forall|i: int|
                0 <= i < ds.len() ==> data_of(variants@[i], #[trigger] ds@[i]),
        },
{
    let mut out: Vec<VariantData> = Vec::new();
    let mut i: usize = 0;
    assert(variants@.skip(0) =~= variants@);
    while i < variants.len()
        invariant
            i <= variants.len(),
            first_variant_error(variants@) == first_variant_error(variants@.skip(i as int)),
            out.len() == i,
            forall|k: int| 0 <= k < i ==> data_of(variants@[k], #[trigger] out@[k]),
        decreases variants.len() - i,
    {
        assert(variants@.skip(i as int).drop_first() =~= variants@.skip(i + 1));
        assert(variants@.skip(i as int)[0] == variants@[i as int]);
        match parse_fields(&variants[i]) {
            Ok(d) => {
                out.push(d);
            },
            Err(e) => {
                return Err(e);
            },
        }
        i = i + 1;
    }
    assert(variants@.skip(i as int).len() == 0);
    Ok(out)
}

/// Finds the delegates of the type that `CommandSet` is derived for: an
/// error when it is not an enum, else as [`parse_variants`] does.
pub fn derive_variants(data: &DataModel) -> (r: Result<Vec<VariantData>, DeriveError>)
    ensures
        match data {
            DataModel::NotAnEnum => r == Err::<Vec<VariantData>, DeriveError>(DeriveError::NotAnEnum),
            DataModel::Enum(variants) => match first_variant_error(variants@) {
                Some(e) => r == Err::<Vec<VariantData>, DeriveError>(DeriveError::Variant(e)),
                None => r matches Ok(ds) && ds.len() == variants.len() && forall|i: int|
                    0 <= i < ds.len() ==> data_of(variants@[i], #[trigger] ds@[i]),
            },
        },
{
    match data {
        DataModel::NotAnEnum => Err(DeriveError::NotAnEnum),
        DataModel::Enum(variants) => match parse_variants(variants) {
            Ok(ds) => Ok(ds),
            Err(e) => Err(DeriveError::Variant(e)),
        },
    }
}

} // verus!
