//! The state type of a machine as Rust syntax: the names of its variants
//! and their declarations, one variant per chunk.
//!
//! A variant is named `Chunk` followed by the index of its chunk. Its
//! declaration lists the types of the captured variables, each wrapped in
//! `Option` so that the value can be taken out of the state. The texts are
//! written here and handed to `syn`, which parses them into variants.

use crate::lowering::StateMachine;
use crate::procedure::{variables, Variable, VariableModel};
use crate::text::{decimal, number_to_string};
use syn::Variant;
use vstd::prelude::*;
use vstd::string::*;

verus! {

/// An enum variant in the syntax tree of `syn`.
#[verifier::external_type_specification]
#[verifier::external_body]
pub struct ExVariant(syn::Variant);

/// The error of a parser of `syn`.
#[verifier::external_type_specification]
#[verifier::external_body]
pub struct ExError(syn::Error);

/// Whether `syn` parses a text as an enum variant.
pub uninterp spec fn parses_as_variant(text: Seq<char>) -> bool;

/// Calls `syn::parse_str` for a `Variant`. Trusted: whether the call
/// succeeds depends on the text alone. Nothing is claimed of the variant
/// that comes back.
#[verifier::external_body]
fn parse_variant(text: &str) -> (parsed: Result<Variant, syn::Error>)
    ensures
        parsed is Ok <==> parses_as_variant(text@),
{
    syn::parse_str::<Variant>(text)
}

/// Why the state type of a machine cannot be written down.
#[derive(Debug, PartialEq, Eq)]
pub enum RenderingError {
    /// `syn` does not accept the variant for the chunk of this index: the
    /// type of a captured variable is not written as a type.
    InvalidVariant(usize),
}

/// The name of the variant for chunk `index`.
pub open spec fn variant_name_text(index: nat) -> Seq<char> {
    "Chunk"@ + decimal(index)
}

/// The fields of a variant: for each captured variable its type in an
/// `Option`, followed by a comma.
pub open spec fn fields_text(captures: Seq<VariableModel>) -> Seq<char>
    decreases captures.len(),
{
    if captures.len() == 0 {
        Seq::empty()
    } else {
        fields_text(captures.drop_last()) + "Option<"@ + captures.last().ty + ">"@ + ", "@
    }
}

/// The declaration of the variant for chunk `index`: its name alone where
/// the chunk captures nothing, and else its name and, in parentheses, its
/// fields.
pub open spec fn variant_text(index: nat, captures: Seq<VariableModel>) -> Seq<char> {
    if captures.len() == 0 {
        variant_name_text(index)
    } else {
        variant_name_text(index) + "("@ + fields_text(captures) + ")"@
    }
}

/// The name of the variant for chunk `index`.
pub fn variant_name(index: usize) -> (name: String)
    ensures
        name@ == variant_name_text(index as nat),
{
    let mut name = String::from_str("Chunk");
    let digits = number_to_string(index);
    name.append(digits.as_str());
    name
}

/// The declaration of the variant for chunk `index` with the given
/// captures.
pub fn variant_declaration(index: usize, captures: &Vec<Variable>) -> (declaration: String)
    ensures
        declaration@ == variant_text(index as nat, variables(captures@)),
{
    let mut declaration = variant_name(index);
    if captures.len() == 0 {
        return declaration;
    }
    declaration.append("(");
    let ghost head = declaration@;
    let mut done: usize = 0;
    assert(variables(captures@).take(0) == Seq::<VariableModel>::empty());
    assert(head + Seq::<char>::empty() == head);
    while done < captures.len()
        invariant
            done <= captures.len(),
            declaration@ == head + fields_text(variables(captures@).take(done as int)),
        decreases captures.len() - done,
    {
        let ghost before = fields_text(variables(captures@).take(done as int));
        let ghost longer = variables(captures@).take(done + 1);
        assert(longer.drop_last() == variables(captures@).take(done as int));
        assert(longer.last().ty == captures@[done as int].ty@);
        declaration.append("Option<");
        declaration.append(captures[done].ty.as_str());
        declaration.append(">");
        declaration.append(", ");
        assert(declaration@ == head + (before + "Option<"@ + captures@[done as int].ty@ + ">"@
            + ", "@));
        done = done + 1;
    }
    assert(variables(captures@).take(done as int) == variables(captures@));
    declaration.append(")");
    declaration
}

/// The names of the variants of the state type, one per chunk, or the first
/// of them that `syn` does not accept.
pub fn variant_names(machine: &StateMachine) -> (names: Result<Vec<Variant>, RenderingError>)
    ensures
        match names {
            Ok(list) => {
                &&& list.len() == machine.chunks.len()
                &&& forall|i: int|
                    0 <= i < machine.chunks.len() ==> parses_as_variant(
                        #[trigger] variant_name_text(i as nat),
                    )
            },
            Err(RenderingError::InvalidVariant(index)) => {
                &&& index < machine.chunks.len()
                &&& !parses_as_variant(variant_name_text(index as nat))
                &&& forall|i: int|
                    0 <= i < index ==> parses_as_variant(#[trigger] variant_name_text(i as nat))
            },
        },
{
    let mut list: Vec<Variant> = Vec::new();
    let mut done: usize = 0;
    while done < machine.chunks.len()
        invariant
            done <= machine.chunks.len(),
            list.len() == done,
            forall|i: int| 0 <= i < done ==> parses_as_variant(#[trigger] variant_name_text(i as nat)),
        decreases machine.chunks.len() - done,
    {
        let name = variant_name(done);
        match parse_variant(name.as_str()) {
            Ok(variant) => list.push(variant),
            Err(_) => {
                return Err(RenderingError::InvalidVariant(done));
            },
        }
        done = done + 1;
    }
    Ok(list)
}

/// The declarations of the variants of the state type, one per chunk, or
/// the first of them that `syn` does not accept.
pub fn variant_generator(machine: &StateMachine) -> (variants: Result<
    Vec<Variant>,
    RenderingError,
>)
    ensures
        match variants {
            Ok(list) => {
                &&& list.len() == machine.chunks.len()
                &&& forall|i: int|
                    0 <= i < machine.chunks.len() ==> parses_as_variant(
                        variant_text(i as nat, variables((#[trigger] machine.chunks[i]).captures@)),
                    )
            },
            Err(RenderingError::InvalidVariant(index)) => {
                &&& index < machine.chunks.len()
                &&& !parses_as_variant(
                    variant_text(index as nat, variables(machine.chunks[index as int].captures@)),
                )
                &&& forall|i: int|
                    0 <= i < index ==> parses_as_variant(
                        variant_text(i as nat, variables((#[trigger] machine.chunks[i]).captures@)),
                    )
            },
        },
{
    let mut list: Vec<Variant> = Vec::new();
    let mut done: usize = 0;
    while done < machine.chunks.len()
        invariant
            done <= machine.chunks.len(),
            list.len() == done,
            forall|i: int|
                0 <= i < done ==> parses_as_variant(
                    variant_text(i as nat, variables((#[trigger] machine.chunks[i]).captures@)),
                ),
        decreases machine.chunks.len() - done,
    {
        let declaration = variant_declaration(done, &machine.chunks[done].captures);
        match parse_variant(declaration.as_str()) {
            Ok(variant) => list.push(variant),
            Err(_) => {
                return Err(RenderingError::InvalidVariant(done));
            },
        }
        done = done + 1;
    }
    Ok(list)
}

} // verus!
