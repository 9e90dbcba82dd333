//! Anonymous, structurally-typed records: named fields kept in a canonical
//! lexicographic order, so that two records built from the same field set are
//! equal no matter how their fields were listed at construction.
//!
//! A field name is a runtime value of type [`EncodedName`], an ordered
//! sequence of [`Character`] markers that spells the name's text; names
//! collide exactly when their texts are equal, and the text can always be
//! recovered ([`TypedString`]).  A record is an [`AnonymousStruct`]: building
//! one sorts its fields by name and rejects a duplicate name, which is what
//! collapses every ordering of one field set to a single record
//! ([`lemma_struct_order_independent`]).  Reading, replacing and moving a
//! field's value out by name go through the [`HasField`] trait; a record can
//! be narrowed to a named subset of its fields
//! ([`AnonymousStruct::subset`]).  The decisions behind the surface syntax —
//! how an access borrows, which parameters a signature rewrite keeps — live
//! in plain-value form here as well ([`GetField`], [`plan_named_args`]); only
//! the token reading around them stays outside.

mod canonical;
mod has_field;
mod lex;
mod parse;
mod stringz;

pub use canonical::{
    canonicalize, distinct_names, has_name, lemma_canonical_unique, lemma_map_of_props, map_of,
    sorted_names, FieldError, FieldPair,
};
pub use has_field::{lemma_struct_order_independent, name_set, AnonymousStruct, HasField};
pub use lex::{lex_lt, lex_leq};
pub use parse::{
    params_has_receiver, params_named, params_supported, plan_named_args, GetField, NamedArgs,
    Param, ParamError, RefFlag,
};
pub use stringz::{Character, EncodedName, TypedString, encode, marker_text};
