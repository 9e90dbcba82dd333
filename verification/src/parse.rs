//! Decisions of the surface syntax layer.
//!
//! The textual front end that reads struct literals, struct types, field
//! accesses and function signatures lives outside this crate; what it hands
//! over are plain values: names, payloads, and the shape of each parameter.
//! The decisions taken on those values — how an access borrows, which
//! parameters a signature rewrite keeps, and in what canonical order — are
//! made here.

use vstd::prelude::*;
use vstd::pervasive::unreached;
use crate::canonical::{distinct_names, has_name, FieldError, FieldPair};
use crate::has_field::AnonymousStruct;
use crate::stringz::EncodedName;

verus! {

/// How a field access borrows the record: not at all (the access consumes
/// the record), shared, or exclusive.
#[derive(Clone, Copy, Debug, PartialEq, Eq)]
pub enum RefFlag {
    /// Plain access: the record is consumed and the field value moved out.
    Plain,
    /// Shared borrow of the field value.
    Ref,
    /// Exclusive borrow of the field value.
    Mut,
}

/// A field-access expression, reduced to plain values: how to borrow, the
/// record to access, and the field to look up.
#[derive(Debug, PartialEq, Eq)]
pub struct GetField {
    /// How the access borrows the record.
    pub flag: RefFlag,
    /// The name of the binding holding the record.
    pub target: EncodedName,
    /// The name of the field accessed.
    pub field: EncodedName,
}

impl GetField {
    /// Classify an access from its leading tokens: no borrow token means a
    /// consuming access, a borrow token alone a shared one, and a borrow
    /// token followed by an exclusive marker an exclusive one.  The
    /// exclusive marker counts only after a borrow token.
    pub fn new(borrowed: bool, exclusive: bool, target: EncodedName, field: EncodedName) -> (r:
        GetField)
        ensures
            r.flag == (if !borrowed {
                RefFlag::Plain
            } else if exclusive {
                RefFlag::Mut
            } else {
                RefFlag::Ref
            }),
            r.target == target,
            r.field == field,
    {
        let flag = if !borrowed {
            RefFlag::Plain
        } else if exclusive {
            RefFlag::Mut
        } else {
            RefFlag::Ref
        };
        GetField { flag, target, field }
    }
}

/// One parameter of a function signature, as the parameter-unpacking
/// rewrite sees it.
#[derive(Debug, PartialEq, Eq)]
pub enum Param<P> {
    /// A receiver parameter: kept in place, never part of the record.
    Receiver,
    /// A plain named binding, with its declared type as payload.
    Named(FieldPair<P>),
    /// Any other pattern: the rewrite refuses it.
    Opaque,
}

/// The ways a parameter list can be rejected.
#[derive(Debug, PartialEq, Eq)]
pub enum ParamError {
    /// A parameter is neither a receiver nor a plain named binding.
    Unsupported,
    /// Two parameters share this name.
    Duplicate(EncodedName),
}

/// The named parameters of a list, in declaration order.
pub open spec fn params_named<P>(params: Seq<Param<P>>) -> Seq<FieldPair<P>>
    decreases params.len(),
{
    if params.len() == 0 {
        Seq::empty()
    } else {
        let rest = params_named(params.drop_first());
        match params.first() {
            Param::Named(fp) => seq![fp] + rest,
            _ => rest,
        }
    }
}

/// Whether the list holds a receiver parameter.
pub open spec fn params_has_receiver<P>(params: Seq<Param<P>>) -> bool
    decreases params.len(),
{
    if params.len() == 0 {
        false
    } else {
        (params.first() is Receiver) || params_has_receiver(params.drop_first())
    }
}

/// Whether every parameter is a receiver or a plain named binding.
pub open spec fn params_supported<P>(params: Seq<Param<P>>) -> bool
    decreases params.len(),
{
    if params.len() == 0 {
        true
    } else {
        !(params.first() is Opaque) && params_supported(params.drop_first())
    }
}

/// The plan of the parameter-unpacking rewrite: whether the receiver stays,
/// and the named parameters gathered into a record in canonical order.
#[derive(Debug, PartialEq, Eq)]
pub struct NamedArgs<P> {
    /// Whether the signature keeps a leading receiver parameter.
    pub has_receiver: bool,
    /// The named parameters, as a record keyed by parameter name.
    pub fields: AnonymousStruct<P>,
}

/// Plan the rewrite of a parameter list: set the receiver aside, refuse a
/// parameter that is not a plain named binding, and gather the named
/// parameters into a record, which also brings them into canonical order
/// and rejects a shared name.
pub fn plan_named_args<P>(params: Vec<Param<P>>) -> (r: Result<NamedArgs<P>, ParamError>)
    ensures
        match r {
            Ok(plan) => {
                &&& params_supported(params@)
                &&& plan.has_receiver == params_has_receiver(params@)
                &&& distinct_names(params_named(params@))
                &&& plan.fields.well_formed()
                &&& plan.fields.field_seq().to_multiset() == params_named(params@).to_multiset()
                &&& forall|n: Seq<char>|
                    #[trigger] plan.fields@.dom().contains(n) <==> has_name(
                        params_named(params@),
                        n,
                    )
                &&& forall|i: int|
                    #![trigger params_named(params@)[i]]
                    0 <= i < params_named(params@).len() ==> plan.fields@[params_named(
                        params@,
                    )[i].name@] == params_named(params@)[i].value
            },
            Err(e) => match e {
                ParamError::Unsupported => !params_supported(params@),
                ParamError::Duplicate(n) => {
                    &&& params_supported(params@)
                    &&& !distinct_names(params_named(params@))
                    &&& exists|p: int, q: int|
                        #![trigger params_named(params@)[p], params_named(params@)[q]]
                        0 <= p < q < params_named(params@).len() && params_named(
                            params@,
                        )[p].name@ == n@ && params_named(params@)[q].name@ == n@
                },
            },
        },
{
    let ghost orig = params@;
    let mut rest = params;
    let mut collected: Vec<FieldPair<P>> = Vec::new();
    let mut has_receiver = false;
    proof {
        assert(collected@ + params_named(rest@) =~= params_named(orig));
    }
    while rest.len() > 0
        invariant
            orig == params@,
            collected@ + params_named(rest@) == params_named(orig),
            params_supported(orig) == params_supported(rest@),
            params_has_receiver(orig) == (has_receiver || params_has_receiver(rest@)),
        decreases rest@.len(),
    {
        let ghost rest0 = rest@;
        let ghost collected0 = collected@;
        let p = rest.remove(0);
        proof {
            assert(rest@ =~= rest0.drop_first());
            assert(p == rest0.first());
        }
        match p {
            Param::Receiver => {
                has_receiver = true;
            },
            Param::Named(fp) => {
                collected.push(fp);
                proof {
                    assert(params_named(rest0) == seq![fp] + params_named(rest@));
                    assert(collected@ + params_named(rest@) =~= collected0 + params_named(rest0));
                }
            },
            Param::Opaque => {
                proof {
                    assert(rest0.first() is Opaque);
                    assert(!params_supported(rest0));
                }
                return Err(ParamError::Unsupported);
            },
        }
    }
    proof {
        assert(params_named(rest@) =~= Seq::<FieldPair<P>>::empty());
        assert(collected@ + params_named(rest@) =~= collected@);
        assert(collected@ == params_named(orig));
    }
    match AnonymousStruct::new(collected) {
        Ok(fields) => Ok(NamedArgs { has_receiver, fields }),
        Err(e) => match e {
            FieldError::DuplicateField(n) => Err(ParamError::Duplicate(n)),
            FieldError::MissingField(_) => unreached(),
        },
    }
}

} // verus!
