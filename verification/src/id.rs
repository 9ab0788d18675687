//! Integer handles for declared identifiers.

use vstd::prelude::*;

use crate::context::{counter_or_empty, current_of, innermost_index, CtxView, DefaultContext,
    ROOT_KIND};
use crate::error::{Error, ErrorView};
use crate::registry::{lemma_declare_kinds, lemma_resolve_kinds, result_matches, spec_declare,
    spec_resolve};
use crate::{NoArgs, Xylem};

verus! {

/// The reserved kind key of the layer an [`Id`] conversion itself pushes.
pub const ID_KIND: u64 = 1;

/// The reserved kind key of the layer an [`IdString`] conversion itself
/// pushes.
pub const ID_STRING_KIND: u64 = 2;

/// An integer handle standing for a declared identifier.
///
/// A handle wraps the position its identifier had in the declaration list of
/// its scope at the time of resolution.  It is opaque, copyable and totally
/// ordered, and carries no reference to the scope stack: once produced, its
/// value is stable.
#[derive(Debug, Clone, Copy, Default, PartialEq, Eq, Structural, PartialOrd, Ord, Hash)]
pub struct Id {
    // `usize` is avoided so that the handle has the same width everywhere.
    index: u32,
}

impl View for Id {
    type V = int;

    closed spec fn view(&self) -> int {
        self.index as int
    }
}

impl Id {
    /// Creates a new identifier handle wrapping `index`.
    pub fn new(index: usize) -> (r: Self)
        requires
            index <= u32::MAX as usize,
        ensures
            r@ == index as int,
    {
        Id { index: index as u32 }
    }

    /// Returns the index of the identifier.
    pub fn index(&self) -> (r: usize)
        ensures
            r as int == self@,
    {
        self.index as usize
    }
}

/// Arguments for converting an [`Id`] field.
pub struct IdArgs {
    /// Whether to declare a new identifier.
    ///
    /// If `true`, the value is expected to be a new identifier in the
    /// namespace; if `false`, an existing one.
    pub new: bool,

    /// Whether to persist the identifier in the global registry, keyed by the
    /// indices of all enclosing current declarations.  Only meaningful when
    /// `new` is `true`.
    pub track: bool,

    /// Kinds whose persisted scope, nested under the object this identifier
    /// resolves to, is imported for the following sibling fields of the
    /// enclosing object.
    ///
    /// The recorded path is the single-element sequence of the resolved
    /// index: only one level of nested scope import is supported by design.
    pub import: Vec<u64>,

    /// The kind key of the identified type.
    pub kind: u64,

    /// The kind key of the identified type's namespace scope.
    pub scope: u64,
}

impl Default for IdArgs {
    /// Resolve an existing root-scoped identifier, importing nothing.
    fn default() -> (r: Self)
        ensures
            !r.new,
            !r.track,
            r.import@ == Seq::<u64>::empty(),
            r.kind == ROOT_KIND,
            r.scope == ROOT_KIND,
    {
        IdArgs { new: false, track: false, import: Vec::new(), kind: ROOT_KIND, scope: ROOT_KIND }
    }
}

impl Xylem for Id {
    type From = String;

    type Args = IdArgs;

    open spec fn spec_kind_key() -> u64 {
        ID_KIND
    }

    open spec fn req(from: String, v: CtxView, args: IdArgs) -> bool {
        if args.new {
            &&& spec_declare(v, args.kind, args.scope, from@, args.track) is Some
            &&& (innermost_index(v.layers, args.scope) matches Some(li) ==> counter_or_empty(
                v.layers[li],
                args.kind,
            ).len() <= u32::MAX)
        } else {
            &&& spec_resolve(v, args.kind, args.scope, from@, args.import@) is Some
            &&& (spec_resolve(v, args.kind, args.scope, from@, args.import@) matches Some(
                (v1, Ok(i)),
            ) ==> i <= u32::MAX as int)
        }
    }

    open spec fn ens(from: String, v: CtxView, v2: CtxView, args: IdArgs, r: Result<
        Id,
        Error,
    >) -> bool {
        if args.new {
            spec_declare(v, args.kind, args.scope, from@, args.track) matches Some((sv, rr)) && v2
                == sv && result_matches(r, rr)
        } else {
            spec_resolve(v, args.kind, args.scope, from@, args.import@) matches Some((sv, rr))
                && v2 == sv && result_matches(r, rr)
        }
    }

    fn kind_key() -> u64 {
        ID_KIND
    }

    fn convert_impl(from: String, context: &mut DefaultContext, args: &IdArgs) -> (r: Result<
        Id,
        Error,
    >) {
        let ghost from_v = from@;
        if args.new {
            let r = context.declare(args.kind, args.scope, from, args.track);
            proof {
                lemma_declare_kinds(old(context)@, args.kind, args.scope, from_v, args.track);
            }
            r
        } else {
            let r = context.resolve(args.kind, args.scope, &from, &args.import);
            proof {
                lemma_resolve_kinds(old(context)@, args.kind, args.scope, from_v, args.import@);
            }
            r
        }
    }
}

/// Retrieves the original string form of the current identifier of a kind.
#[derive(Debug, Clone)]
pub struct IdString {
    value: String,
}

impl View for IdString {
    type V = Seq<char>;

    closed spec fn view(&self) -> Seq<char> {
        self.value@
    }
}

impl IdString {
    /// The original string form of the identifier.
    pub fn value(&self) -> (r: &str)
        ensures
            r@ == self@,
    {
        self.value.as_str()
    }
}

impl Xylem for IdString {
    type From = ();

    type Args = IdArgs;

    open spec fn spec_kind_key() -> u64 {
        ID_STRING_KIND
    }

    open spec fn req(from: (), v: CtxView, args: IdArgs) -> bool {
        true
    }

    /// Only the `kind` argument is read: the result is the string of the
    /// current declaration of that kind, and the context is left unchanged.
    open spec fn ens(from: (), v: CtxView, v2: CtxView, args: IdArgs, r: Result<
        IdString,
        Error,
    >) -> bool {
        &&& v2 == v
        &&& match current_of(v, args.kind) {
            Some(c) => r matches Ok(s) && s@ == c.string,
            None => r matches Err(e) && e@ == (ErrorView::NoCurrentId { kind: args.kind }),
        }
    }

    fn kind_key() -> u64 {
        ID_STRING_KIND
    }

    fn convert_impl(_from: (), context: &mut DefaultContext, args: &IdArgs) -> Result<
        IdString,
        Error,
    > {
        match context.current_record(args.kind) {
            Some(c) => Ok(IdString { value: c.string().clone() }),
            None => Err(Error::NoCurrentId { kind: args.kind }),
        }
    }
}

/// A trait for types that can be identified.
pub trait Identifiable: Xylem {
    /// The kind key of the scope of the identifier namespace: the enclosing
    /// kind under which this type's identifiers must be unique.  Use
    /// [`ROOT_KIND`] for global identifiers.
    fn scope_key() -> u64;

    /// Returns the identifier for this instance.
    fn id(&self) -> Id;
}

} // verus!
