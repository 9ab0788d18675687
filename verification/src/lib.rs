//! Scope-aware identifier resolution for hierarchical configuration data.
//!
//! Nested objects declare human-readable string identifiers and other objects
//! reference them.  A single conversion pass replaces every identifier by a
//! compact integer handle ([`Id`]) whose scope-correctness (uniqueness,
//! existence, visibility) is checked as the pass runs.  Resolution is strictly
//! online: a reference can only resolve an identifier that has already been
//! registered in an active or previously tracked scope, never one appearing
//! later in traversal order.
//!
//! Conversion is stateful: every [`Xylem::convert`] call brackets its
//! [`Xylem::convert_impl`] with a push and a pop of a scope-stack layer on the
//! [`DefaultContext`] threaded through the whole run, and the field
//! conversions in between may look identifiers up or register them through
//! [`DefaultContext::declare`] and [`DefaultContext::resolve`].
//!
//! Each logical category of identifier (its *kind*) is named by a `u64` key
//! chosen by the caller; distinct kinds must use distinct keys.  The keys
//! [`context::ROOT_KIND`], [`id::ID_KIND`] and [`id::ID_STRING_KIND`] are
//! reserved by the library.

pub mod alist;
pub mod context;
pub mod error;
pub mod id;
pub mod laws;
pub mod registry;

pub use context::DefaultContext;
pub use context::GlobalIdStore;
pub use context::Scope;
pub use error::Error;
pub use id::Id;
pub use id::IdArgs;
pub use id::IdString;
pub use id::Identifiable;

use vstd::prelude::*;

use crate::context::{empty_layer, kinds_extended, kinds_preserved, lemma_wf_depth, pop_layer,
    push_layer, CtxView};

verus! {

/// Implementors of this trait can be converted from their raw form while
/// registering and resolving identifiers against the shared context.
///
/// Every conversion of a structured value pushes a fresh scope-stack layer
/// tagged with the value's own kind key and pops it when the conversion ends;
/// on failure the layer stays, the whole context being discarded together
/// with the failed conversion attempt.
pub trait Xylem: Sized {
    /// The type to convert from.
    type From;

    /// The arguments provided at the conversion site of a field.
    type Args;

    /// The kind key identifying this type as a scope.
    spec fn spec_kind_key() -> u64;

    /// What the conversion requires of the context it starts from.
    spec fn req(from: Self::From, v: CtxView, args: Self::Args) -> bool;

    /// How the conversion relates the context it starts from, the context it
    /// leaves, and its result.
    spec fn ens(
        from: Self::From,
        v: CtxView,
        v2: CtxView,
        args: Self::Args,
        r: Result<Self, Error>,
    ) -> bool;

    /// The kind key identifying this type as a scope.
    fn kind_key() -> (k: u64)
        ensures
            k == Self::spec_kind_key(),
    ;

    /// The implementation of the conversion, run inside the layer that
    /// [`Xylem::convert`] pushed.
    fn convert_impl(from: Self::From, context: &mut DefaultContext, args: &Self::Args) -> (r:
        Result<Self, Error>)
        requires
            old(context).wf(),
            Self::req(from, old(context)@, *args),
        ensures
            final(context).wf(),
            kinds_extended(old(context)@, final(context)@),
            r is Ok ==> kinds_preserved(old(context)@, final(context)@),
            Self::ens(from, old(context)@, final(context)@, *args, r),
    ;

    /// Converts the `From` type to the `Self` type: pushes a layer tagged
    /// with this type's kind key, runs [`Xylem::convert_impl`], and pops the
    /// layer again on success.  Do not override this method.
    fn convert(from: Self::From, context: &mut DefaultContext, args: &Self::Args) -> (r: Result<
        Self,
        Error,
    >)
        requires
            old(context).wf(),
            Self::req(from, push_layer(old(context)@, Self::spec_kind_key()), *args),
        ensures
            final(context).wf(),
            kinds_extended(old(context)@, final(context)@),
            r is Ok ==> kinds_preserved(old(context)@, final(context)@),
        default_ensures
            r is Ok ==> exists|mid: CtxView|
                Self::ens(from, push_layer(old(context)@, Self::spec_kind_key()), mid, *args, r)
                    && final(context)@ == pop_layer(mid),
            !(r is Ok) ==> Self::ens(
                from,
                push_layer(old(context)@, Self::spec_kind_key()),
                final(context)@,
                *args,
                r,
            ),
    {
        let ghost from0 = from;
        let ghost v0 = old(context)@;
        let ghost v_pushed = push_layer(v0, Self::spec_kind_key());
        proof {
            lemma_wf_depth(context);
        }
        let scope = context.start_scope(Self::kind_key());
        match Self::convert_impl(from, context, args) {
            Ok(ret) => {
                let ghost mid = context@;
                proof {
                    assert(mid.layers.len() == v_pushed.layers.len());
                    assert(mid.layers.last().kind == v_pushed.layers[
                        v_pushed.layers.len() - 1
                    ].kind);
                    assert(v_pushed.layers.last() == empty_layer(Self::spec_kind_key()));
                }
                context.end_scope(scope);
                proof {
                    assert(Self::ens(from0, v_pushed, mid, *args, Ok(ret)));
                    assert(context@ == pop_layer(mid));
                    assert forall|i: int|
                        0 <= i < v0.layers.len() implies context@.layers[i].kind == (
                    #[trigger] v0.layers[i]).kind by {
                        assert(context@.layers[i] == mid.layers[i]);
                        assert(mid.layers[i].kind == v_pushed.layers[i].kind);
                        assert(v_pushed.layers[i] == v0.layers[i]);
                    }
                    assert(kinds_preserved(v0, context@));
                }
                Ok(ret)
            },
            Err(e) => {
                proof {
                    assert forall|i: int|
                        0 <= i < v0.layers.len() implies context@.layers[i].kind == (
                    #[trigger] v0.layers[i]).kind by {
                        assert(context@.layers[i].kind == v_pushed.layers[i].kind);
                        assert(v_pushed.layers[i] == v0.layers[i]);
                    }
                    assert(kinds_extended(v0, context@));
                }
                Err(e)
            },
        }
    }
}

/// Preprocessor and postprocessor extensions for conversions.
///
/// Implementors hook into their own conversion: `preprocess` is called on the
/// raw value before the field conversions start, `postprocess` on the
/// converted value just before the conversion returns.  Both default to doing
/// nothing.
pub trait Processable: Sized {
    /// The raw type the preprocessor works on.
    type From;

    /// Called on the raw value at the beginning of the conversion.
    fn preprocess(_from: &mut Self::From, _context: &mut DefaultContext) -> Result<(), Error> {
        Ok(())
    }

    /// Called on the converted value just before the conversion returns.
    fn postprocess(&mut self, _context: &mut DefaultContext) -> Result<(), Error> {
        Ok(())
    }
}

/// The default empty argument type.
#[derive(Debug, Clone, Copy, Default)]
pub struct NoArgs;

/// The unit type is used as the dummy type for the root scope: converting it
/// does nothing.
impl Xylem for () {
    type From = ();

    type Args = NoArgs;

    open spec fn spec_kind_key() -> u64 {
        context::ROOT_KIND
    }

    open spec fn req(from: (), v: CtxView, args: NoArgs) -> bool {
        true
    }

    open spec fn ens(from: (), v: CtxView, v2: CtxView, args: NoArgs, r: Result<(), Error>) -> bool {
        v2 == v && r is Ok
    }

    fn kind_key() -> u64 {
        context::ROOT_KIND
    }

    fn convert_impl(_from: (), _context: &mut DefaultContext, _args: &NoArgs) -> Result<(), Error> {
        Ok(())
    }
}

} // verus!
