//! Identifier declaration and cross-referencing within and across scopes.

use xylem::context::ROOT_KIND;
use xylem::{DefaultContext, Error, Id, IdArgs, Xylem};

const FOO_KIND: u64 = 10;
const BAR_KIND: u64 = 11;
const OPTION_ID_FOO_KIND: u64 = 20;
const OPTION_ID_BAR_KIND: u64 = 21;
const VEC_BAR_KIND: u64 = 22;

#[derive(Debug)]
struct Foo {
    id: Id,
    other: Option<Id>,
    bar: Vec<Bar>,
}

struct FooFrom {
    id: String,
    other: Option<String>,
    bar: Vec<BarFrom>,
}

#[derive(Debug)]
struct Bar {
    id: Id,
    other: Option<Id>,
}

struct BarFrom {
    id: String,
    other: Option<String>,
}

fn new_id_args(kind: u64, scope: u64) -> IdArgs {
    IdArgs { new: true, track: false, import: Vec::new(), kind, scope }
}

fn ref_id_args(kind: u64, scope: u64) -> IdArgs {
    IdArgs { new: false, track: false, import: Vec::new(), kind, scope }
}

/// Converts an optional identifier field, pushing a layer for the option
/// wrapper as the generic conversion entry point would.
fn convert_option_id(
    context: &mut DefaultContext,
    from: Option<String>,
    args: &IdArgs,
    wrapper_kind: u64,
) -> Result<Option<Id>, Error> {
    let scope = context.start_scope(wrapper_kind);
    let ret = match from {
        Some(name) => match Id::convert(name, context, args) {
            Ok(id) => Some(id),
            Err(e) => return Err(e),
        },
        None => None,
    };
    context.end_scope(scope);
    Ok(ret)
}

fn convert_bar(context: &mut DefaultContext, from: BarFrom) -> Result<Bar, Error> {
    let scope = context.start_scope(BAR_KIND);
    let id = match Id::convert(from.id, context, &new_id_args(BAR_KIND, FOO_KIND)) {
        Ok(id) => id,
        Err(e) => return Err(e),
    };
    let other = match convert_option_id(
        context,
        from.other,
        &ref_id_args(BAR_KIND, FOO_KIND),
        OPTION_ID_BAR_KIND,
    ) {
        Ok(other) => other,
        Err(e) => return Err(e),
    };
    context.end_scope(scope);
    Ok(Bar { id, other })
}

fn convert_foo(context: &mut DefaultContext, from: FooFrom) -> Result<Foo, Error> {
    let scope = context.start_scope(FOO_KIND);
    let id = match Id::convert(from.id, context, &new_id_args(FOO_KIND, ROOT_KIND)) {
        Ok(id) => id,
        Err(e) => return Err(e),
    };
    let other = match convert_option_id(
        context,
        from.other,
        &ref_id_args(FOO_KIND, ROOT_KIND),
        OPTION_ID_FOO_KIND,
    ) {
        Ok(other) => other,
        Err(e) => return Err(e),
    };
    let vec_scope = context.start_scope(VEC_BAR_KIND);
    let mut bar = Vec::new();
    for bar_from in from.bar {
        match convert_bar(context, bar_from) {
            Ok(b) => bar.push(b),
            Err(e) => return Err(e),
        }
    }
    context.end_scope(vec_scope);
    context.end_scope(scope);
    Ok(Foo { id, other, bar })
}

#[test]
fn test_ref() {
    let mut context = DefaultContext::default();

    let first = convert_foo(
        &mut context,
        FooFrom { id: String::from("first"), other: None, bar: Vec::new() },
    )
    .unwrap();

    assert_eq!(first.id.index(), 0);
    assert!(first.other.is_none());

    let second = convert_foo(
        &mut context,
        FooFrom { id: String::from("second"), other: None, bar: Vec::new() },
    )
    .unwrap();

    assert_eq!(second.id.index(), 1);
    assert!(second.other.is_none());

    let third = convert_foo(
        &mut context,
        FooFrom {
            id: String::from("third"),
            other: Some(String::from("first")),
            bar: Vec::new(),
        },
    )
    .unwrap();

    assert_eq!(third.id.index(), 2);
    assert!(match third.other {
        Some(id) => id.index() == 0,
        None => false,
    });
}

#[test]
fn test_scoped_id() {
    let mut context = DefaultContext::default();

    let first = convert_foo(
        &mut context,
        FooFrom {
            id: String::from("first"),
            other: None,
            bar: vec![
                BarFrom { id: String::from("alpha"), other: None },
                BarFrom { id: String::from("beta"), other: Some(String::from("alpha")) },
            ],
        },
    )
    .unwrap();

    assert_eq!(first.bar[0].id.index(), 0);
    assert_eq!(first.bar[1].id.index(), 1);
    assert!(match first.bar[1].other {
        Some(id) => id.index() == 0,
        None => false,
    });

    let second_err = convert_foo(
        &mut context,
        FooFrom {
            id: String::from("second"),
            other: None,
            bar: vec![BarFrom {
                id: String::from("gamma"),
                other: Some(String::from("alpha")),
            }],
        },
    )
    .unwrap_err();
    assert_eq!(second_err.message(), "Unknown ID alpha");
}
