//! Cross-referencing identifiers after their declaring scope has closed,
//! through tracking and scope imports.

use xylem::context::ROOT_KIND;
use xylem::{DefaultContext, Error, Id, IdArgs, Xylem};

const FOO_KIND: u64 = 10;
const BAR_KIND: u64 = 11;
const QUX_KIND: u64 = 12;
const VEC_QUX_KIND: u64 = 22;

struct Foo {
    bar: Id,
    qux: Id,
}

struct FooFrom {
    bar: String,
    qux: String,
}

struct Bar {
    id: Id,
    #[allow(dead_code)] // it's only used to provide the nested scope.
    qux: Vec<Qux>,
}

struct BarFrom {
    id: String,
    qux: Vec<QuxFrom>,
}

struct Qux {
    id: Id,
}

struct QuxFrom {
    id: String,
}

fn convert_qux(context: &mut DefaultContext, from: QuxFrom) -> Result<Qux, Error> {
    let scope = context.start_scope(QUX_KIND);
    let args = IdArgs {
        new: true,
        track: true,
        import: Vec::new(),
        kind: QUX_KIND,
        scope: BAR_KIND,
    };
    let id = match Id::convert(from.id, context, &args) {
        Ok(id) => id,
        Err(e) => return Err(e),
    };
    context.end_scope(scope);
    Ok(Qux { id })
}

fn convert_bar(context: &mut DefaultContext, from: BarFrom) -> Result<Bar, Error> {
    let scope = context.start_scope(BAR_KIND);
    let args = IdArgs {
        new: true,
        track: false,
        import: Vec::new(),
        kind: BAR_KIND,
        scope: ROOT_KIND,
    };
    let id = match Id::convert(from.id, context, &args) {
        Ok(id) => id,
        Err(e) => return Err(e),
    };
    let vec_scope = context.start_scope(VEC_QUX_KIND);
    let mut qux = Vec::new();
    for qux_from in from.qux {
        match convert_qux(context, qux_from) {
            Ok(q) => qux.push(q),
            Err(e) => return Err(e),
        }
    }
    context.end_scope(vec_scope);
    context.end_scope(scope);
    Ok(Bar { id, qux })
}

fn convert_foo(context: &mut DefaultContext, from: FooFrom) -> Result<Foo, Error> {
    let scope = context.start_scope(FOO_KIND);
    let bar_args = IdArgs {
        new: false,
        track: false,
        import: vec![QUX_KIND],
        kind: BAR_KIND,
        scope: ROOT_KIND,
    };
    let bar = match Id::convert(from.bar, context, &bar_args) {
        Ok(id) => id,
        Err(e) => return Err(e),
    };
    let qux_args = IdArgs {
        new: false,
        track: false,
        import: Vec::new(),
        kind: QUX_KIND,
        scope: BAR_KIND,
    };
    let qux = match Id::convert(from.qux, context, &qux_args) {
        Ok(id) => id,
        Err(e) => return Err(e),
    };
    context.end_scope(scope);
    Ok(Foo { bar, qux })
}

#[test]
fn cross_id_test_cross_ref() {
    let mut context = DefaultContext::default();

    convert_bar(
        &mut context,
        BarFrom {
            id: String::from("one"),
            qux: vec![QuxFrom { id: String::from("two") }, QuxFrom { id: String::from("three") }],
        },
    )
    .unwrap();

    let foo = convert_foo(
        &mut context,
        FooFrom { bar: String::from("one"), qux: String::from("three") },
    )
    .unwrap();
    assert_eq!(foo.bar.index(), 0);
    assert_eq!(foo.qux.index(), 1);
}
