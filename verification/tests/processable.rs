//! Preprocessor and postprocessor hooks around a conversion.

use xylem::{DefaultContext, Error, Processable};

const FOO_KIND: u64 = 30;
const U32_KIND: u64 = 31;

struct Foo {
    bar: u32,
}

struct FooFrom {
    bar: u32,
}

impl Processable for Foo {
    type From = FooFrom;

    fn preprocess(from: &mut FooFrom, _context: &mut DefaultContext) -> Result<(), Error> {
        from.bar += 1;
        Ok(())
    }

    fn postprocess(&mut self, _context: &mut DefaultContext) -> Result<(), Error> {
        assert_eq!(self.bar, 5);
        self.bar += 2;
        Ok(())
    }
}

fn convert_foo_impl(context: &mut DefaultContext, mut from: FooFrom) -> Result<Foo, Error> {
    Foo::preprocess(&mut from, context)?;
    let bar = {
        let scope = context.start_scope(U32_KIND);
        let value = from.bar;
        context.end_scope(scope);
        value
    };
    let mut foo = Foo { bar };
    foo.postprocess(context)?;
    Ok(foo)
}

fn convert_foo(context: &mut DefaultContext, from: FooFrom) -> Result<Foo, Error> {
    let scope = context.start_scope(FOO_KIND);
    let foo = convert_foo_impl(context, from)?;
    context.end_scope(scope);
    Ok(foo)
}

#[test]
fn processable_test_processable() {
    let mut context = DefaultContext::default();
    let foo_from = FooFrom { bar: 4 };

    let foo = convert_foo(&mut context, foo_from).unwrap();
    assert_eq!(foo.bar, 7);
}
