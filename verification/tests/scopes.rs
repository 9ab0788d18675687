//! Declaration and resolution driven directly through the context API.

use xylem::context::ROOT_KIND;
use xylem::{DefaultContext, Error};

const K: u64 = 5;
const BAR_KIND: u64 = 6;
const QUX_KIND: u64 = 7;

#[test]
fn declare_then_resolve_same_scope() {
    let mut ctx = DefaultContext::default();

    let s1 = ctx.start_scope(K);
    let one = ctx.declare(K, ROOT_KIND, String::from("one"), false).unwrap();
    ctx.end_scope(s1);

    let s2 = ctx.start_scope(K);
    let two = ctx.declare(K, ROOT_KIND, String::from("two"), false).unwrap();
    ctx.end_scope(s2);

    assert_eq!(one.index(), 0);
    assert_eq!(two.index(), 1);

    let s3 = ctx.start_scope(K);
    let r = ctx.resolve(K, ROOT_KIND, &String::from("two"), &Vec::new()).unwrap();
    ctx.end_scope(s3);
    assert_eq!(r.index(), 1);
}

#[test]
fn handles_follow_declaration_order() {
    let mut ctx = DefaultContext::default();
    let names = ["ant", "bee", "cat", "dog"];
    for (i, name) in names.iter().enumerate() {
        let s = ctx.start_scope(K);
        let id = ctx.declare(K, ROOT_KIND, String::from(*name), false).unwrap();
        ctx.end_scope(s);
        assert_eq!(id.index(), i);
    }
    let s = ctx.start_scope(K);
    for (i, name) in names.iter().enumerate() {
        let id = ctx.resolve(K, ROOT_KIND, &String::from(*name), &Vec::new()).unwrap();
        assert_eq!(id.index(), i);
    }
    ctx.end_scope(s);
}

#[test]
fn duplicate_declaration_fails() {
    let mut ctx = DefaultContext::default();

    let s1 = ctx.start_scope(K);
    ctx.declare(K, ROOT_KIND, String::from("apple"), false).unwrap();
    ctx.end_scope(s1);
    let s2 = ctx.start_scope(K);
    ctx.declare(K, ROOT_KIND, String::from("dup"), false).unwrap();
    ctx.end_scope(s2);

    // The position of the earlier name does not matter.
    let s3 = ctx.start_scope(K);
    let err = ctx.declare(K, ROOT_KIND, String::from("apple"), false).unwrap_err();
    assert_eq!(err, Error::DuplicateIdentifier { name: String::from("apple") });
    ctx.end_scope(s3);

    let s4 = ctx.start_scope(K);
    let err = ctx.declare(K, ROOT_KIND, String::from("dup"), false).unwrap_err();
    assert_eq!(err.message(), "Duplicate ID dup");
    ctx.end_scope(s4);
}

#[test]
fn unknown_identifier_fails() {
    let mut ctx = DefaultContext::default();

    let s1 = ctx.start_scope(K);
    ctx.declare(K, ROOT_KIND, String::from("known"), false).unwrap();
    let err = ctx.resolve(K, ROOT_KIND, &String::from("zzz"), &Vec::new()).unwrap_err();
    assert_eq!(err, Error::UnknownIdentifier { name: String::from("zzz") });
    assert_eq!(err.message(), "Unknown ID zzz");
    ctx.end_scope(s1);
}

#[test]
fn resolution_is_stable() {
    let mut ctx = DefaultContext::default();

    let s1 = ctx.start_scope(K);
    ctx.declare(K, ROOT_KIND, String::from("pin"), false).unwrap();
    let a = ctx.resolve(K, ROOT_KIND, &String::from("pin"), &Vec::new()).unwrap();
    let b = ctx.resolve(K, ROOT_KIND, &String::from("pin"), &Vec::new()).unwrap();
    assert_eq!(a, b);
    assert_eq!(a.index(), 0);
    ctx.end_scope(s1);
}

#[test]
fn multiple_declarations_on_one_object_fail() {
    let mut ctx = DefaultContext::default();

    let s = ctx.start_scope(K);
    let first = ctx.declare(K, ROOT_KIND, String::from("x"), false).unwrap();
    assert_eq!(first.index(), 0);
    // A second new identifier on the same object instance fails even though
    // the names differ.
    let err = ctx.declare(K, ROOT_KIND, String::from("y"), false).unwrap_err();
    assert_eq!(
        err,
        Error::MultipleDeclarations { kind: K, new_index: 1, existing_index: 0 },
    );
    assert_eq!(err.message(), "Multiple new IDs defined for kind 5 (1, 0)");
    ctx.end_scope(s);
}

#[test]
fn tracked_names_survive_their_scope() {
    let mut ctx = DefaultContext::default();

    let b = ctx.start_scope(BAR_KIND);
    ctx.declare(BAR_KIND, ROOT_KIND, String::from("b0"), false).unwrap();
    let q1 = ctx.start_scope(QUX_KIND);
    let alpha = ctx.declare(QUX_KIND, BAR_KIND, String::from("alpha"), true).unwrap();
    assert_eq!(alpha.index(), 0);
    ctx.end_scope(q1);
    let q2 = ctx.start_scope(QUX_KIND);
    let beta = ctx.declare(QUX_KIND, BAR_KIND, String::from("beta"), true).unwrap();
    assert_eq!(beta.index(), 1);
    ctx.end_scope(q2);
    ctx.end_scope(b);

    // The names were persisted under the ancestor path [0]: the index of the
    // enclosing "b0" declaration.
    let store = ctx.global_store(QUX_KIND).unwrap();
    let names = store.get(&vec![0]).unwrap();
    assert_eq!(names.len(), 2);
    assert_eq!(names[0], "alpha");
    assert_eq!(names[1], "beta");
    assert!(store.get(&vec![1]).is_none());
    assert!(ctx.global_store(BAR_KIND).is_none());

    // A sibling subtree imports the persisted scope through a resolved
    // reference to "b0" and can still resolve "beta" by its path.
    let outer = ctx.start_scope(40);
    let field1 = ctx.start_scope(41);
    let b0 = ctx.resolve(BAR_KIND, ROOT_KIND, &String::from("b0"), &vec![QUX_KIND]).unwrap();
    assert_eq!(b0.index(), 0);
    ctx.end_scope(field1);
    let field2 = ctx.start_scope(42);
    let beta_ref = ctx.resolve(QUX_KIND, BAR_KIND, &String::from("beta"), &Vec::new()).unwrap();
    assert_eq!(beta_ref.index(), 1);
    let missing = ctx.resolve(QUX_KIND, BAR_KIND, &String::from("gamma"), &Vec::new()).unwrap_err();
    assert_eq!(missing.message(), "Unknown ID gamma");
    ctx.end_scope(field2);
    ctx.end_scope(outer);
}

#[test]
fn import_without_tracking_fails() {
    let mut ctx = DefaultContext::default();

    let b = ctx.start_scope(BAR_KIND);
    ctx.declare(BAR_KIND, ROOT_KIND, String::from("b0"), false).unwrap();
    // "alpha" is declared but not persisted.
    let q = ctx.start_scope(QUX_KIND);
    ctx.declare(QUX_KIND, BAR_KIND, String::from("alpha"), false).unwrap();
    ctx.end_scope(q);
    ctx.end_scope(b);

    let outer = ctx.start_scope(40);
    let field1 = ctx.start_scope(41);
    ctx.resolve(BAR_KIND, ROOT_KIND, &String::from("b0"), &vec![QUX_KIND]).unwrap();
    ctx.end_scope(field1);
    let field2 = ctx.start_scope(42);
    let err = ctx.resolve(QUX_KIND, BAR_KIND, &String::from("alpha"), &Vec::new()).unwrap_err();
    assert_eq!(err, Error::UntrackedScope { kind: QUX_KIND });
    assert_eq!(err.message(), "Attempted to import scope for kind 7, but it was not tracked before");
    ctx.end_scope(field2);
    ctx.end_scope(outer);
}

#[test]
fn reference_before_any_declaration_fails() {
    let mut ctx = DefaultContext::default();

    let s = ctx.start_scope(K);
    let err = ctx.resolve(42, ROOT_KIND, &String::from("anything"), &Vec::new()).unwrap_err();
    assert_eq!(err, Error::NoActiveOrImportedScope { kind: 42 });
    assert_eq!(err.message(), "Use of ID of kind 42 before registering the first one");
    ctx.end_scope(s);
}

#[test]
fn closed_scope_is_not_reachable() {
    let mut ctx = DefaultContext::default();

    // "alpha" lives in the namespace of the first K-instance only.
    let outer1 = ctx.start_scope(K);
    let inner1 = ctx.start_scope(QUX_KIND);
    ctx.declare(QUX_KIND, K, String::from("alpha"), false).unwrap();
    ctx.end_scope(inner1);
    let r = ctx.resolve(QUX_KIND, K, &String::from("alpha"), &Vec::new()).unwrap();
    assert_eq!(r.index(), 0);
    ctx.end_scope(outer1);

    // A second K-instance has a fresh counter: after one of its own
    // declarations, "alpha" is unknown there.
    let outer2 = ctx.start_scope(K);
    let inner2 = ctx.start_scope(QUX_KIND);
    ctx.declare(QUX_KIND, K, String::from("gamma"), false).unwrap();
    ctx.end_scope(inner2);
    let err = ctx.resolve(QUX_KIND, K, &String::from("alpha"), &Vec::new()).unwrap_err();
    assert_eq!(err.message(), "Unknown ID alpha");
    ctx.end_scope(outer2);
}

#[test]
fn current_record_reflects_the_declaration() {
    let mut ctx = DefaultContext::default();

    let s = ctx.start_scope(K);
    ctx.declare(K, ROOT_KIND, String::from("me"), false).unwrap();
    let rec = ctx.current_record(K).unwrap();
    assert_eq!(rec.id(), 0);
    assert_eq!(rec.parent(), ROOT_KIND);
    assert_eq!(rec.string(), "me");
    assert!(ctx.current_record(BAR_KIND).is_none());
    ctx.end_scope(s);
    assert!(ctx.current_record(K).is_none());
}

#[test]
fn nth_last_scope_walks_the_stack() {
    let mut ctx = DefaultContext::default();
    assert_eq!(ctx.nth_last_scope(0), Some(ROOT_KIND));
    assert_eq!(ctx.nth_last_scope(1), None);

    let s = ctx.start_scope(K);
    assert_eq!(ctx.nth_last_scope(0), Some(K));
    assert_eq!(ctx.nth_last_scope(1), Some(ROOT_KIND));
    assert_eq!(ctx.nth_last_scope(2), None);
    ctx.end_scope(s);
    assert_eq!(ctx.nth_last_scope(0), Some(ROOT_KIND));
}
