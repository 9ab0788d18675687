//! The handle type, the identifier-string accessor, and error messages.

use xylem::context::ROOT_KIND;
use xylem::id::{ID_KIND, ID_STRING_KIND};
use xylem::{DefaultContext, Error, Id, IdArgs, IdString, Xylem};

const K: u64 = 5;

#[test]
fn handle_round_trip() {
    assert_eq!(Id::new(0).index(), 0);
    assert_eq!(Id::new(7).index(), 7);
    assert_eq!(Id::new(u32::MAX as usize).index(), u32::MAX as usize);
}

#[test]
fn handles_are_ordered_and_copyable() {
    let a = Id::new(0);
    let b = Id::new(1);
    let c = a;
    assert_eq!(a, c);
    assert!(a < b);
    assert!(b > c);
    assert_eq!(Id::default(), Id::new(0));
}

#[test]
fn id_args_default_resolves_in_the_root_scope() {
    let args = IdArgs::default();
    assert!(!args.new);
    assert!(!args.track);
    assert!(args.import.is_empty());
    assert_eq!(args.kind, ROOT_KIND);
    assert_eq!(args.scope, ROOT_KIND);
}

#[test]
fn reserved_kind_keys_are_distinct() {
    assert_ne!(ID_KIND, ROOT_KIND);
    assert_ne!(ID_STRING_KIND, ROOT_KIND);
    assert_ne!(ID_KIND, ID_STRING_KIND);
}

#[test]
fn id_conversion_declares_and_resolves() {
    let mut ctx = DefaultContext::default();

    let s1 = ctx.start_scope(K);
    let new_args = IdArgs { new: true, track: false, import: Vec::new(), kind: K, scope: ROOT_KIND };
    let id = Id::convert(String::from("via-convert"), &mut ctx, &new_args).unwrap();
    assert_eq!(id.index(), 0);

    let ref_args = IdArgs { new: false, track: false, import: Vec::new(), kind: K, scope: ROOT_KIND };
    let back = Id::convert(String::from("via-convert"), &mut ctx, &ref_args).unwrap();
    assert_eq!(back.index(), 0);
    ctx.end_scope(s1);
}

#[test]
fn id_string_returns_the_current_name() {
    let mut ctx = DefaultContext::default();

    let s = ctx.start_scope(K);
    ctx.declare(K, ROOT_KIND, String::from("abc"), false).unwrap();
    let args = IdArgs { new: false, track: false, import: Vec::new(), kind: K, scope: ROOT_KIND };
    let id_string = IdString::convert((), &mut ctx, &args).unwrap();
    assert_eq!(id_string.value(), "abc");
    ctx.end_scope(s);
}

#[test]
fn id_string_without_declaration_fails() {
    let mut ctx = DefaultContext::default();

    let s = ctx.start_scope(K);
    let args = IdArgs { new: false, track: false, import: Vec::new(), kind: K, scope: ROOT_KIND };
    let err = IdString::convert((), &mut ctx, &args).unwrap_err();
    assert_eq!(err, Error::NoCurrentId { kind: K });
    assert_eq!(err.message(), "No current ID for kind 5");
    ctx.end_scope(s);
}

#[test]
fn unit_conversion_is_a_no_op() {
    let mut ctx = DefaultContext::default();
    <() as Xylem>::convert((), &mut ctx, &xylem::NoArgs).unwrap();
    assert_eq!(ctx.nth_last_scope(0), Some(ROOT_KIND));
    assert_eq!(ctx.nth_last_scope(1), None);
}

#[test]
fn messages_render_names_and_kinds() {
    assert_eq!(
        Error::DuplicateIdentifier { name: String::from("a b") }.message(),
        "Duplicate ID a b",
    );
    assert_eq!(
        Error::UnknownIdentifier { name: String::from("") }.message(),
        "Unknown ID ",
    );
    assert_eq!(
        Error::MultipleDeclarations { kind: 1234567890, new_index: 0, existing_index: 42 }
            .message(),
        "Multiple new IDs defined for kind 1234567890 (0, 42)",
    );
    assert_eq!(
        Error::UntrackedScope { kind: 0 }.message(),
        "Attempted to import scope for kind 0, but it was not tracked before",
    );
    assert_eq!(
        Error::NoActiveOrImportedScope { kind: 18446744073709551615 }.message(),
        "Use of ID of kind 18446744073709551615 before registering the first one",
    );
    assert_eq!(Error::NoCurrentId { kind: 100 }.message(), "No current ID for kind 100");
}
