//! Laws of declaration and resolution, proved from the exact specifications
//! [`spec_declare`] and [`spec_resolve`].

use vstd::prelude::*;

use crate::context::{active_counter, counter_or_empty, counter_pushed, current_of,
    first_import, global_entry, innermost_index, lemma_innermost_index, with_current, CtxView,
    CurrentIdView, LayerView};
use crate::error::ErrorView;
use crate::registry::{imports_upserted, lemma_find_name, lemma_find_name_at, spec_declare,
    spec_declare_mid, spec_find_name, spec_resolve};

verus! {

/// Two stacks whose layers carry the same kinds agree on where the innermost
/// layer of any kind sits.
proof fn lemma_innermost_same_kinds(l1: Seq<LayerView>, l2: Seq<LayerView>, kind: u64)
    requires
        l1.len() == l2.len(),
        forall|i: int| 0 <= i < l1.len() ==> l1[i].kind == (#[trigger] l2[i]).kind,
    ensures
        innermost_index(l1, kind) == innermost_index(l2, kind),
    decreases l1.len(),
{
    if l1.len() > 0 {
        assert(l1.last().kind == l2.last().kind);
        lemma_innermost_same_kinds(l1.drop_last(), l2.drop_last(), kind);
        assert(forall|i: int| 0 <= i < l1.len() - 1 ==> l1.drop_last()[i] == l1[i]);
        assert(forall|i: int| 0 <= i < l2.len() - 1 ==> l2.drop_last()[i] == l2[i]);
    }
}

/// For a sequence of distinct names declared for one kind in one active
/// scope, resolving any of the names yields the handle of its declaration
/// position: the names resolve to `0`, `1`, ... in declaration order.
pub proof fn lemma_resolution_in_declaration_order(v: CtxView, kind: u64, scope: u64, i: int)
    requires
        v.layers.len() >= 2,
        active_counter(v, kind, scope) is Some,
        active_counter(v, kind, scope).unwrap().no_duplicates(),
        0 <= i < active_counter(v, kind, scope).unwrap().len(),
    ensures
        spec_resolve(v, kind, scope, active_counter(v, kind, scope).unwrap()[i], Seq::empty())
            matches Some((v1, rr)) && rr == Ok::<int, ErrorView>(i),
{
    let names = active_counter(v, kind, scope).unwrap();
    lemma_find_name_at(names, names[i], i);
    let target_kind = v.layers[v.layers.len() - 2].kind;
    lemma_innermost_index(v.layers, target_kind);
    assert(innermost_index(v.layers, target_kind) is Some) by {
        if innermost_index(v.layers, target_kind) is None {
            assert(v.layers[v.layers.len() - 2].kind != target_kind);
        }
    }
}

/// A successful declaration hands out the next sequential index: the handle
/// wraps the length the scope's counter had before, and the counter grows by
/// exactly the declared name, at its end.  Together with
/// [`lemma_resolution_in_declaration_order`], N distinct declarations in one
/// scope receive the handles `0` to `N - 1` in declaration order.
pub proof fn lemma_declaration_appends(
    v: CtxView,
    kind: u64,
    scope: u64,
    name: Seq<char>,
    track: bool,
)
    requires
        spec_declare(v, kind, scope, name, track) matches Some((v1, rr)) && rr is Ok,
    ensures
        spec_declare(v, kind, scope, name, track) matches Some((v1, rr)) && rr == Ok::<
            int,
            ErrorView,
        >(counter_or_empty(v.layers[innermost_index(v.layers, scope).unwrap()], kind).len() as int)
            && active_counter(v1, kind, scope) == Some(
            counter_or_empty(v.layers[innermost_index(v.layers, scope).unwrap()], kind).push(name),
        ),
{
    let (v1, rr) = spec_declare(v, kind, scope, name, track).unwrap();
    let li = innermost_index(v.layers, scope).unwrap();
    lemma_innermost_index(v.layers, scope);
    let before = counter_or_empty(v.layers[li], kind);
    let vm = spec_declare_mid(v, kind, scope, name);
    assert(vm.layers[li].counters == v.layers[li].counters.insert(kind, before.push(name)));
    let ki = innermost_index(vm.layers, kind).unwrap();
    lemma_innermost_index(vm.layers, kind);
    let rec = CurrentIdView { id: before.len() as usize, parent: scope, string: name };
    let v2 = CtxView { layers: vm.layers.update(ki, with_current(vm.layers[ki], rec)), ..vm };
    assert(v2.layers[li].counters == vm.layers[li].counters) by {
        assert(with_current(vm.layers[ki], rec).counters == vm.layers[ki].counters);
    }
    assert(v1.layers == v2.layers);
    assert(forall|i: int| 0 <= i < v.layers.len() ==> (#[trigger] v1.layers[i]).kind == v.layers[
        i
    ].kind) by {
        assert(counter_pushed(v.layers[li], kind, name).kind == v.layers[li].kind);
        assert(with_current(vm.layers[ki], rec).kind == vm.layers[ki].kind);
    }
    lemma_innermost_same_kinds(v1.layers, v.layers, scope);
}

/// Declaring a name that already stands in its scope's counter always fails
/// with `DuplicateIdentifier`, regardless of the position the name holds, and
/// leaves the context unchanged.
pub proof fn lemma_duplicate_declaration_fails(
    v: CtxView,
    kind: u64,
    scope: u64,
    name: Seq<char>,
    track: bool,
)
    requires
        innermost_index(v.layers, scope) is Some,
        counter_or_empty(v.layers[innermost_index(v.layers, scope).unwrap()], kind).contains(name),
    ensures
        spec_declare(v, kind, scope, name, track) == Some(
            (v, Err::<int, ErrorView>(ErrorView::DuplicateIdentifier { name })),
        ),
{
    let li = innermost_index(v.layers, scope).unwrap();
    let names = counter_or_empty(v.layers[li], kind);
    lemma_find_name(names, name);
    if spec_find_name(names, name) is None {
        let w = choose|w: int| 0 <= w < names.len() && names[w] == name;
        assert(names[w] != name);
    }
}

/// Resolving a name that is absent from the reachable name list fails with
/// `UnknownIdentifier` and leaves the context unchanged: absent from the
/// active counter when the declaring scope is still open, and absent from the
/// imported persistent registry entry otherwise.
pub proof fn lemma_unknown_identifier_fails(
    v: CtxView,
    kind: u64,
    scope: u64,
    name: Seq<char>,
    import: Seq<u64>,
)
    requires
        v.layers.len() >= 2,
        match active_counter(v, kind, scope) {
            Some(names) => !names.contains(name),
            None => {
                &&& first_import(v.layers, kind) is Some
                &&& global_entry(v, kind, first_import(v.layers, kind).unwrap()) is Some
                &&& !global_entry(
                    v,
                    kind,
                    first_import(v.layers, kind).unwrap(),
                ).unwrap().contains(name)
            },
        },
    ensures
        spec_resolve(v, kind, scope, name, import) == Some(
            (v, Err::<int, ErrorView>(ErrorView::UnknownIdentifier { name })),
        ),
{
    match active_counter(v, kind, scope) {
        Some(names) => {
            lemma_find_name(names, name);
            match spec_find_name(names, name) {
                Some(i) => {
                    assert(names[i] == name);
                    assert(names.contains(name));
                },
                None => {},
            }
        },
        None => {
            let entry = global_entry(v, kind, first_import(v.layers, kind).unwrap()).unwrap();
            lemma_find_name(entry, name);
            match spec_find_name(entry, name) {
                Some(i) => {
                    assert(entry[i] == name);
                    assert(entry.contains(name));
                },
                None => {},
            }
        },
    }
}

/// A handle's value is stable: a resolution that imports nothing leaves the
/// context exactly as it was, so resolving the same name again yields the
/// same result, handle or error.
pub proof fn lemma_resolution_stable(v: CtxView, kind: u64, scope: u64, name: Seq<char>)
    requires
        v.layers.len() >= 2,
        spec_resolve(v, kind, scope, name, Seq::empty()) is Some,
    ensures
        spec_resolve(v, kind, scope, name, Seq::empty()) matches Some((v1, rr)) && v1 == v,
        spec_resolve(v, kind, scope, name, Seq::empty()) matches Some((v1, rr))
            ==> spec_resolve(v1, kind, scope, name, Seq::empty()) == spec_resolve(
            v,
            kind,
            scope,
            name,
            Seq::empty(),
        ),
{
    let (v1, rr) = spec_resolve(v, kind, scope, name, Seq::empty()).unwrap();
    if rr is Ok {
        let target_kind = v.layers[v.layers.len() - 2].kind;
        let ti = innermost_index(v.layers, target_kind).unwrap();
        lemma_innermost_index(v.layers, target_kind);
        assert(imports_upserted(v.layers[ti], Seq::empty(), (rr->Ok_0) as usize) == v.layers[ti]);
        assert(v.layers.update(ti, v.layers[ti]) =~= v.layers);
        assert(v1 =~= v);
    }
}

/// Declaring two new identifiers of the same kind on the same object instance
/// fails with `MultipleDeclarations`, even if the two names differ: the
/// second declaration finds the current-declaration record of the first.  Its
/// name, however, has already been appended to the scope's counter; there is
/// no rollback.
pub proof fn lemma_multiple_declarations_fail(
    v: CtxView,
    kind: u64,
    scope: u64,
    name: Seq<char>,
    track: bool,
)
    requires
        innermost_index(v.layers, scope) is Some,
        !counter_or_empty(v.layers[innermost_index(v.layers, scope).unwrap()], kind).contains(
            name,
        ),
        current_of(v, kind) is Some,
    ensures
        spec_declare(v, kind, scope, name, track) matches Some((v1, rr)) && rr == Err::<
            int,
            ErrorView,
        >(ErrorView::MultipleDeclarations {
            kind,
            new_index: counter_or_empty(
                v.layers[innermost_index(v.layers, scope).unwrap()],
                kind,
            ).len() as usize,
            existing_index: current_of(v, kind).unwrap().id,
        }) && v1 == spec_declare_mid(v, kind, scope, name),
{
    let li = innermost_index(v.layers, scope).unwrap();
    lemma_innermost_index(v.layers, scope);
    let names = counter_or_empty(v.layers[li], kind);
    lemma_find_name(names, name);
    match spec_find_name(names, name) {
        Some(i) => {
            assert(names[i] == name);
            assert(names.contains(name));
        },
        None => {},
    }
    let v1 = spec_declare_mid(v, kind, scope, name);
    assert(v1.layers.len() == v.layers.len());
    assert(forall|i: int| 0 <= i < v.layers.len() ==> (#[trigger] v1.layers[i]).kind == v.layers[
        i
    ].kind) by {
        assert(counter_pushed(v.layers[li], kind, name).kind == v.layers[li].kind);
    }
    lemma_innermost_same_kinds(v1.layers, v.layers, kind);
    let ki = innermost_index(v.layers, kind).unwrap();
    lemma_innermost_index(v1.layers, kind);
    assert(v1.layers[ki].current == v.layers[ki].current) by {
        assert(counter_pushed(v.layers[li], kind, name).current == v.layers[li].current);
    }
}

} // verus!
