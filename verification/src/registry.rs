//! Declaring and resolving identifiers over the scope stack.
//!
//! [`DefaultContext::declare`] registers a new name for a kind in the
//! innermost layer of the kind's namespace scope, assigning it the next
//! sequential index and rejecting duplicates; [`DefaultContext::resolve`]
//! looks an existing name up, first in the active counter and otherwise
//! through an imported persistent registry entry.  Both are specified exactly
//! by [`spec_declare`] and [`spec_resolve`].

use vstd::prelude::*;

use crate::context::{active_counter, counter_or_empty, counter_pushed,
    current_of, first_import, global_entry, global_pushed, import_set, innermost_index,
    kinds_preserved, lemma_innermost_index, lemma_layers_view, names_view, with_current, CtxView,
    CurrentIdView, DefaultContext, LayerView};
use crate::error::{Error, ErrorView};
use crate::id::Id;

verus! {

/// The position of the first occurrence of `name` in `names`.
pub open spec fn spec_find_name(names: Seq<Seq<char>>, name: Seq<char>) -> Option<int>
    decreases names.len(),
{
    if names.len() == 0 {
        None
    } else if names[0] == name {
        Some(0int)
    } else {
        match spec_find_name(names.drop_first(), name) {
            None => None,
            Some(i) => Some(i + 1),
        }
    }
}

/// What [`spec_find_name`] returns: the first position holding `name`, or
/// nothing when `name` does not occur.
pub proof fn lemma_find_name(names: Seq<Seq<char>>, name: Seq<char>)
    ensures
        match spec_find_name(names, name) {
            Some(i) => 0 <= i < names.len() && names[i] == name && (forall|j: int|
                0 <= j < i ==> names[j] != name),
            None => forall|j: int| 0 <= j < names.len() ==> names[j] != name,
        },
    decreases names.len(),
{
    if names.len() > 0 && names[0] != name {
        let rest = names.drop_first();
        lemma_find_name(rest, name);
        assert(forall|j: int| 0 <= j < rest.len() ==> rest[j] == names[j + 1]);
        match spec_find_name(rest, name) {
            Some(i) => {
                assert(names[i + 1] == rest[i]);
                assert(forall|j: int| 0 < j < i + 1 ==> names[j] == rest[j - 1]);
            },
            None => {
                assert(forall|j: int| 0 < j < names.len() ==> names[j] == rest[j - 1]);
            },
        }
    }
}

/// The first position holding `name` determines [`spec_find_name`].
pub proof fn lemma_find_name_at(names: Seq<Seq<char>>, name: Seq<char>, i: int)
    requires
        0 <= i < names.len(),
        names[i] == name,
        forall|j: int| 0 <= j < i ==> names[j] != name,
    ensures
        spec_find_name(names, name) == Some(i),
    decreases names.len(),
{
    if names[0] != name {
        lemma_find_name_at(names.drop_first(), name, i - 1);
    }
}

/// The position of the first occurrence of `name` in `names`.
pub(crate) fn find_name(names: &Vec<String>, name: &String) -> (r: Option<usize>)
    ensures
        match r {
            Some(i) => spec_find_name(names_view(names@), name@) == Some(i as int),
            None => spec_find_name(names_view(names@), name@) is None,
        },
{
    let mut i: usize = 0;
    while i < names.len()
        invariant
            i <= names@.len(),
            forall|j: int| 0 <= j < i ==> names_view(names@)[j] != name@,
        decreases names@.len() - i,
    {
        if names[i].eq(name) {
            proof {
                lemma_find_name_at(names_view(names@), name@, i as int);
            }
            return Some(i);
        }
        i = i + 1;
    }
    proof {
        lemma_find_name(names_view(names@), name@);
    }
    None
}

/// Looking `name` up in a reachable name list: the resolved index when the
/// name occurs, or the exact error otherwise.
pub open spec fn lookup_result(names: Seq<Seq<char>>, name: Seq<char>) -> Result<int, ErrorView> {
    match spec_find_name(names, name) {
        Some(i) => Ok(i),
        None => Err(ErrorView::UnknownIdentifier { name }),
    }
}

/// Resolving `name` through the import tables, for use when the declaring
/// scope of `kind` is no longer active: the innermost import entry for `kind`
/// names the persistent registry entry to search.
pub open spec fn import_lookup(v: CtxView, kind: u64, name: Seq<char>) -> Result<int, ErrorView> {
    match first_import(v.layers, kind) {
        None => Err(ErrorView::NoActiveOrImportedScope { kind }),
        Some(path) => match global_entry(v, kind, path) {
            None => Err(ErrorView::UntrackedScope { kind }),
            Some(entry) => lookup_result(entry, name),
        },
    }
}

/// `l` with its import table sending each kind of `kinds` to the
/// single-element path `[index]`.
pub open spec fn imports_upserted(l: LayerView, kinds: Seq<u64>, index: usize) -> LayerView
    decreases kinds.len(),
{
    if kinds.len() == 0 {
        l
    } else {
        import_set(imports_upserted(l, kinds.drop_last(), index), kinds.last(), index)
    }
}

/// What resolving an existing `name` of `kind` does (it never mutates the
/// counters or the registry): the index resolved against the active counter
/// of the innermost `scope` layer when one exists, and otherwise against the
/// imported registry entry; on success, the import table of the enclosing
/// object's layer (the layer one below the current top) additionally maps
/// each kind of `import` to the resolved index, as the single-element
/// ancestor path (only one level of nested scope import is supported by
/// design).  Nothing is defined when the stack is less than two layers deep.
pub open spec fn spec_resolve(
    v: CtxView,
    kind: u64,
    scope: u64,
    name: Seq<char>,
    import: Seq<u64>,
) -> Option<(CtxView, Result<int, ErrorView>)> {
    if v.layers.len() < 2 {
        None
    } else {
        let step = match active_counter(v, kind, scope) {
            Some(names) => lookup_result(names, name),
            None => import_lookup(v, kind, name),
        };
        match step {
            Err(e) => Some((v, Err(e))),
            Ok(i) => {
                let target_kind = v.layers[v.layers.len() - 2].kind;
                match innermost_index(v.layers, target_kind) {
                    None => None,
                    Some(ti) => {
                        let v1 = CtxView {
                            layers: v.layers.update(
                                ti,
                                imports_upserted(v.layers[ti], import, i as usize),
                            ),
                            ..v
                        };
                        Some((v1, Ok(i)))
                    },
                }
            },
        }
    }
}

/// The context after the counter-push step of a declaration: the counter for
/// `kind` in the innermost `scope` layer has `name` appended.
pub open spec fn spec_declare_mid(v: CtxView, kind: u64, scope: u64, name: Seq<char>) -> CtxView {
    let li = innermost_index(v.layers, scope).unwrap();
    CtxView { layers: v.layers.update(li, counter_pushed(v.layers[li], kind, name)), ..v }
}

/// What declaring a new `name` of `kind` does: the name is appended to the
/// counter of the innermost `scope` layer (failing on a duplicate), its index
/// is the counter's previous length, the current-declaration record of the
/// innermost `kind` layer is set (failing when one already exists, the
/// counter then already holding the name), and, with `track`, the name is
/// appended to the persistent registry entry for `kind` at the ancestor-index
/// path of the declaration.  Nothing is defined when no `scope` layer is
/// active, when (past the duplicate check) no `kind` layer is active, or when
/// the ancestor chain to walk does not close.
pub open spec fn spec_declare(v: CtxView, kind: u64, scope: u64, name: Seq<char>, track: bool)
    -> Option<(CtxView, Result<int, ErrorView>)> {
    match innermost_index(v.layers, scope) {
        None => None,
        Some(li) => {
            let names = counter_or_empty(v.layers[li], kind);
            if spec_find_name(names, name) is Some {
                Some((v, Err(ErrorView::DuplicateIdentifier { name })))
            } else {
                let index = names.len() as int;
                let v1 = spec_declare_mid(v, kind, scope, name);
                match innermost_index(v1.layers, kind) {
                    None => None,
                    Some(ki) => match v1.layers[ki].current {
                        Some(c) => Some(
                            (
                                v1,
                                Err(ErrorView::MultipleDeclarations {
                                    kind,
                                    new_index: index as usize,
                                    existing_index: c.id,
                                }),
                            ),
                        ),
                        None => {
                            let rec = CurrentIdView {
                                id: index as usize,
                                parent: scope,
                                string: name,
                            };
                            let v2 = CtxView {
                                layers: v1.layers.update(ki, with_current(v1.layers[ki], rec)),
                                ..v1
                            };
                            if !track {
                                Some((v2, Ok(index)))
                            } else {
                                match ancestor_path(v2, scope, v2.layers.len() as nat) {
                                    None => None,
                                    Some(path) => {
                                        let v3 = CtxView {
                                            layers: v2.layers,
                                            globals: global_pushed(v2.globals, kind, path, name),
                                        };
                                        Some((v3, Ok(index)))
                                    },
                                }
                            }
                        },
                    },
                }
            }
        },
    }
}

/// The ancestor-index path for a declaration whose namespace parent is
/// `start`: the indices of the current-declaration records reached by
/// following each record's parent kind upward from `start`, in root-to-parent
/// order.  `fuel` bounds the walk; the result is nothing when the chain does
/// not close within `fuel` steps.  A chain that does not close within the
/// depth of the stack revisits a record and therefore never closes.
pub open spec fn ancestor_path(v: CtxView, start: u64, fuel: nat) -> Option<Seq<usize>>
    decreases fuel,
{
    match current_of(v, start) {
        None => Some(Seq::empty()),
        Some(c) => if fuel == 0 {
            None
        } else {
            match ancestor_path(v, c.parent, (fuel - 1) as nat) {
                None => None,
                Some(rest) => Some(rest.push(c.id)),
            }
        },
    }
}

/// [`imports_upserted`] only rewrites the import table of the layer.
pub proof fn lemma_imports_upserted_fields(l: LayerView, kinds: Seq<u64>, index: usize)
    ensures
        imports_upserted(l, kinds, index).kind == l.kind,
        imports_upserted(l, kinds, index).counters == l.counters,
        imports_upserted(l, kinds, index).current == l.current,
    decreases kinds.len(),
{
    if kinds.len() > 0 {
        lemma_imports_upserted_fields(l, kinds.drop_last(), index);
    }
}

/// A declaration never pushes or pops layers: the stack keeps its shape.
pub proof fn lemma_declare_kinds(v: CtxView, kind: u64, scope: u64, name: Seq<char>, track: bool)
    requires
        spec_declare(v, kind, scope, name, track) is Some,
    ensures
        kinds_preserved(v, spec_declare(v, kind, scope, name, track).unwrap().0),
{
    let (sv, rr) = spec_declare(v, kind, scope, name, track).unwrap();
    let li = innermost_index(v.layers, scope).unwrap();
    lemma_innermost_index(v.layers, scope);
    let names = counter_or_empty(v.layers[li], kind);
    if spec_find_name(names, name) is Some {
    } else {
        let v1 = spec_declare_mid(v, kind, scope, name);
        assert(kinds_preserved(v, v1)) by {
            assert(counter_pushed(v.layers[li], kind, name).kind == v.layers[li].kind);
        }
        let ki = innermost_index(v1.layers, kind).unwrap();
        lemma_innermost_index(v1.layers, kind);
        match v1.layers[ki].current {
            Some(c) => {},
            None => {
                let rec = CurrentIdView { id: names.len() as usize, parent: scope, string: name };
                let v2 = CtxView {
                    layers: v1.layers.update(ki, with_current(v1.layers[ki], rec)),
                    ..v1
                };
                assert(kinds_preserved(v1, v2)) by {
                    assert(with_current(v1.layers[ki], rec).kind == v1.layers[ki].kind);
                }
                assert(kinds_preserved(v, v2));
                if track {
                    assert(sv.layers == v2.layers);
                }
            },
        }
    }
}

/// A resolution never pushes or pops layers: the stack keeps its shape.
pub proof fn lemma_resolve_kinds(
    v: CtxView,
    kind: u64,
    scope: u64,
    name: Seq<char>,
    import: Seq<u64>,
)
    requires
        spec_resolve(v, kind, scope, name, import) is Some,
    ensures
        kinds_preserved(v, spec_resolve(v, kind, scope, name, import).unwrap().0),
{
    let (sv, rr) = spec_resolve(v, kind, scope, name, import).unwrap();
    if rr is Ok {
        let target_kind = v.layers[v.layers.len() - 2].kind;
        let ti = innermost_index(v.layers, target_kind).unwrap();
        lemma_innermost_index(v.layers, target_kind);
        lemma_imports_upserted_fields(v.layers[ti], import, (rr->Ok_0) as usize);
    }
    assert(sv.layers.len() == v.layers.len());
    assert(forall|i: int| 0 <= i < v.layers.len() ==> sv.layers[i].kind == (#[trigger] v.layers[
        i
    ]).kind);
}

/// Whether two executable results agree with two spec-level ones.
pub open spec fn result_matches(r: Result<Id, Error>, rr: Result<int, ErrorView>) -> bool {
    match (r, rr) {
        (Ok(id), Ok(i)) => id@ == i,
        (Err(e), Err(ev)) => e@ == ev,
        _ => false,
    }
}

/// `v`, with the elements in reverse order.
fn reversed(v: &Vec<usize>) -> (r: Vec<usize>)
    ensures
        r@ == v@.reverse(),
{
    let mut r: Vec<usize> = Vec::new();
    let mut i: usize = v.len();
    while i > 0
        invariant
            i <= v@.len(),
            r@.len() == v@.len() - i,
            forall|k: int| 0 <= k < r@.len() ==> r@[k] == v@[v@.len() - 1 - k],
        decreases i,
    {
        i = i - 1;
        r.push(v[i]);
    }
    proof {
        assert(r@ =~= v@.reverse());
    }
    r
}

impl DefaultContext {
    /// Resolves `name` through the import tables: finds the innermost import
    /// entry for `kind` and searches the persistent registry entry it names.
    fn import_search(&self, kind: u64, name: &String) -> (r: Result<usize, Error>)
        requires
            self.wf(),
        ensures
            match (r, import_lookup(self@, kind, name@)) {
                (Ok(i), Ok(si)) => i as int == si,
                (Err(e), Err(se)) => e@ == se,
                _ => false,
            },
    {
        match self.find_import(kind) {
            None => Err(Error::NoActiveOrImportedScope { kind }),
            Some(path_ref) => {
                let store = match self.global_store(kind) {
                    None => {
                        return Err(Error::UntrackedScope { kind });
                    },
                    Some(store) => store,
                };
                let names = match store.get(path_ref) {
                    None => {
                        return Err(Error::UntrackedScope { kind });
                    },
                    Some(names) => names,
                };
                match find_name(names, name) {
                    Some(i) => Ok(i),
                    None => Err(Error::UnknownIdentifier { name: name.clone() }),
                }
            },
        }
    }

    /// Resolves an existing `name` of `kind` to its identifier handle, as
    /// [`spec_resolve`] describes, and records the requested scope imports in
    /// the enclosing object's layer.
    pub fn resolve(&mut self, kind: u64, scope: u64, name: &String, import: &Vec<u64>) -> (r:
        Result<Id, Error>)
        requires
            old(self).wf(),
            spec_resolve(old(self)@, kind, scope, name@, import@) is Some,
            (spec_resolve(old(self)@, kind, scope, name@, import@) matches Some((v1, Ok(i)))
                ==> i <= u32::MAX as int),
        ensures
            final(self).wf(),
            spec_resolve(old(self)@, kind, scope, name@, import@) matches Some((v1, rr))
                && final(self)@ == v1 && result_matches(r, rr),
    {
        let mut index: usize = 0;
        let mut found: bool = false;
        match self.find_layer(scope) {
            Some(li) => {
                proof {
                    lemma_innermost_index(self@.layers, scope);
                    lemma_layers_view(self);
                }
                match self.counter_index(li, kind) {
                    Some(j) => {
                        match find_name(&self.layers[li].counters[j].names, name) {
                            Some(i) => {
                                index = i;
                                found = true;
                            },
                            None => {
                                return Err(Error::UnknownIdentifier { name: name.clone() });
                            },
                        }
                    },
                    None => {},
                }
            },
            None => {},
        }
        if !found {
            match self.import_search(kind, name) {
                Ok(i) => {
                    index = i;
                },
                Err(e) => {
                    return Err(e);
                },
            }
        }

        // Record the requested imports in the layer of the enclosing object,
        // one level below the current top of the stack.
        let target_kind = match self.nth_last_scope(1) {
            Some(k) => k,
            None => {
                proof {
                    assert(false);
                }
                0
            },
        };
        proof {
            lemma_innermost_index(self@.layers, target_kind);
            lemma_layers_view(self);
        }
        let ti = match self.find_layer(target_kind) {
            Some(t) => t,
            None => {
                proof {
                    assert(false);
                }
                0
            },
        };
        let ghost v0 = self@;
        let ghost l0 = self@.layers[ti as int];
        proof {
            assert(v0.layers.update(ti as int, l0) =~= v0.layers);
            assert(imports_upserted(l0, import@.take(0), index) == l0);
        }
        let mut q: usize = 0;
        while q < import.len()
            invariant
                self.wf(),
                q <= import@.len(),
                ti < self@.layers.len(),
                self@.layers.len() == v0.layers.len(),
                l0 == v0.layers[ti as int],
                self@.layers == v0.layers.update(
                    ti as int,
                    imports_upserted(l0, import@.take(q as int), index),
                ),
                self@.globals == v0.globals,
            decreases import@.len() - q,
        {
            self.upsert_import(ti, import[q], index);
            proof {
                assert(import@.take(q + 1).drop_last() =~= import@.take(q as int));
                assert(import@.take(q + 1).last() == import@[q as int]);
                assert(v0.layers.update(
                    ti as int,
                    imports_upserted(l0, import@.take(q as int), index),
                ).update(ti as int, imports_upserted(l0, import@.take(q + 1), index))
                    =~= v0.layers.update(ti as int, imports_upserted(l0, import@.take(q + 1), index)));
            }
            q = q + 1;
        }
        proof {
            assert(import@.take(import@.len() as int) =~= import@);
        }
        Ok(Id::new(index))
    }

    /// Declares the new `name` of `kind` in the innermost layer of `scope`,
    /// as [`spec_declare`] describes: the handle wraps the next sequential
    /// index of the counter, a duplicate name or a second declaration on the
    /// same object fails, and with `track` the name is persisted under the
    /// declaration's ancestor-index path.
    pub fn declare(&mut self, kind: u64, scope: u64, name: String, track: bool) -> (r: Result<
        Id,
        Error,
    >)
        requires
            old(self).wf(),
            spec_declare(old(self)@, kind, scope, name@, track) is Some,
            (innermost_index(old(self)@.layers, scope) matches Some(li) ==> counter_or_empty(
                old(self)@.layers[li],
                kind,
            ).len() <= u32::MAX),
        ensures
            final(self).wf(),
            spec_declare(old(self)@, kind, scope, name@, track) matches Some((v2, rr))
                && final(self)@ == v2 && result_matches(r, rr),
    {
        let li = match self.find_layer(scope) {
            Some(li) => li,
            None => {
                proof {
                    assert(false);
                }
                0
            },
        };
        proof {
            lemma_innermost_index(self@.layers, scope);
            lemma_layers_view(self);
        }
        let mut index: usize = 0;
        match self.counter_index(li, kind) {
            Some(j) => {
                let names = &self.layers[li].counters[j].names;
                match find_name(names, &name) {
                    Some(_) => {
                        return Err(Error::DuplicateIdentifier { name });
                    },
                    None => {},
                }
                index = names.len();
                proof {
                    assert(index as int == counter_or_empty(
                        old(self)@.layers[li as int],
                        kind,
                    ).len());
                }
            },
            None => {
                proof {
                    lemma_find_name(Seq::<Seq<char>>::empty(), name@);
                }
            },
        }
        let ghost names0 = counter_or_empty(old(self)@.layers[li as int], kind);
        self.push_counter_name(li, kind, name.clone());
        let ghost v1 = self@;
        proof {
            assert(v1 == spec_declare_mid(old(self)@, kind, scope, name@));
        }

        match self.current_record(kind) {
            Some(c) => {
                let existing = c.id();
                proof {
                    assert(index == names0.len() as usize);
                }
                return Err(Error::MultipleDeclarations {
                    kind,
                    new_index: index,
                    existing_index: existing,
                });
            },
            None => {},
        }
        let ki = match self.find_layer(kind) {
            Some(ki) => ki,
            None => {
                proof {
                    assert(false);
                }
                0
            },
        };
        proof {
            lemma_innermost_index(self@.layers, kind);
            lemma_layers_view(self);
        }
        self.set_current(ki, index, scope, name.clone());
        let ghost v2 = self@;
        proof {
            assert(index == names0.len() as usize);
            let v = old(self)@;
            let sli = innermost_index(v.layers, scope).unwrap();
            assert(sli == li as int);
            assert(spec_find_name(names0, name@) is None);
            assert(v1 == spec_declare_mid(v, kind, scope, name@));
            let ski = innermost_index(v1.layers, kind).unwrap();
            assert(ski == ki as int);
            assert(v1.layers[ski].current is None);
            let rec = CurrentIdView { id: names0.len() as usize, parent: scope, string: name@ };
            assert(v2.layers == v1.layers.update(ski, with_current(v1.layers[ski], rec)));
            assert(v2.globals == v1.globals);
            assert(v2 == (CtxView {
                layers: v1.layers.update(ski, with_current(v1.layers[ski], rec)),
                ..v1
            }));
        }

        if track {
            let ghost full_fuel = v2.layers.len() as nat;
            let ghost full = ancestor_path(v2, scope, full_fuel).unwrap();
            let mut collected: Vec<usize> = Vec::new();
            let mut next: u64 = scope;
            let ghost mut fuel = full_fuel;
            proof {
                assert(ancestor_path(v2, scope, full_fuel) is Some);
                assert(full =~= ancestor_path(v2, next, fuel).unwrap() + collected@.reverse());
            }
            loop
                invariant
                    self.wf(),
                    self@ == v2,
                    ancestor_path(v2, next, fuel) is Some,
                    full == ancestor_path(v2, next, fuel).unwrap() + collected@.reverse(),
                ensures
                    self.wf(),
                    self@ == v2,
                    full == collected@.reverse(),
                decreases fuel,
            {
                match self.current_record(next) {
                    Some(c) => {
                        let ghost rest = ancestor_path(v2, next, fuel).unwrap();
                        collected.push(c.id());
                        next = c.parent();
                        proof {
                            assert(fuel > 0);
                            fuel = (fuel - 1) as nat;
                            assert(collected@.reverse() =~= seq![collected@.last()]
                                + collected@.drop_last().reverse());
                            assert(rest + collected@.drop_last().reverse() =~= (rest.drop_last()
                                + collected@.reverse()));
                            assert(full =~= ancestor_path(v2, next, fuel).unwrap()
                                + collected@.reverse());
                        }
                    },
                    None => {
                        proof {
                            assert(ancestor_path(v2, next, fuel) == Some(Seq::<usize>::empty()));
                            assert(full =~= collected@.reverse());
                        }
                        break;
                    },
                }
            }
            let path = reversed(&collected);
            self.push_global_name(kind, path, name);
        }
        Ok(Id::new(index))
    }
}

} // verus!
