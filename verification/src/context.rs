//! The scope stack: an ordered stack of layers, one per currently-active
//! conversion of a structured value, with per-layer slot stores and the
//! global persistent registry.

use vstd::prelude::*;

use crate::alist::{alist_map, lemma_alist_at, lemma_alist_contains, lemma_alist_push,
    lemma_alist_update, unique_keys};

verus! {

/// The kind key of the implicit bottom layer: the root scope, which never
/// pops.  Identifiers whose namespace is global use this key as their scope.
pub const ROOT_KIND: u64 = 0;

/// The character sequences of a list of identifier names.
pub open spec fn names_view(s: Seq<String>) -> Seq<Seq<char>> {
    s.map_values(|x: String| x@)
}

/// The most recent declaration of a given kind within the scope of the object
/// that owns it; used to walk ancestor chains when persisting a declaration.
pub struct CurrentId {
    pub(crate) id: usize,
    pub(crate) parent: u64,
    pub(crate) string: String,
}

/// The spec-level value of a [`CurrentId`].
#[verifier::ext_equal]
pub struct CurrentIdView {
    pub id: usize,
    pub parent: u64,
    pub string: Seq<char>,
}

impl View for CurrentId {
    type V = CurrentIdView;

    closed spec fn view(&self) -> CurrentIdView {
        CurrentIdView { id: self.id, parent: self.parent, string: self.string@ }
    }
}

impl CurrentId {
    /// The index of the current identifier.
    pub fn id(&self) -> (r: usize)
        ensures
            r == self@.id,
    {
        self.id
    }

    /// The kind key of the parent scope of the current identifier.
    pub fn parent(&self) -> (r: u64)
        ensures
            r == self@.parent,
    {
        self.parent
    }

    /// The original string form of the current identifier.
    pub fn string(&self) -> (r: &String)
        ensures
            r@ == self@.string,
    {
        &self.string
    }
}

/// The ordered list of distinct names declared so far for one kind within one
/// scope; the index of a name is its position.
pub(crate) struct IdCounter {
    pub(crate) kind: u64,
    pub(crate) names: Vec<String>,
}

/// An import-table entry: makes the persistent registry entry of `kind` at
/// `path` reachable while the owning layer is active.
pub(crate) struct ImportEntry {
    pub(crate) kind: u64,
    pub(crate) path: Vec<usize>,
}

/// One persistent registry entry: the names declared under one exact ancestor
/// path.
pub(crate) struct GlobalEntry {
    pub(crate) path: Vec<usize>,
    pub(crate) names: Vec<String>,
}

/// The persisted name lists for one kind, keyed by the ancestor-index path
/// from the kind's namespace root down to its immediate parent.
///
/// Entries survive the popping of the scopes that produced them; they are
/// only written by declarations that opt into persistence.
pub struct GlobalIdStore {
    pub(crate) ids: Vec<GlobalEntry>,
}

pub(crate) open spec fn counters_pairs(s: Seq<IdCounter>) -> Seq<(u64, Seq<Seq<char>>)> {
    s.map_values(|c: IdCounter| (c.kind, names_view(c.names@)))
}

pub(crate) open spec fn imports_pairs(s: Seq<ImportEntry>) -> Seq<(u64, Seq<usize>)> {
    s.map_values(|e: ImportEntry| (e.kind, e.path@))
}

pub(crate) open spec fn entries_pairs(s: Seq<GlobalEntry>) -> Seq<(Seq<usize>, Seq<Seq<char>>)> {
    s.map_values(|e: GlobalEntry| (e.path@, names_view(e.names@)))
}

impl View for GlobalIdStore {
    type V = Map<Seq<usize>, Seq<Seq<char>>>;

    closed spec fn view(&self) -> Map<Seq<usize>, Seq<Seq<char>>> {
        alist_map(entries_pairs(self.ids@))
    }
}

impl GlobalIdStore {
    pub closed spec fn wf(&self) -> bool {
        unique_keys(entries_pairs(self.ids@))
    }
}

/// One layer of the scope stack, tagged with the kind key of the value whose
/// conversion created it, together with its slot store.
pub(crate) struct Layer {
    pub(crate) kind: u64,
    pub(crate) counters: Vec<IdCounter>,
    pub(crate) current: Option<CurrentId>,
    pub(crate) imports: Vec<ImportEntry>,
}

/// The spec-level value of one layer of the scope stack.
#[verifier::ext_equal]
pub struct LayerView {
    /// The kind key of the value whose conversion created the layer.
    pub kind: u64,
    /// The declaration counters owned by the layer, keyed by declared kind.
    pub counters: Map<u64, Seq<Seq<char>>>,
    /// The current-declaration record of the layer, if any.
    pub current: Option<CurrentIdView>,
    /// The import table of the layer: target kind to ancestor-index path.
    pub imports: Map<u64, Seq<usize>>,
}

impl View for Layer {
    type V = LayerView;

    closed spec fn view(&self) -> LayerView {
        LayerView {
            kind: self.kind,
            counters: alist_map(counters_pairs(self.counters@)),
            current: match self.current {
                Some(c) => Some(c@),
                None => None,
            },
            imports: alist_map(imports_pairs(self.imports@)),
        }
    }
}

impl Layer {
    pub(crate) open spec fn wf(&self) -> bool {
        &&& unique_keys(counters_pairs(self.counters@))
        &&& unique_keys(imports_pairs(self.imports@))
    }
}

pub(crate) struct KindStore {
    pub(crate) kind: u64,
    pub(crate) store: GlobalIdStore,
}

pub(crate) open spec fn globals_pairs(s: Seq<KindStore>) -> Seq<
    (u64, Map<Seq<usize>, Seq<Seq<char>>>),
> {
    s.map_values(|k: KindStore| (k.kind, k.store@))
}

/// The spec-level value of the whole conversion context: the stack of layers,
/// innermost last, and the persistent registry.
#[verifier::ext_equal]
pub struct CtxView {
    /// The scope stack; the first layer is the root scope, the last is the
    /// current scope.
    pub layers: Seq<LayerView>,
    /// The global persistent registry: kind key to path-keyed name lists.
    pub globals: Map<u64, Map<Seq<usize>, Seq<Seq<char>>>>,
}

/// A layer with an empty slot store, as pushed when a conversion starts.
pub open spec fn empty_layer(kind: u64) -> LayerView {
    LayerView { kind, counters: Map::empty(), current: None, imports: Map::empty() }
}

/// The view of a freshly created context: one root layer, nothing persisted.
pub open spec fn empty_context() -> CtxView {
    CtxView { layers: seq![empty_layer(ROOT_KIND)], globals: Map::empty() }
}

/// `v` with a fresh layer of kind `kind` pushed.
pub open spec fn push_layer(v: CtxView, kind: u64) -> CtxView {
    CtxView { layers: v.layers.push(empty_layer(kind)), globals: v.globals }
}

/// `v` with the innermost layer popped.
pub open spec fn pop_layer(v: CtxView) -> CtxView {
    CtxView { layers: v.layers.drop_last(), globals: v.globals }
}

/// The index of the innermost layer whose kind is `kind`.
pub open spec fn innermost_index(layers: Seq<LayerView>, kind: u64) -> Option<int>
    decreases layers.len(),
{
    if layers.len() == 0 {
        None
    } else if layers.last().kind == kind {
        Some(layers.len() - 1)
    } else {
        innermost_index(layers.drop_last(), kind)
    }
}

/// What [`innermost_index`] returns: the innermost matching layer, or nothing
/// when no layer matches.
pub proof fn lemma_innermost_index(layers: Seq<LayerView>, kind: u64)
    ensures
        match innermost_index(layers, kind) {
            Some(i) => 0 <= i < layers.len() && layers[i].kind == kind && (forall|j: int|
                i < j < layers.len() ==> layers[j].kind != kind),
            None => forall|j: int| 0 <= j < layers.len() ==> layers[j].kind != kind,
        },
    decreases layers.len(),
{
    if layers.len() > 0 && layers.last().kind != kind {
        lemma_innermost_index(layers.drop_last(), kind);
        let prefix = layers.drop_last();
        assert(forall|j: int| 0 <= j < prefix.len() ==> prefix[j] == layers[j]);
        match innermost_index(prefix, kind) {
            Some(i) => {
                assert(forall|j: int| i < j < layers.len() ==> layers[j].kind != kind) by {
                    assert(forall|j: int| i < j < prefix.len() ==> prefix[j].kind != kind);
                }
            },
            None => {
                assert(forall|j: int| 0 <= j < layers.len() ==> layers[j].kind != kind) by {
                    assert(forall|j: int| 0 <= j < prefix.len() ==> prefix[j].kind != kind);
                }
            },
        }
    }
}

/// The kinds of the layers of `v`, outermost first.
pub open spec fn layer_kinds(v: CtxView) -> Seq<u64> {
    v.layers.map_values(|l: LayerView| l.kind)
}

/// The current-declaration record for `kind`: the record slot of the
/// innermost layer whose kind is `kind`.
pub open spec fn current_of(v: CtxView, kind: u64) -> Option<CurrentIdView> {
    match innermost_index(v.layers, kind) {
        Some(i) => v.layers[i].current,
        None => None,
    }
}

/// The name list of the declaration counter for `kind`, owned by the
/// innermost layer whose kind is `scope`; nothing when that layer does not
/// exist or holds no counter for `kind`.
pub open spec fn active_counter(v: CtxView, kind: u64, scope: u64) -> Option<Seq<Seq<char>>> {
    match innermost_index(v.layers, scope) {
        Some(i) => if v.layers[i].counters.contains_key(kind) {
            Some(v.layers[i].counters[kind])
        } else {
            None
        },
        None => None,
    }
}

/// The ancestor-index path recorded by the innermost import-table entry for
/// `kind`, scanning layers from innermost to outermost.
pub open spec fn first_import(layers: Seq<LayerView>, kind: u64) -> Option<Seq<usize>>
    decreases layers.len(),
{
    if layers.len() == 0 {
        None
    } else if layers.last().imports.contains_key(kind) {
        Some(layers.last().imports[kind])
    } else {
        first_import(layers.drop_last(), kind)
    }
}

/// The persisted name list for `kind` at `path`, if any.
pub open spec fn global_entry(v: CtxView, kind: u64, path: Seq<usize>) -> Option<Seq<Seq<char>>> {
    if v.globals.contains_key(kind) && v.globals[kind].contains_key(path) {
        Some(v.globals[kind][path])
    } else {
        None
    }
}

/// Whether `v2` keeps every layer of `v` in place, with the same kind, while
/// possibly having grown inner layers beyond them.
pub open spec fn kinds_extended(v: CtxView, v2: CtxView) -> bool {
    &&& v2.layers.len() >= v.layers.len()
    &&& forall|i: int| 0 <= i < v.layers.len() ==> v2.layers[i].kind == (#[trigger] v.layers[i]).kind
}

/// Whether `v2` has exactly the layers of `v`, each with the same kind; the
/// slot contents may differ.
pub open spec fn kinds_preserved(v: CtxView, v2: CtxView) -> bool {
    &&& v2.layers.len() == v.layers.len()
    &&& forall|i: int| 0 <= i < v.layers.len() ==> v2.layers[i].kind == (#[trigger] v.layers[i]).kind
}

/// The counter name list for `kind` in layer `l`, or the empty list if the
/// layer holds no counter for `kind`.
pub open spec fn counter_or_empty(l: LayerView, kind: u64) -> Seq<Seq<char>> {
    if l.counters.contains_key(kind) {
        l.counters[kind]
    } else {
        Seq::empty()
    }
}

/// `l` with `name` appended to its counter for `kind`, the counter being
/// created empty first when absent.
pub open spec fn counter_pushed(l: LayerView, kind: u64, name: Seq<char>) -> LayerView {
    LayerView { counters: l.counters.insert(kind, counter_or_empty(l, kind).push(name)), ..l }
}

/// `l` with its current-declaration record set to `c`.
pub open spec fn with_current(l: LayerView, c: CurrentIdView) -> LayerView {
    LayerView { current: Some(c), ..l }
}

/// `l` with its import table sending `kind` to the single-element path
/// `[index]`.
pub open spec fn import_set(l: LayerView, kind: u64, index: usize) -> LayerView {
    LayerView { imports: l.imports.insert(kind, seq![index]), ..l }
}

/// The registry `g` with `name` appended to the entry for `kind` at `path`,
/// the store and the entry being created empty first when absent.
pub open spec fn global_pushed(
    g: Map<u64, Map<Seq<usize>, Seq<Seq<char>>>>,
    kind: u64,
    path: Seq<usize>,
    name: Seq<char>,
) -> Map<u64, Map<Seq<usize>, Seq<Seq<char>>>> {
    let store = if g.contains_key(kind) {
        g[kind]
    } else {
        Map::empty()
    };
    let entry = if store.contains_key(path) {
        store[path]
    } else {
        Seq::empty()
    };
    g.insert(kind, store.insert(path, entry.push(name)))
}

/// Identifies one layer of the scope stack, as returned by
/// [`DefaultContext::start_scope`]; handing it back to
/// [`DefaultContext::end_scope`] proves that pushes and pops pair up in LIFO
/// order.
pub struct Scope {
    kind: u64,
    index: usize,
}

impl Scope {
    /// The kind key the layer was pushed with.
    pub closed spec fn spec_kind(&self) -> u64 {
        self.kind
    }

    /// The stack depth at which the layer was pushed.
    pub closed spec fn spec_index(&self) -> usize {
        self.index
    }
}

/// The scope-stack context threaded through a whole conversion run.
///
/// The stack grows by one layer for every structured value whose conversion
/// begins and shrinks when it ends; the bottom layer is the root scope and
/// never pops.  The context is exclusively owned by one conversion run.
pub struct DefaultContext {
    pub(crate) layers: Vec<Layer>,
    pub(crate) globals: Vec<KindStore>,
}

impl View for DefaultContext {
    type V = CtxView;

    closed spec fn view(&self) -> CtxView {
        CtxView {
            layers: self.layers@.map_values(|l: Layer| l@),
            globals: alist_map(globals_pairs(self.globals@)),
        }
    }
}

impl DefaultContext {
    /// The representation invariant: at least the root layer is present, and
    /// every slot store and registry store keeps one entry per key.
    pub closed spec fn wf(&self) -> bool {
        &&& self.layers@.len() >= 1
        &&& self.layers@[0].kind == ROOT_KIND
        &&& forall|i: int| 0 <= i < self.layers@.len() ==> (#[trigger] self.layers@[i]).wf()
        &&& unique_keys(globals_pairs(self.globals@))
        &&& forall|i: int| 0 <= i < self.globals@.len() ==> (#[trigger] self.globals@[i]).store.wf()
    }

    /// A fresh context: only the root layer, with an empty slot store.
    pub fn new() -> (r: Self)
        ensures
            r.wf(),
            r@ == empty_context(),
    {
        let layers = vec![
            Layer { kind: ROOT_KIND, counters: Vec::new(), current: None, imports: Vec::new() },
        ];
        let r = DefaultContext { layers, globals: Vec::new() };
        proof {
            assert(r@.layers =~= seq![empty_layer(ROOT_KIND)]) by {
                assert(r@.layers[0] =~= empty_layer(ROOT_KIND));
            }
            assert(r@ =~= empty_context());
        }
        r
    }

    /// Pushes a fresh layer tagged `kind` onto the scope stack.
    pub fn start_scope(&mut self, kind: u64) -> (s: Scope)
        requires
            old(self).wf(),
        ensures
            final(self).wf(),
            final(self)@ == push_layer(old(self)@, kind),
            s.spec_kind() == kind,
            s.spec_index() == old(self)@.layers.len(),
    {
        let s = Scope { kind, index: self.layers.len() };
        self.layers.push(
            Layer { kind, counters: Vec::new(), current: None, imports: Vec::new() },
        );
        proof {
            assert(self@.layers =~= old(self)@.layers.push(empty_layer(kind))) by {
                assert(self@.layers[self@.layers.len() - 1] =~= empty_layer(kind));
                assert(forall|i: int|
                    0 <= i < old(self)@.layers.len() ==> self@.layers[i] == old(self)@.layers[i]);
            }
            assert(self@ =~= push_layer(old(self)@, kind));
        }
        s
    }

    /// Pops the innermost layer, which must be the one that `scope` was
    /// returned for: pops happen in exact reverse order of pushes, and a
    /// mismatch is a programming error rather than a recoverable condition.
    /// The root layer never pops.
    pub fn end_scope(&mut self, scope: Scope)
        requires
            old(self).wf(),
            old(self)@.layers.len() >= 2,
            scope.spec_index() + 1 == old(self)@.layers.len(),
            scope.spec_kind() == old(self)@.layers.last().kind,
        ensures
            final(self).wf(),
            final(self)@ == pop_layer(old(self)@),
    {
        let _ = scope;
        let _ = self.layers.pop();
        proof {
            assert(self@.layers =~= old(self)@.layers.drop_last());
            assert(self@ =~= pop_layer(old(self)@));
        }
    }

    /// The kind key of the `n`th layer from the top of the stack (0 being the
    /// current scope), or nothing when `n` reaches below the root layer.
    pub fn nth_last_scope(&self, n: usize) -> (r: Option<u64>)
        ensures
            r == nth_last_kind(self@, n),
    {
        if n < self.layers.len() {
            Some(self.layers[self.layers.len() - 1 - n].kind)
        } else {
            None
        }
    }
}

/// The kind key of the `n`th innermost layer of `v`, if the stack is that
/// deep.
pub open spec fn nth_last_kind(v: CtxView, n: usize) -> Option<u64> {
    if n < v.layers.len() {
        Some(v.layers[v.layers.len() - 1 - n].kind)
    } else {
        None
    }
}

/// A well-formed context always holds at least the root layer.
pub proof fn lemma_wf_depth(c: &DefaultContext)
    requires
        c.wf(),
    ensures
        c@.layers.len() >= 1,
        c@.layers[0].kind == ROOT_KIND,
{
}

/// How the view of a context relates to its representation: layers correspond
/// one to one.
pub(crate) proof fn lemma_layers_view(c: &DefaultContext)
    ensures
        c@.layers.len() == c.layers@.len(),
        forall|i: int| 0 <= i < c.layers@.len() ==> c@.layers[i] == (#[trigger] c.layers@[i])@,
{
}

impl DefaultContext {
    /// The index of the innermost layer tagged `kind`, if one is active.
    pub(crate) fn find_layer(&self, kind: u64) -> (r: Option<usize>)
        ensures
            match r {
                Some(i) => innermost_index(self@.layers, kind) == Some(i as int),
                None => innermost_index(self@.layers, kind) is None,
            },
    {
        proof {
            assert(self@.layers.take(self.layers@.len() as int) =~= self@.layers);
        }
        let mut i = self.layers.len();
        while i > 0
            invariant
                i <= self.layers@.len(),
                innermost_index(self@.layers.take(i as int), kind) == innermost_index(
                    self@.layers,
                    kind,
                ),
            decreases i,
        {
            i = i - 1;
            proof {
                assert(self@.layers.take(i + 1).drop_last() =~= self@.layers.take(i as int));
                assert(self@.layers.take(i + 1).last() == self@.layers[i as int]);
            }
            if self.layers[i].kind == kind {
                return Some(i);
            }
        }
        proof {
            assert(self@.layers.take(0) =~= Seq::<LayerView>::empty());
        }
        None
    }

    /// The position of the counter for `kind` in the slot store of layer
    /// `li`, together with what that means for the layer's view.
    pub(crate) fn counter_index(&self, li: usize, kind: u64) -> (r: Option<usize>)
        requires
            self.wf(),
            li < self@.layers.len(),
        ensures
            match r {
                Some(j) => {
                    &&& j < self.layers@[li as int].counters@.len()
                    &&& self.layers@[li as int].counters@[j as int].kind == kind
                    &&& self@.layers[li as int].counters.contains_key(kind)
                    &&& self@.layers[li as int].counters[kind] == names_view(
                        self.layers@[li as int].counters@[j as int].names@,
                    )
                },
                None => !self@.layers[li as int].counters.contains_key(kind),
            },
    {
        let cs = &self.layers[li].counters;
        let ghost pairs = counters_pairs(cs@);
        let mut j: usize = 0;
        while j < cs.len()
            invariant
                self.wf(),
                li < self@.layers.len(),
                j <= cs@.len(),
                cs == self.layers@[li as int].counters,
                pairs == counters_pairs(cs@),
                forall|x: int| 0 <= x < j ==> cs@[x].kind != kind,
            decreases cs@.len() - j,
        {
            if cs[j].kind == kind {
                proof {
                    assert(self@.layers[li as int] == self.layers@[li as int]@);
                    assert(self.layers@[li as int].wf());
                    assert(unique_keys(pairs));
                    assert(pairs[j as int] == (kind, names_view(cs@[j as int].names@)));
                    lemma_alist_at(pairs, j as int);
                }
                return Some(j);
            }
            j = j + 1;
        }
        proof {
            assert(self@.layers[li as int] == self.layers@[li as int]@);
            lemma_alist_contains(pairs, kind);
        }
        None
    }

    /// The position of the import-table entry for `kind` in layer `li`,
    /// together with what that means for the layer's view.
    pub(crate) fn import_index(&self, li: usize, kind: u64) -> (r: Option<usize>)
        requires
            self.wf(),
            li < self@.layers.len(),
        ensures
            match r {
                Some(j) => {
                    &&& j < self.layers@[li as int].imports@.len()
                    &&& self.layers@[li as int].imports@[j as int].kind == kind
                    &&& self@.layers[li as int].imports.contains_key(kind)
                    &&& self@.layers[li as int].imports[kind] == self.layers@[li as int].imports@[
                        j as int
                    ].path@
                },
                None => !self@.layers[li as int].imports.contains_key(kind),
            },
    {
        let es = &self.layers[li].imports;
        let ghost pairs = imports_pairs(es@);
        let mut j: usize = 0;
        while j < es.len()
            invariant
                self.wf(),
                li < self@.layers.len(),
                j <= es@.len(),
                es == self.layers@[li as int].imports,
                pairs == imports_pairs(es@),
                forall|x: int| 0 <= x < j ==> es@[x].kind != kind,
            decreases es@.len() - j,
        {
            if es[j].kind == kind {
                proof {
                    lemma_alist_at(pairs, j as int);
                }
                return Some(j);
            }
            j = j + 1;
        }
        proof {
            lemma_alist_contains(pairs, kind);
        }
        None
    }

    /// The current-declaration record for `kind`: the record of the innermost
    /// layer tagged `kind`, if that layer holds one.
    pub fn current_record(&self, kind: u64) -> (r: Option<&CurrentId>)
        ensures
            match r {
                Some(c) => current_of(self@, kind) == Some(c@),
                None => current_of(self@, kind) is None,
            },
    {
        match self.find_layer(kind) {
            Some(i) => {
                proof {
                    lemma_innermost_index(self@.layers, kind);
                    assert(self@.layers[i as int] == self.layers@[i as int]@);
                }
                match &self.layers[i].current {
                    Some(c) => Some(c),
                    None => None,
                }
            },
            None => None,
        }
    }

    /// The ancestor-index path of the innermost import-table entry for
    /// `kind`, scanning layers from innermost to outermost.
    pub(crate) fn find_import(&self, kind: u64) -> (r: Option<&Vec<usize>>)
        requires
            self.wf(),
        ensures
            match r {
                Some(p) => first_import(self@.layers, kind) == Some(p@),
                None => first_import(self@.layers, kind) is None,
            },
    {
        proof {
            assert(self@.layers.take(self.layers@.len() as int) =~= self@.layers);
        }
        let mut i = self.layers.len();
        while i > 0
            invariant
                self.wf(),
                i <= self.layers@.len(),
                first_import(self@.layers.take(i as int), kind) == first_import(
                    self@.layers,
                    kind,
                ),
            decreases i,
        {
            i = i - 1;
            proof {
                assert(self@.layers.take(i + 1).drop_last() =~= self@.layers.take(i as int));
                assert(self@.layers.take(i + 1).last() == self@.layers[i as int]);
            }
            match self.import_index(i, kind) {
                Some(j) => {
                    return Some(&self.layers[i].imports[j].path);
                },
                None => {},
            }
        }
        proof {
            assert(self@.layers.take(0) =~= Seq::<LayerView>::empty());
        }
        None
    }

    /// The position of the persistent store for `kind`, together with what
    /// that means for the registry's view.
    pub(crate) fn global_index(&self, kind: u64) -> (r: Option<usize>)
        requires
            self.wf(),
        ensures
            match r {
                Some(j) => {
                    &&& j < self.globals@.len()
                    &&& self.globals@[j as int].kind == kind
                    &&& self@.globals.contains_key(kind)
                    &&& self@.globals[kind] == self.globals@[j as int].store@
                },
                None => !self@.globals.contains_key(kind),
            },
    {
        let ghost pairs = globals_pairs(self.globals@);
        let mut j: usize = 0;
        while j < self.globals.len()
            invariant
                self.wf(),
                j <= self.globals@.len(),
                pairs == globals_pairs(self.globals@),
                forall|x: int| 0 <= x < j ==> self.globals@[x].kind != kind,
            decreases self.globals@.len() - j,
        {
            if self.globals[j].kind == kind {
                proof {
                    lemma_alist_at(pairs, j as int);
                }
                return Some(j);
            }
            j = j + 1;
        }
        proof {
            lemma_alist_contains(pairs, kind);
        }
        None
    }

    /// The persistent registry store for `kind`, if any declaration of that
    /// kind was ever persisted.
    pub fn global_store(&self, kind: u64) -> (r: Option<&GlobalIdStore>)
        requires
            self.wf(),
        ensures
            match r {
                Some(st) => {
                    &&& st.wf()
                    &&& self@.globals.contains_key(kind)
                    &&& st@ == self@.globals[kind]
                },
                None => !self@.globals.contains_key(kind),
            },
    {
        match self.global_index(kind) {
            Some(j) => Some(&self.globals[j].store),
            None => None,
        }
    }
}

/// Whether two ancestor-index paths are equal.
pub(crate) fn eq_paths(a: &Vec<usize>, b: &Vec<usize>) -> (r: bool)
    ensures
        r <==> a@ == b@,
{
    if a.len() != b.len() {
        return false;
    }
    let mut i: usize = 0;
    while i < a.len()
        invariant
            i <= a@.len(),
            a@.len() == b@.len(),
            forall|j: int| 0 <= j < i ==> a@[j] == b@[j],
        decreases a@.len() - i,
    {
        if a[i] != b[i] {
            return false;
        }
        i = i + 1;
    }
    proof {
        assert(a@ =~= b@);
    }
    true
}

impl GlobalIdStore {
    /// The position of the entry recorded at `path`, together with what that
    /// means for the store's view.
    pub(crate) fn entry_index(&self, path: &Vec<usize>) -> (r: Option<usize>)
        requires
            self.wf(),
        ensures
            match r {
                Some(j) => {
                    &&& j < self.ids@.len()
                    &&& self.ids@[j as int].path@ == path@
                    &&& self@.contains_key(path@)
                    &&& self@[path@] == names_view(self.ids@[j as int].names@)
                },
                None => !self@.contains_key(path@),
            },
    {
        let ghost pairs = entries_pairs(self.ids@);
        let mut j: usize = 0;
        while j < self.ids.len()
            invariant
                self.wf(),
                j <= self.ids@.len(),
                pairs == entries_pairs(self.ids@),
                forall|x: int| 0 <= x < j ==> self.ids@[x].path@ != path@,
            decreases self.ids@.len() - j,
        {
            if eq_paths(&self.ids[j].path, path) {
                proof {
                    lemma_alist_at(pairs, j as int);
                }
                return Some(j);
            }
            j = j + 1;
        }
        proof {
            lemma_alist_contains(pairs, path@);
        }
        None
    }

    /// The persisted name list recorded at `path`, if any.
    pub fn get(&self, path: &Vec<usize>) -> (r: Option<&Vec<String>>)
        requires
            self.wf(),
        ensures
            match r {
                Some(ns) => {
                    &&& self@.contains_key(path@)
                    &&& self@[path@] == names_view(ns@)
                },
                None => !self@.contains_key(path@),
            },
    {
        let ghost pairs = entries_pairs(self.ids@);
        let mut j: usize = 0;
        while j < self.ids.len()
            invariant
                self.wf(),
                j <= self.ids@.len(),
                pairs == entries_pairs(self.ids@),
                forall|x: int| 0 <= x < j ==> self.ids@[x].path@ != path@,
            decreases self.ids@.len() - j,
        {
            if eq_paths(&self.ids[j].path, path) {
                proof {
                    lemma_alist_at(pairs, j as int);
                }
                return Some(&self.ids[j].names);
            }
            j = j + 1;
        }
        proof {
            lemma_alist_contains(pairs, path@);
        }
        None
    }
}

impl DefaultContext {
    /// Appends `name` to the counter for `kind` in layer `li`, creating the
    /// counter when the layer does not hold one yet.
    pub(crate) fn push_counter_name(&mut self, li: usize, kind: u64, name: String)
        requires
            old(self).wf(),
            li < old(self)@.layers.len(),
        ensures
            final(self).wf(),
            final(self)@.layers == old(self)@.layers.update(
                li as int,
                counter_pushed(old(self)@.layers[li as int], kind, name@),
            ),
            final(self)@.globals == old(self)@.globals,
    {
        let ghost oldv = self@;
        let ghost olds = self.layers@;
        let ghost name_v = name@;
        let r = self.counter_index(li, kind);
        match r {
            Some(j) => {
                let layer = &mut self.layers[li];
                let counter = &mut layer.counters[j];
                counter.names.push(name);
                proof {
                    let oc = olds[li as int].counters@;
                    let nc = self.layers@[li as int].counters@;
                    let new_names = names_view(oc[j as int].names@).push(name_v);
                    assert(names_view(nc[j as int].names@) =~= new_names);
                    assert(counters_pairs(nc) =~= counters_pairs(oc).update(
                        j as int,
                        (kind, new_names),
                    ));
                    assert(olds[li as int].wf());
                    lemma_alist_update(counters_pairs(oc), j as int, new_names);
                    assert(self@.layers[li as int] =~= counter_pushed(
                        oldv.layers[li as int],
                        kind,
                        name_v,
                    ));
                    assert(self@.layers =~= oldv.layers.update(
                        li as int,
                        counter_pushed(oldv.layers[li as int], kind, name_v),
                    ));
                    assert(self.wf()) by {
                        assert(forall|x: int|
                            0 <= x < nc.len() ==> (#[trigger] counters_pairs(nc)[x]).0
                                == counters_pairs(oc)[x].0);
                        assert(self.layers@[li as int].wf());
                        assert(forall|x: int|
                            0 <= x < self.layers@.len() ==> (#[trigger] self.layers@[x]).wf());
                    }
                }
            },
            None => {
                let mut names: Vec<String> = Vec::new();
                names.push(name);
                let layer = &mut self.layers[li];
                layer.counters.push(IdCounter { kind, names });
                proof {
                    let oc = olds[li as int].counters@;
                    let nc = self.layers@[li as int].counters@;
                    assert(names_view(nc.last().names@) =~= seq![name_v]);
                    assert(counters_pairs(nc) =~= counters_pairs(oc).push((kind, seq![name_v])));
                    lemma_alist_push(counters_pairs(oc), kind, seq![name_v]);
                    assert(counter_or_empty(oldv.layers[li as int], kind).push(name_v)
                        =~= seq![name_v]);
                    assert(self@.layers[li as int] =~= counter_pushed(
                        oldv.layers[li as int],
                        kind,
                        name_v,
                    ));
                    assert(self@.layers =~= oldv.layers.update(
                        li as int,
                        counter_pushed(oldv.layers[li as int], kind, name_v),
                    ));
                    assert(self.wf()) by {
                        lemma_alist_contains(counters_pairs(oc), kind);
                        assert(forall|x: int|
                            0 <= x < oc.len() ==> (#[trigger] counters_pairs(oc)[x]).0 == oc[
                                x
                            ].kind);
                        assert(forall|x: int, y: int|
                            0 <= x < y < nc.len() ==> (#[trigger] counters_pairs(nc)[x]).0 != (
                            #[trigger] counters_pairs(nc)[y]).0) by {
                            assert(forall|x: int|
                                0 <= x < oc.len() ==> (#[trigger] counters_pairs(nc)[x])
                                    == counters_pairs(oc)[x]);
                            assert(counters_pairs(nc)[nc.len() - 1].0 == kind);
                        }
                        assert(self.layers@[li as int].wf());
                        assert(forall|x: int|
                            0 <= x < self.layers@.len() ==> (#[trigger] self.layers@[x]).wf());
                    }
                }
            },
        }
    }

    /// Makes the import table of layer `li` send `kind` to the single-element
    /// path `[index]`, overwriting any previous entry for `kind`.
    pub(crate) fn upsert_import(&mut self, li: usize, kind: u64, index: usize)
        requires
            old(self).wf(),
            li < old(self)@.layers.len(),
        ensures
            final(self).wf(),
            final(self)@.layers == old(self)@.layers.update(
                li as int,
                import_set(old(self)@.layers[li as int], kind, index),
            ),
            final(self)@.globals == old(self)@.globals,
    {
        let ghost oldv = self@;
        let ghost olds = self.layers@;
        let mut path: Vec<usize> = Vec::new();
        path.push(index);
        let r = self.import_index(li, kind);
        match r {
            Some(j) => {
                let layer = &mut self.layers[li];
                let entry = &mut layer.imports[j];
                entry.path = path;
                proof {
                    let oe = olds[li as int].imports@;
                    let ne = self.layers@[li as int].imports@;
                    assert(ne[j as int].path@ =~= seq![index]);
                    assert(imports_pairs(ne) =~= imports_pairs(oe).update(
                        j as int,
                        (kind, seq![index]),
                    ));
                    assert(olds[li as int].wf());
                    lemma_alist_update(imports_pairs(oe), j as int, seq![index]);
                    assert(self@.layers[li as int] =~= import_set(
                        oldv.layers[li as int],
                        kind,
                        index,
                    ));
                    assert(self@.layers =~= oldv.layers.update(
                        li as int,
                        import_set(oldv.layers[li as int], kind, index),
                    ));
                    assert(self.wf()) by {
                        assert(forall|x: int|
                            0 <= x < ne.len() ==> (#[trigger] imports_pairs(ne)[x]).0
                                == imports_pairs(oe)[x].0);
                        assert(self.layers@[li as int].wf());
                        assert(forall|x: int|
                            0 <= x < self.layers@.len() ==> (#[trigger] self.layers@[x]).wf());
                    }
                }
            },
            None => {
                let layer = &mut self.layers[li];
                layer.imports.push(ImportEntry { kind, path });
                proof {
                    let oe = olds[li as int].imports@;
                    let ne = self.layers@[li as int].imports@;
                    assert(ne.last().path@ =~= seq![index]);
                    assert(imports_pairs(ne) =~= imports_pairs(oe).push((kind, seq![index])));
                    lemma_alist_push(imports_pairs(oe), kind, seq![index]);
                    assert(self@.layers[li as int] =~= import_set(
                        oldv.layers[li as int],
                        kind,
                        index,
                    ));
                    assert(self@.layers =~= oldv.layers.update(
                        li as int,
                        import_set(oldv.layers[li as int], kind, index),
                    ));
                    assert(self.wf()) by {
                        lemma_alist_contains(imports_pairs(oe), kind);
                        assert(forall|x: int|
                            0 <= x < oe.len() ==> (#[trigger] imports_pairs(oe)[x]).0 == oe[
                                x
                            ].kind);
                        assert(forall|x: int, y: int|
                            0 <= x < y < ne.len() ==> (#[trigger] imports_pairs(ne)[x]).0 != (
                            #[trigger] imports_pairs(ne)[y]).0) by {
                            assert(forall|x: int|
                                0 <= x < oe.len() ==> (#[trigger] imports_pairs(ne)[x])
                                    == imports_pairs(oe)[x]);
                            assert(imports_pairs(ne)[ne.len() - 1].0 == kind);
                        }
                        assert(self.layers@[li as int].wf());
                        assert(forall|x: int|
                            0 <= x < self.layers@.len() ==> (#[trigger] self.layers@[x]).wf());
                    }
                }
            },
        }
    }

    /// Appends `name` to the persistent registry entry for `kind` at `path`,
    /// creating the store and the entry when absent.
    pub(crate) fn push_global_name(&mut self, kind: u64, path: Vec<usize>, name: String)
        requires
            old(self).wf(),
        ensures
            final(self).wf(),
            final(self)@.layers == old(self)@.layers,
            final(self)@.globals == global_pushed(old(self)@.globals, kind, path@, name@),
    {
        let ghost oldv = self@;
        let ghost path_v = path@;
        let ghost name_v = name@;
        let ks = match self.global_index(kind) {
            Some(j) => j,
            None => {
                let j = self.globals.len();
                self.globals.push(KindStore { kind, store: GlobalIdStore { ids: Vec::new() } });
                proof {
                    let og = oldv.globals;
                    assert(self.globals@.last().store@ =~= Map::<Seq<usize>, Seq<Seq<char>>>::empty()) by {
                        assert(entries_pairs(self.globals@.last().store.ids@)
                            =~= Seq::<(Seq<usize>, Seq<Seq<char>>)>::empty());
                    }
                    assert(globals_pairs(self.globals@) =~= globals_pairs(old(self).globals@).push(
                        (kind, Map::empty()),
                    ));
                    lemma_alist_push(globals_pairs(old(self).globals@), kind, Map::empty());
                    assert(self@.globals == og.insert(kind, Map::empty()));
                    assert(unique_keys(globals_pairs(self.globals@))) by {
                        lemma_alist_contains(globals_pairs(old(self).globals@), kind);
                        let op = globals_pairs(old(self).globals@);
                        let np = globals_pairs(self.globals@);
                        assert(forall|x: int|
                            0 <= x < op.len() ==> (#[trigger] op[x]).0 == old(self).globals@[
                                x
                            ].kind);
                        assert(forall|x: int, y: int|
                            0 <= x < y < np.len() ==> (#[trigger] np[x]).0 != (#[trigger] np[
                                y
                            ]).0) by {
                            assert(forall|x: int| 0 <= x < op.len() ==> (#[trigger] np[x]) == op[x]);
                            assert(np[np.len() - 1].0 == kind);
                        }
                    }
                }
                j
            },
        };
        let ghost midv = self@;
        let ghost mids = self.globals@;
        proof {
            assert(mids[ks as int].kind == kind);
            assert(midv.globals.contains_key(kind));
            assert(midv.globals[kind] == mids[ks as int].store@) by {
                lemma_alist_at(globals_pairs(mids), ks as int);
            }
            assert(mids[ks as int].store.wf());
        }
        let ei = self.globals[ks].store.entry_index(&path);
        match ei {
            Some(j) => {
                let st = &mut self.globals[ks].store;
                let entry = &mut st.ids[j];
                entry.names.push(name);
                proof {
                    let oe = mids[ks as int].store.ids@;
                    let ne = self.globals@[ks as int].store.ids@;
                    let new_names = names_view(oe[j as int].names@).push(name_v);
                    assert(names_view(ne[j as int].names@) =~= new_names);
                    assert(entries_pairs(ne) =~= entries_pairs(oe).update(
                        j as int,
                        (path_v, new_names),
                    ));
                    lemma_alist_update(entries_pairs(oe), j as int, new_names);
                    assert(self.globals@[ks as int].store@ == mids[ks as int].store@.insert(
                        path_v,
                        new_names,
                    ));
                    assert(globals_pairs(self.globals@) =~= globals_pairs(mids).update(
                        ks as int,
                        (kind, mids[ks as int].store@.insert(path_v, new_names)),
                    ));
                    lemma_alist_update(
                        globals_pairs(mids),
                        ks as int,
                        mids[ks as int].store@.insert(path_v, new_names),
                    );
                    assert(self@.globals =~= global_pushed(oldv.globals, kind, path_v, name_v));
                    assert(self.wf()) by {
                        assert(forall|x: int|
                            0 <= x < ne.len() ==> (#[trigger] entries_pairs(ne)[x]).0
                                == entries_pairs(oe)[x].0);
                        assert(self.globals@[ks as int].store.wf());
                        assert(forall|x: int|
                            0 <= x < self.globals@.len() ==> (#[trigger] self.globals@[
                                x
                            ]).store.wf());
                        assert(forall|x: int|
                            0 <= x < globals_pairs(self.globals@).len() ==> (
                            #[trigger] globals_pairs(self.globals@)[x]).0 == globals_pairs(mids)[
                                x
                            ].0);
                    }
                }
            },
            None => {
                let mut names: Vec<String> = Vec::new();
                names.push(name);
                let st = &mut self.globals[ks].store;
                st.ids.push(GlobalEntry { path, names });
                proof {
                    let oe = mids[ks as int].store.ids@;
                    let ne = self.globals@[ks as int].store.ids@;
                    assert(names_view(ne.last().names@) =~= seq![name_v]);
                    assert(entries_pairs(ne) =~= entries_pairs(oe).push((path_v, seq![name_v])));
                    lemma_alist_push(entries_pairs(oe), path_v, seq![name_v]);
                    assert(self.globals@[ks as int].store@ == mids[ks as int].store@.insert(
                        path_v,
                        seq![name_v],
                    ));
                    assert(globals_pairs(self.globals@) =~= globals_pairs(mids).update(
                        ks as int,
                        (kind, mids[ks as int].store@.insert(path_v, seq![name_v])),
                    ));
                    lemma_alist_update(
                        globals_pairs(mids),
                        ks as int,
                        mids[ks as int].store@.insert(path_v, seq![name_v]),
                    );
                    assert(Seq::<Seq<char>>::empty().push(name_v) =~= seq![name_v]);
                    assert(self@.globals =~= global_pushed(oldv.globals, kind, path_v, name_v));
                    assert(self.wf()) by {
                        lemma_alist_contains(entries_pairs(oe), path_v);
                        assert(forall|x: int|
                            0 <= x < oe.len() ==> (#[trigger] entries_pairs(oe)[x]).0 == oe[
                                x
                            ].path@);
                        assert(forall|x: int, y: int|
                            0 <= x < y < ne.len() ==> (#[trigger] entries_pairs(ne)[x]).0 != (
                            #[trigger] entries_pairs(ne)[y]).0) by {
                            assert(forall|x: int|
                                0 <= x < oe.len() ==> (#[trigger] entries_pairs(ne)[x])
                                    == entries_pairs(oe)[x]);
                            assert(entries_pairs(ne)[ne.len() - 1].0 == path_v);
                        }
                        assert(self.globals@[ks as int].store.wf());
                        assert(forall|x: int|
                            0 <= x < self.globals@.len() ==> (#[trigger] self.globals@[
                                x
                            ]).store.wf());
                        assert(forall|x: int|
                            0 <= x < globals_pairs(self.globals@).len() ==> (
                            #[trigger] globals_pairs(self.globals@)[x]).0 == globals_pairs(mids)[
                                x
                            ].0);
                    }
                }
            },
        }
    }

    /// Stores a current-declaration record in layer `li`, which must not hold
    /// one yet.
    pub(crate) fn set_current(&mut self, li: usize, id: usize, parent: u64, string: String)
        requires
            old(self).wf(),
            li < old(self)@.layers.len(),
            old(self)@.layers[li as int].current is None,
        ensures
            final(self).wf(),
            final(self)@.layers == old(self)@.layers.update(
                li as int,
                with_current(
                    old(self)@.layers[li as int],
                    CurrentIdView { id, parent, string: string@ },
                ),
            ),
            final(self)@.globals == old(self)@.globals,
    {
        let ghost oldv = self@;
        let ghost rec_v = CurrentIdView { id, parent, string: string@ };
        let layer = &mut self.layers[li];
        layer.current = Some(CurrentId { id, parent, string });
        proof {
            assert(self@.layers[li as int] =~= with_current(oldv.layers[li as int], rec_v));
            assert(self@.layers =~= oldv.layers.update(
                li as int,
                with_current(oldv.layers[li as int], rec_v),
            ));
            assert(self.wf()) by {
                assert(self.layers@[li as int].wf());
                assert(forall|x: int|
                    0 <= x < self.layers@.len() ==> (#[trigger] self.layers@[x]).wf());
            }
        }
    }
}

impl Default for DefaultContext {
    /// A fresh context, as [`DefaultContext::new`] returns it.
    fn default() -> (r: Self)
        ensures
            r.wf(),
            r@ == empty_context(),
    {
        DefaultContext::new()
    }
}

} // verus!
