//! Mathematical model of the scope tree, stored as an arena of scopes.
use vstd::prelude::*;

verus! {

/// What one scope declares, and where its nested scopes are stored.
pub struct ScopeView {
    pub name_to_slot: Map<Seq<char>, usize>,
    /// Arena indices of the nested scopes, in the order they were opened.
    pub nested_scopes: Seq<usize>,
}

impl ScopeView {
    pub open spec fn empty() -> ScopeView {
        ScopeView { name_to_slot: Map::empty(), nested_scopes: Seq::empty() }
    }
}

/// Slot of `name` in one scope's own declarations.
pub open spec fn slot_in(m: Map<Seq<char>, usize>, name: Seq<char>) -> Option<usize> {
    if m.contains_key(name) {
        Some(m[name])
    } else {
        None
    }
}

/// Arena index of the scope reached from the root (index 0) by following `path`,
/// each element being a position among the current scope's nested scopes.
pub open spec fn node_at(scopes: Seq<ScopeView>, path: Seq<usize>) -> int
    decreases path.len(),
{
    if path.len() == 0 {
        0
    } else {
        scopes[node_at(scopes, path.drop_last())].nested_scopes[path.last() as int] as int
    }
}

/// Every step of `path` names an existing nested scope.
pub open spec fn valid_path(scopes: Seq<ScopeView>, path: Seq<usize>) -> bool
    decreases path.len(),
{
    path.len() == 0 || (valid_path(scopes, path.drop_last()) && path.last()
        < scopes[node_at(scopes, path.drop_last())].nested_scopes.len())
}

/// Lexical lookup: the innermost scope on the chain from the root to `path`
/// that declares `name` gives its slot.
pub open spec fn resolve(scopes: Seq<ScopeView>, path: Seq<usize>, name: Seq<char>) -> Option<usize>
    decreases path.len(),
{
    match slot_in(scopes[node_at(scopes, path)].name_to_slot, name) {
        Some(s) => Some(s),
        None => if path.len() == 0 {
            None
        } else {
            resolve(scopes, path.drop_last(), name)
        },
    }
}

/// The scope tree together with the number of slots handed out.
pub struct LocalsView {
    pub scopes: Seq<ScopeView>,
    pub len: nat,
}

impl LocalsView {
    /// A tree with an empty root scope and no slots.
    pub open spec fn empty() -> LocalsView {
        LocalsView { scopes: seq![ScopeView::empty()], len: 0 }
    }

    pub open spec fn wf(self) -> bool {
        &&& self.scopes.len() >= 1
        &&& forall|i: int, j: int|
            0 <= i < self.scopes.len() && 0 <= j < self.scopes[i].nested_scopes.len()
                ==> self.scopes[i].nested_scopes[j] < self.scopes.len()
        &&& forall|i: int, k: Seq<char>|
            0 <= i < self.scopes.len() && #[trigger] self.scopes[i].name_to_slot.contains_key(k)
                ==> self.scopes[i].name_to_slot[k] < self.len
    }

    pub open spec fn node_at(self, path: Seq<usize>) -> int {
        node_at(self.scopes, path)
    }

    pub open spec fn valid_path(self, path: Seq<usize>) -> bool {
        valid_path(self.scopes, path)
    }

    /// Number of scopes nested directly in the scope at `path`.
    pub open spec fn children_count(self, path: Seq<usize>) -> nat {
        self.scopes[self.node_at(path)].nested_scopes.len()
    }

    pub open spec fn resolve(self, path: Seq<usize>, name: Seq<char>) -> Option<usize> {
        resolve(self.scopes, path, name)
    }

    /// Declaring `name` in the scope at `path`: a name new to that scope gets
    /// the next slot; either way one more slot is counted.
    pub open spec fn registered(self, path: Seq<usize>, name: Seq<char>) -> LocalsView {
        let n = self.node_at(path);
        let s = self.scopes[n];
        LocalsView {
            scopes: if s.name_to_slot.contains_key(name) {
                self.scopes
            } else {
                self.scopes.update(
                    n,
                    ScopeView {
                        name_to_slot: s.name_to_slot.insert(name, self.len as usize),
                        nested_scopes: s.nested_scopes,
                    },
                )
            },
            len: self.len + 1,
        }
    }

    /// Opening a new empty scope as the last nested scope of the scope at `path`.
    pub open spec fn pushed(self, path: Seq<usize>) -> LocalsView {
        let n = self.node_at(path);
        let s = self.scopes[n];
        LocalsView {
            scopes: self.scopes.update(
                n,
                ScopeView {
                    name_to_slot: s.name_to_slot,
                    nested_scopes: s.nested_scopes.push(self.scopes.len() as usize),
                },
            ).push(ScopeView::empty()),
            len: self.len,
        }
    }
}


/// `b` keeps every scope of `a` and every nested-scope link of it, possibly
/// with more scopes and links appended.
pub open spec fn grows(b: LocalsView, a: LocalsView) -> bool {
    &&& b.scopes.len() >= a.scopes.len()
    &&& forall|i: int|
        0 <= i < a.scopes.len() ==> a.scopes[i].nested_scopes.len()
            <= #[trigger] b.scopes[i].nested_scopes.len()
    &&& forall|i: int, j: int|
        0 <= i < a.scopes.len() && 0 <= j < a.scopes[i].nested_scopes.len()
            ==> #[trigger] b.scopes[i].nested_scopes[j] == a.scopes[i].nested_scopes[j]
}

/// `b` grows `a` and leaves the declarations of `a`'s scopes as they were.
pub open spec fn extends(b: LocalsView, a: LocalsView) -> bool {
    &&& grows(b, a)
    &&& forall|i: int|
        0 <= i < a.scopes.len() ==> #[trigger] b.scopes[i].name_to_slot
            == a.scopes[i].name_to_slot
}

pub proof fn lemma_node_in_range(v: LocalsView, p: Seq<usize>)
    requires
        v.wf(),
        v.valid_path(p),
    ensures
        0 <= v.node_at(p) < v.scopes.len(),
    decreases p.len(),
{
    if p.len() > 0 {
        lemma_node_in_range(v, p.drop_last());
    }
}

pub proof fn lemma_valid_prefix(v: LocalsView, p: Seq<usize>, k: int)
    requires
        v.valid_path(p),
        0 <= k <= p.len(),
    ensures
        v.valid_path(p.take(k)),
    decreases p.len(),
{
    if k == p.len() {
        assert(p.take(k) =~= p);
    } else {
        assert(p.drop_last().take(k) =~= p.take(k));
        lemma_valid_prefix(v, p.drop_last(), k);
    }
}

/// A path of `a` leads to the same scope in a tree that grows `a`.
pub proof fn lemma_grows_path(a: LocalsView, b: LocalsView, p: Seq<usize>)
    requires
        a.wf(),
        grows(b, a),
        a.valid_path(p),
    ensures
        b.valid_path(p),
        b.node_at(p) == a.node_at(p),
    decreases p.len(),
{
    if p.len() > 0 {
        let q = p.drop_last();
        lemma_grows_path(a, b, q);
        lemma_node_in_range(a, q);
        let m = a.node_at(q);
        assert(b.scopes[m].nested_scopes[p.last() as int] == a.scopes[m].nested_scopes[p.last() as int]);
    }
}

/// Lookups along a path of `a` are unchanged in a tree that extends `a`.
pub proof fn lemma_resolve_frame(a: LocalsView, b: LocalsView, p: Seq<usize>, name: Seq<char>)
    requires
        a.wf(),
        extends(b, a),
        a.valid_path(p),
    ensures
        b.valid_path(p),
        b.node_at(p) == a.node_at(p),
        b.resolve(p, name) == a.resolve(p, name),
    decreases p.len(),
{
    lemma_grows_path(a, b, p);
    lemma_node_in_range(a, p);
    assert(b.scopes[a.node_at(p)].name_to_slot == a.scopes[a.node_at(p)].name_to_slot);
    if p.len() > 0 {
        lemma_resolve_frame(a, b, p.drop_last(), name);
    }
}

/// Every slot a lookup yields has been handed out.
pub proof fn lemma_resolve_bound(v: LocalsView, p: Seq<usize>, name: Seq<char>)
    requires
        v.wf(),
        v.valid_path(p),
    ensures
        v.resolve(p, name) matches Some(s) ==> s < v.len,
    decreases p.len(),
{
    lemma_node_in_range(v, p);
    if p.len() > 0 {
        lemma_resolve_bound(v, p.drop_last(), name);
    }
}

/// Opening a scope keeps the tree well formed, and the new scope is reached
/// by one more step past the last existing nested scope.
pub proof fn lemma_pushed(v: LocalsView, p: Seq<usize>)
    requires
        v.wf(),
        v.valid_path(p),
        v.scopes.len() < usize::MAX,
        v.children_count(p) < usize::MAX,
    ensures
        v.pushed(p).wf(),
        extends(v.pushed(p), v),
        v.pushed(p).children_count(p) == v.children_count(p) + 1,
        v.pushed(p).valid_path(p.push(v.children_count(p) as usize)),
        v.pushed(p).node_at(p.push(v.children_count(p) as usize)) == v.scopes.len(),
        v.pushed(p).scopes[v.scopes.len() as int] == ScopeView::empty(),
{
    let w = v.pushed(p);
    lemma_node_in_range(v, p);
    let n = v.node_at(p);
    assert forall|i: int, j: int|
        0 <= i < w.scopes.len() && 0 <= j < w.scopes[i].nested_scopes.len()
            implies w.scopes[i].nested_scopes[j] < w.scopes.len() by {
        if i != n && i < v.scopes.len() {
            assert(w.scopes[i] == v.scopes[i]);
        }
    }
    assert forall|i: int, k: Seq<char>|
        0 <= i < w.scopes.len() && #[trigger] w.scopes[i].name_to_slot.contains_key(k)
            implies w.scopes[i].name_to_slot[k] < w.len by {
        if i < v.scopes.len() {
            assert(w.scopes[i].name_to_slot == v.scopes[i].name_to_slot);
        }
    }
    lemma_grows_path(v, w, p);
    let q = p.push(v.children_count(p) as usize);
    assert(q.drop_last() =~= p);
    assert(w.scopes[n].nested_scopes[v.children_count(p) as int] == v.scopes.len() as usize);
}

/// Declaring a name keeps the tree well formed and every path where it was;
/// only the scope at `p` may change, and only by that declaration.
pub proof fn lemma_registered(v: LocalsView, p: Seq<usize>, name: Seq<char>, q: Seq<usize>)
    requires
        v.wf(),
        v.valid_path(p),
        v.len < usize::MAX,
        v.valid_path(q),
    ensures
        v.registered(p, name).wf(),
        grows(v.registered(p, name), v),
        grows(v, v.registered(p, name)),
        v.registered(p, name).valid_path(q),
        v.registered(p, name).node_at(q) == v.node_at(q),
{
    let w = v.registered(p, name);
    lemma_node_in_range(v, p);
    let n = v.node_at(p);
    assert forall|i: int, k: Seq<char>|
        0 <= i < w.scopes.len() && #[trigger] w.scopes[i].name_to_slot.contains_key(k)
            implies w.scopes[i].name_to_slot[k] < w.len by {
        if i == n && k == name && !v.scopes[n].name_to_slot.contains_key(name) {
        } else {
            assert(v.scopes[i].name_to_slot.contains_key(k));
        }
    }
    lemma_grows_path(v, w, q);
}

} // verus!
