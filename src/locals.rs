//! Assignment of slots to scope-local variables, and lookup of those slots
//! by a later traversal that enters the scopes in the same order.
use vstd::prelude::*;

use crate::model::{
    lemma_node_in_range, lemma_pushed, lemma_registered, lemma_valid_prefix, node_at, slot_in,
    LocalsView, ScopeView,
};

verus! {

/// Map from names to slots given by a list of declarations; the first
/// declaration of a name wins.
pub open spec fn names_map(s: Seq<(String, usize)>) -> Map<Seq<char>, usize>
    decreases s.len(),
{
    if s.len() == 0 {
        Map::empty()
    } else {
        let m = names_map(s.drop_last());
        if m.contains_key(s.last().0@) {
            m
        } else {
            m.insert(s.last().0@, s.last().1)
        }
    }
}

proof fn lemma_names_absent(s: Seq<(String, usize)>, name: Seq<char>)
    requires
        forall|j: int| 0 <= j < s.len() ==> (#[trigger] s[j]).0@ != name,
    ensures
        !names_map(s).contains_key(name),
    decreases s.len(),
{
    if s.len() > 0 {
        lemma_names_absent(s.drop_last(), name);
    }
}

proof fn lemma_names_first(s: Seq<(String, usize)>, name: Seq<char>, i: int)
    requires
        0 <= i < s.len(),
        s[i].0@ == name,
        forall|j: int| 0 <= j < i ==> (#[trigger] s[j]).0@ != name,
    ensures
        names_map(s).contains_key(name),
        names_map(s)[name] == s[i].1,
    decreases s.len(),
{
    if i == s.len() - 1 {
        lemma_names_absent(s.drop_last(), name);
    } else {
        lemma_names_first(s.drop_last(), name, i);
    }
}

/// One lexical scope: its own declarations, and the arena indices of the
/// scopes nested in it, in the order they were opened.
#[derive(Debug, Clone)]
struct Scope {
    name_to_slot: Vec<(String, usize)>,
    nested_scopes: Vec<usize>,
}

impl View for Scope {
    type V = ScopeView;

    closed spec fn view(&self) -> ScopeView {
        ScopeView { name_to_slot: names_map(self.name_to_slot@), nested_scopes: self.nested_scopes@ }
    }
}

impl Scope {
    fn new() -> (r: Scope)
        ensures
            r@ == ScopeView::empty(),
    {
        let r = Scope { name_to_slot: Vec::new(), nested_scopes: Vec::new() };
        assert(r@.name_to_slot =~= Map::empty());
        r
    }

    /// Slot of `name` among this scope's own declarations.
    fn slot_of(&self, name: &String) -> (r: Option<usize>)
        ensures
            r == slot_in(self@.name_to_slot, name@),
    {
        let mut i: usize = 0;
        while i < self.name_to_slot.len()
            invariant
                i <= self.name_to_slot@.len(),
                forall|j: int| 0 <= j < i ==> (#[trigger] self.name_to_slot@[j]).0@ != name@,
            decreases self.name_to_slot@.len() - i,
        {
            if self.name_to_slot[i].0 == *name {
                proof {
                    lemma_names_first(self.name_to_slot@, name@, i as int);
                }
                return Some(self.name_to_slot[i].1);
            }
            i += 1;
        }
        proof {
            lemma_names_absent(self.name_to_slot@, name@);
        }
        None
    }
}

/// Mapping of local variables and scopes to local variable slots.
#[derive(Debug, Clone)]
pub struct Locals {
    /// Arena of scopes; the outermost scope is at index 0.
    scopes: Vec<Scope>,
    local_count: usize,
}

impl View for Locals {
    type V = LocalsView;

    closed spec fn view(&self) -> LocalsView {
        LocalsView { scopes: self.scopes@.map_values(|s: Scope| s@), len: self.local_count as nat }
    }
}

impl Locals {
    /// Arena index of the scope reached by each prefix of `path`.
    fn scope_chain(&self, path: &[usize]) -> (nodes: Vec<usize>)
        requires
            self@.wf(),
            self@.valid_path(path@),
        ensures
            nodes@.len() == path@.len() + 1,
            forall|k: int|
                0 <= k <= path@.len() ==> nodes@[k] as int == self@.node_at(path@.take(k))
                    && nodes@[k] < self@.scopes.len(),
    {
        let mut nodes: Vec<usize> = Vec::new();
        nodes.push(0);
        let mut i: usize = 0;
        while i < path.len()
            invariant
                self@.wf(),
                self@.valid_path(path@),
                i <= path@.len(),
                nodes@.len() == i + 1,
                forall|k: int|
                    0 <= k <= i ==> nodes@[k] as int == self@.node_at(path@.take(k))
                        && nodes@[k] < self@.scopes.len(),
            decreases path@.len() - i,
        {
            let cur = nodes[i];
            proof {
                lemma_valid_prefix(self@, path@, i + 1);
                let q = path@.take(i + 1);
                assert(q.drop_last() =~= path@.take(i as int));
                assert(self@.scopes[cur as int] == self.scopes@[cur as int]@);
            }
            let next = self.scopes[cur].nested_scopes[path[i]];
            nodes.push(next);
            i += 1;
        }
        nodes
    }

    /// Arena index of the scope reached by following `path` from the root.
    fn scope_by_path(&self, path: &[usize]) -> (r: usize)
        requires
            self@.wf(),
            self@.valid_path(path@),
        ensures
            r as int == self@.node_at(path@),
            r < self@.scopes.len(),
    {
        let nodes = self.scope_chain(path);
        assert(path@.take(path@.len() as int) =~= path@);
        nodes[path.len()]
    }

    /// Find the slot of `name` as seen from the scope at `path`: the
    /// innermost scope on the way from the root that declares it wins.
    fn local_index(&self, name: &String, path: &[usize]) -> (r: Option<usize>)
        requires
            self@.wf(),
            self@.valid_path(path@),
        ensures
            r == self@.resolve(path@, name@),
    {
        let nodes = self.scope_chain(path);
        let mut depth: usize = path.len();
        assert(path@.take(path@.len() as int) =~= path@);
        loop
            invariant
                self@.wf(),
                depth <= path@.len(),
                nodes@.len() == path@.len() + 1,
                forall|k: int|
                    0 <= k <= path@.len() ==> nodes@[k] as int == self@.node_at(path@.take(k))
                        && nodes@[k] < self@.scopes.len(),
                self@.resolve(path@, name@) == self@.resolve(path@.take(depth as int), name@),
            decreases depth,
        {
            let node = nodes[depth];
            assert(self@.scopes[node as int] == self.scopes@[node as int]@);
            match self.scopes[node].slot_of(name) {
                Some(s) => {
                    return Some(s);
                },
                None => {
                    if depth == 0 {
                        return None;
                    }
                    assert(path@.take(depth as int).drop_last() =~= path@.take(depth - 1));
                    depth -= 1;
                },
            }
        }
    }

    /// Return the number of local variable slots.
    pub fn len(&self) -> (r: usize)
        ensures
            r == self@.len,
    {
        self.local_count
    }

    /// Slot of `name` among the declarations of the outermost scope.
    pub fn top_level_name_to_slot(&self, name: &str) -> (r: Option<usize>)
        requires
            self@.wf(),
        ensures
            r == slot_in(self@.scopes[0].name_to_slot, name@),
    {
        let owned = name.to_owned();
        let root: Vec<usize> = Vec::new();
        let r = self.local_index(&owned, root.as_slice());
        assert(node_at(self@.scopes, root@) == 0);
        r
    }
}


/// Assigns slots to local variables while a traversal opens and closes scopes.
pub struct LocalsBuilder {
    locals: Locals,
    /// Positions among nested scopes leading from the root to the open scope.
    current_scope_path: Vec<usize>,
}

impl Default for LocalsBuilder {
    fn default() -> (r: LocalsBuilder)
        ensures
            r.wf(),
            r.locals_view() == LocalsView::empty(),
            r.scope_path() == Seq::<usize>::empty(),
    {
        let mut scopes: Vec<Scope> = Vec::new();
        scopes.push(Scope::new());
        let r = LocalsBuilder {
            locals: Locals { scopes, local_count: 0 },
            current_scope_path: Vec::new(),
        };
        assert(r.locals@.scopes =~= LocalsView::empty().scopes);
        r
    }
}

impl LocalsBuilder {
    /// The tree built so far.
    pub closed spec fn locals_view(&self) -> LocalsView {
        self.locals@
    }

    /// The path from the root to the currently open scope.
    pub closed spec fn scope_path(&self) -> Seq<usize> {
        self.current_scope_path@
    }

    pub open spec fn wf(&self) -> bool {
        &&& self.locals_view().wf()
        &&& self.locals_view().valid_path(self.scope_path())
    }

    /// Arena index of the currently open scope.
    fn current_locals(&self) -> (r: usize)
        requires
            self.wf(),
        ensures
            r as int == self.locals_view().node_at(self.scope_path()),
            r < self.locals_view().scopes.len(),
    {
        self.locals.scope_by_path(self.current_scope_path.as_slice())
    }

    /// Create a new nested scope as the last child of the open scope, and
    /// enter it.
    pub fn push_scope(&mut self)
        requires
            old(self).wf(),
        ensures
            final(self).wf(),
            final(self).locals_view() == old(self).locals_view().pushed(old(self).scope_path()),
            final(self).scope_path() == old(self).scope_path().push(
                old(self).locals_view().children_count(old(self).scope_path()) as usize,
            ),
            final(self).locals_view().node_at(final(self).scope_path())
                == old(self).locals_view().scopes.len(),
            final(self).locals_view().scopes[old(self).locals_view().scopes.len() as int]
                == ScopeView::empty(),
    {
        let ghost v = self.locals@;
        let ghost p = self.current_scope_path@;
        let cur = self.current_locals();
        let index = self.locals.scopes.len();
        self.locals.scopes.push(Scope::new());
        assert(self.locals.scopes@[cur as int] == old(self).locals.scopes@[cur as int]);
        self.locals.scopes[cur].nested_scopes.push(index);
        let n = self.locals.scopes[cur].nested_scopes.len() - 1;
        self.current_scope_path.push(n);
        proof {
            assert(self.locals.scopes.len() == self.locals.scopes@.len());
            lemma_pushed(v, p);
            assert(self.locals@.scopes =~= v.pushed(p).scopes);
        }
    }

    /// Leave the open scope for its parent.
    pub fn pop_scope(&mut self)
        requires
            old(self).wf(),
            old(self).scope_path().len() > 0,
        ensures
            final(self).wf(),
            final(self).locals_view() == old(self).locals_view(),
            final(self).scope_path() == old(self).scope_path().drop_last(),
    {
        self.current_scope_path.pop();
    }

    /// Register a variable in the open scope: a name new to that scope gets
    /// the next slot, and every call consumes one slot.
    pub fn register_local(&mut self, name: &str)
        requires
            old(self).wf(),
            old(self).locals_view().len < usize::MAX,
        ensures
            final(self).wf(),
            final(self).locals_view() == old(self).locals_view().registered(
                old(self).scope_path(),
                name@,
            ),
            final(self).scope_path() == old(self).scope_path(),
            final(self).locals_view().len == old(self).locals_view().len + 1,
            ({
                let v = old(self).locals_view();
                let n = v.node_at(old(self).scope_path());
                let w = final(self).locals_view();
                if v.scopes[n].name_to_slot.contains_key(name@) {
                    w.scopes == v.scopes
                } else {
                    &&& slot_in(w.scopes[n].name_to_slot, name@) == Some(v.len as usize)
                    &&& forall|i: int| 0 <= i < v.scopes.len() && i != n ==> w.scopes[i] == v.scopes[i]
                }
            }),
    {
        let ghost v = self.locals@;
        let ghost p = self.current_scope_path@;
        let local_count = self.locals.local_count;
        let cur = self.current_locals();
        let owned = name.to_owned();
        assert(v.scopes[cur as int] == self.locals.scopes@[cur as int]@);
        if self.locals.scopes[cur].slot_of(&owned).is_none() {
            self.locals.scopes[cur].name_to_slot.push((owned, local_count));
            assert(self.locals.scopes@[cur as int].name_to_slot@.drop_last()
                =~= old(self).locals.scopes@[cur as int].name_to_slot@);
        }
        self.locals.local_count = local_count + 1;
        proof {
            lemma_registered(v, p, name@, p);
            assert(self.locals@.scopes =~= v.registered(p, name@).scopes);
        }
    }

    /// Finish building; every opened scope must have been closed.
    pub fn build(self) -> (r: Locals)
        requires
            self.wf(),
            self.scope_path().len() == 0,
        ensures
            r@ == self.locals_view(),
            r@.wf(),
    {
        self.locals
    }
}

/// Replays the scope traversal of a builder over the finished `Locals` and
/// resolves names to slots on the way.
pub struct LocalsQuery<'a> {
    locals: &'a Locals,
    current_scope_path: Vec<usize>,
    /// Position of the next nested scope to enter under the current scope.
    next: usize,
}

impl<'a> LocalsQuery<'a> {
    pub closed spec fn locals_view(&self) -> LocalsView {
        self.locals@
    }

    pub closed spec fn scope_path(&self) -> Seq<usize> {
        self.current_scope_path@
    }

    pub closed spec fn next(&self) -> nat {
        self.next as nat
    }

    pub open spec fn wf(&self) -> bool {
        &&& self.locals_view().wf()
        &&& self.locals_view().valid_path(self.scope_path())
        &&& self.next() <= self.locals_view().children_count(self.scope_path())
    }

    /// Start at the root, before its first nested scope.
    pub fn new(locals: &'a Locals) -> (r: LocalsQuery<'a>)
        requires
            locals@.wf(),
        ensures
            r.wf(),
            r.locals_view() == locals@,
            r.scope_path() == Seq::<usize>::empty(),
            r.next() == 0,
    {
        LocalsQuery { locals, current_scope_path: Vec::new(), next: 0 }
    }

    /// Return the slot of a variable visible in the current scope: declared
    /// in it or in an enclosing scope, not in a nested one.
    pub fn local_slot(&self, name: &str) -> (r: Option<usize>)
        requires
            self.wf(),
        ensures
            r == self.locals_view().resolve(self.scope_path(), name@),
    {
        let owned = name.to_owned();
        self.locals.local_index(&owned, self.current_scope_path.as_slice())
    }

    /// Enter the next nested scope of the current scope.
    pub fn push_next_scope(&mut self)
        requires
            old(self).wf(),
            old(self).next() < old(self).locals_view().children_count(old(self).scope_path()),
        ensures
            final(self).wf(),
            final(self).locals_view() == old(self).locals_view(),
            final(self).scope_path() == old(self).scope_path().push(old(self).next() as usize),
            final(self).next() == 0,
    {
        self.current_scope_path.push(self.next);
        self.next = 0;
        proof {
            let p = self.current_scope_path@;
            assert(p.drop_last() =~= old(self).current_scope_path@);
        }
    }

    /// Leave the current scope; every scope nested in it must have been
    /// entered before.
    pub fn pop_scope(&mut self)
        requires
            old(self).wf(),
            old(self).scope_path().len() > 0,
            old(self).next() == old(self).locals_view().children_count(old(self).scope_path()),
        ensures
            final(self).wf(),
            final(self).locals_view() == old(self).locals_view(),
            final(self).scope_path() == old(self).scope_path().drop_last(),
            final(self).next() == old(self).scope_path().last() + 1,
    {
        let last = self.current_scope_path.pop().unwrap();
        proof {
            let p = self.current_scope_path@;
            assert(p =~= old(self).current_scope_path@.drop_last());
            lemma_node_in_range(self.locals@, p);
            let parent = self.locals@.node_at(p);
            assert(self.locals@.scopes[parent] == self.locals.scopes@[parent]@);
            let nested = self.locals.scopes@[parent].nested_scopes;
            assert(nested.len() == nested@.len());
        }
        self.next = last + 1;
    }
}

} // verus!
