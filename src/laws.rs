//! Properties of slot assignment and of the recursion bound, stated over the
//! models that the operations' contracts use.
use vstd::prelude::*;

use crate::model::{
    extends, lemma_node_in_range, lemma_pushed, lemma_registered, lemma_resolve_bound,
    lemma_resolve_frame, slot_in, LocalsView,
};
use crate::recursion::{acquired, MAX_RECURSION};

verus! {

/// The tree after declaring `names`, one after another, in the scope at `p`.
pub open spec fn registered_all(v: LocalsView, p: Seq<usize>, names: Seq<Seq<char>>) -> LocalsView
    decreases names.len(),
{
    if names.len() == 0 {
        v
    } else {
        registered_all(v, p, names.drop_last()).registered(p, names.last())
    }
}

/// Distinct names declared one after another at the top level of a fresh
/// builder get the slots 0, 1, 2, ... in declaration order, and no others.
pub proof fn lemma_distinct_names_consecutive_slots(names: Seq<Seq<char>>)
    requires
        names.len() < usize::MAX,
        forall|i: int, j: int| 0 <= i < j < names.len() ==> names[i] != names[j],
    ensures
        registered_all(LocalsView::empty(), Seq::empty(), names).len == names.len(),
        registered_all(LocalsView::empty(), Seq::empty(), names).scopes.len() == 1,
        forall|i: int|
            0 <= i < names.len() ==> slot_in(
                #[trigger] registered_all(LocalsView::empty(), Seq::empty(), names).scopes[0].name_to_slot,
                names[i],
            ) == Some(i as usize),
        forall|k: Seq<char>|
            #[trigger] registered_all(LocalsView::empty(), Seq::empty(), names).scopes[0].name_to_slot.contains_key(k)
                ==> names.contains(k),
    decreases names.len(),
{
    let e = Seq::<usize>::empty();
    if names.len() > 0 {
        let init = names.drop_last();
        lemma_distinct_names_consecutive_slots(init);
        let w = registered_all(LocalsView::empty(), e, init);
        let last = names.last();
        assert(w.node_at(e) == 0);
        if w.scopes[0].name_to_slot.contains_key(last) {
            let i = choose|i: int| 0 <= i < init.len() && init[i] == last;
            assert(names[i] == names[names.len() - 1]);
        }
        let r = registered_all(LocalsView::empty(), e, names);
        assert forall|i: int| 0 <= i < names.len() implies slot_in(
            #[trigger] r.scopes[0].name_to_slot,
            names[i],
        ) == Some(i as usize) by {
            if i < init.len() {
                assert(names[i] == init[i]);
                assert(slot_in(w.scopes[0].name_to_slot, init[i]) == Some(i as usize));
            }
        }
        assert forall|k: Seq<char>| #[trigger] r.scopes[0].name_to_slot.contains_key(k) implies names.contains(
            k,
        ) by {
            if k != last {
                assert(w.scopes[0].name_to_slot.contains_key(k));
                let i = choose|i: int| 0 <= i < init.len() && init[i] == k;
                assert(names[i] == k);
            } else {
                assert(names[names.len() - 1] == k);
            }
        }
    }
}

/// Declaring a name again in the scope at `p`, where it is already declared,
/// leaves every lookup as it was and counts one more slot.
pub proof fn lemma_redeclare_keeps_slot(v: LocalsView, p: Seq<usize>, name: Seq<char>)
    requires
        v.wf(),
        v.valid_path(p),
        v.scopes[v.node_at(p)].name_to_slot.contains_key(name),
    ensures
        v.registered(p, name).len == v.len + 1,
        forall|q: Seq<usize>, m: Seq<char>| #[trigger]
            v.registered(p, name).resolve(q, m) == v.resolve(q, m),
{
}

/// Declaring in a scope that `a` does not have keeps `w` an extension of `a`.
proof fn lemma_registered_fresh(a: LocalsView, w: LocalsView, p: Seq<usize>, name: Seq<char>)
    requires
        w.wf(),
        extends(w, a),
        w.valid_path(p),
        w.node_at(p) >= a.scopes.len(),
        w.len < usize::MAX,
    ensures
        extends(w.registered(p, name), a),
{
    let r = w.registered(p, name);
    lemma_registered(w, p, name, p);
    assert forall|i: int| 0 <= i < a.scopes.len() implies #[trigger] r.scopes[i].name_to_slot
        == a.scopes[i].name_to_slot by {
        lemma_node_in_range(w, p);
        assert(i != w.node_at(p));
        assert(r.scopes[i] == w.scopes[i]);
    }
}

proof fn lemma_extends_trans(a: LocalsView, b: LocalsView, c: LocalsView)
    requires
        extends(b, a),
        extends(c, b),
    ensures
        extends(c, a),
{
    assert forall|i: int, j: int|
        0 <= i < a.scopes.len() && 0 <= j < a.scopes[i].nested_scopes.len()
            implies #[trigger] c.scopes[i].nested_scopes[j] == a.scopes[i].nested_scopes[j] by {
        assert(b.scopes[i].nested_scopes[j] == a.scopes[i].nested_scopes[j]);
    }
    assert forall|i: int| 0 <= i < a.scopes.len() implies a.scopes[i].nested_scopes.len()
        <= #[trigger] c.scopes[i].nested_scopes.len() by {
        assert(a.scopes[i].nested_scopes.len() <= b.scopes[i].nested_scopes.len());
    }
    assert forall|i: int| 0 <= i < a.scopes.len() implies #[trigger] c.scopes[i].name_to_slot
        == a.scopes[i].name_to_slot by {
        assert(b.scopes[i].name_to_slot == a.scopes[i].name_to_slot);
    }
}

/// A name declared in the scope at `p`, then declared again in a scope newly
/// opened inside it (and left again), resolves to the inner slot inside the
/// nested scope and to the outer slot at `p`.
pub proof fn lemma_shadowing(v: LocalsView, p: Seq<usize>, name: Seq<char>)
    requires
        v.wf(),
        v.valid_path(p),
        v.len + 1 < usize::MAX,
        v.scopes.len() < usize::MAX,
        v.children_count(p) < usize::MAX,
    ensures
        ({
            let v1 = v.registered(p, name);
            let j = v.children_count(p) as usize;
            let v3 = v1.pushed(p).registered(p.push(j), name);
            &&& v3.wf()
            &&& v3.resolve(p.push(j), name) == Some(v1.len as usize)
            &&& v3.resolve(p, name) == v1.resolve(p, name)
            &&& v1.resolve(p, name) is Some
            &&& v1.resolve(p, name) != Some(v1.len as usize)
        }),
{
    let v1 = v.registered(p, name);
    let j = v.children_count(p) as usize;
    let v2 = v1.pushed(p);
    let q = p.push(j);
    let v3 = v2.registered(q, name);
    lemma_registered(v, p, name, p);
    lemma_node_in_range(v, p);
    assert(v1.scopes[v1.node_at(p)].name_to_slot.contains_key(name));
    lemma_resolve_bound(v1, p, name);
    lemma_pushed(v1, p);
    lemma_registered(v2, q, name, q);
    lemma_registered_fresh(v1, v2, q, name);
    lemma_resolve_frame(v1, v3, p, name);
    assert(v3.scopes[v3.node_at(q)].name_to_slot.contains_key(name));
}

/// A name declared in two sibling scopes opened one after the other inside
/// the scope at `p` gets two distinct fresh slots, each found only inside
/// its own scope; at `p` the lookup is as before.
pub proof fn lemma_sibling_scopes(v: LocalsView, p: Seq<usize>, name: Seq<char>)
    requires
        v.wf(),
        v.valid_path(p),
        v.len + 1 < usize::MAX,
        v.scopes.len() + 1 < usize::MAX,
        v.children_count(p) + 1 < usize::MAX,
    ensures
        ({
            let j = v.children_count(p) as usize;
            let v2 = v.pushed(p).registered(p.push(j), name);
            let v4 = v2.pushed(p).registered(p.push((j + 1) as usize), name);
            &&& v4.wf()
            &&& v4.resolve(p.push(j), name) == Some(v.len as usize)
            &&& v4.resolve(p.push((j + 1) as usize), name) == Some((v.len + 1) as usize)
            &&& v4.resolve(p, name) == v.resolve(p, name)
            &&& v.resolve(p, name) != Some(v.len as usize)
            &&& v.resolve(p, name) != Some((v.len + 1) as usize)
        }),
{
    let j = v.children_count(p) as usize;
    let q1 = p.push(j);
    let q2 = p.push((j + 1) as usize);
    let v1 = v.pushed(p);
    let v2 = v1.registered(q1, name);
    let v3 = v2.pushed(p);
    let v4 = v3.registered(q2, name);
    lemma_resolve_bound(v, p, name);
    lemma_node_in_range(v, p);
    lemma_pushed(v, p);
    lemma_resolve_frame(v, v1, p, name);
    lemma_registered(v1, q1, name, q1);
    lemma_registered(v1, q1, name, p);
    lemma_registered_fresh(v, v1, q1, name);
    lemma_node_in_range(v1, q1);
    lemma_node_in_range(v1, p);
    assert(v2.scopes[v2.node_at(q1)].name_to_slot.contains_key(name));
    lemma_pushed(v2, p);
    lemma_registered(v3, q2, name, q2);
    lemma_registered_fresh(v2, v3, q2, name);
    lemma_extends_trans(v, v2, v4);
    lemma_resolve_frame(v, v4, p, name);
    lemma_resolve_frame(v2, v4, q1, name);
    assert(v4.scopes[v4.node_at(q2)].name_to_slot.contains_key(name));
}

/// Outcome of acquiring `k` nested guards on a counter at depth zero: the
/// depth reached, or none if an acquisition failed.
pub open spec fn depth_after(k: nat) -> Option<nat>
    decreases k,
{
    if k == 0 {
        Some(0)
    } else {
        match depth_after((k - 1) as nat) {
            Some(d) => acquired(d),
            None => None,
        }
    }
}

/// Depth after releasing guards that recorded the depths `prevs`, latest
/// acquired first, starting at `depth`.
pub open spec fn released_in_reverse(prevs: Seq<nat>, depth: nat) -> nat
    decreases prevs.len(),
{
    if prevs.len() == 0 {
        depth
    } else {
        released_in_reverse(prevs.drop_last(), prevs.last())
    }
}

/// Up to the bound, nested acquisitions succeed and the depth counts them;
/// at the bound one more fails; the guards record the depths 0, 1, ..., and
/// releasing them in reverse order brings the counter back to zero.
pub proof fn lemma_recursion_bound(k: nat)
    requires
        k <= MAX_RECURSION,
    ensures
        depth_after(k) == Some(k),
        acquired(MAX_RECURSION as nat) is None,
        depth_after((MAX_RECURSION + 1) as nat) is None,
        released_in_reverse(Seq::new(k, |i: int| i as nat), k) == 0,
{
    lemma_depth_counts(k);
    lemma_depth_counts(MAX_RECURSION as nat);
    lemma_release_all(k);
}

proof fn lemma_depth_counts(k: nat)
    requires
        k <= MAX_RECURSION,
    ensures
        depth_after(k) == Some(k),
    decreases k,
{
    if k > 0 {
        lemma_depth_counts((k - 1) as nat);
    }
}

proof fn lemma_release_all(k: nat)
    ensures
        released_in_reverse(Seq::new(k, |i: int| i as nat), k) == 0,
    decreases k,
{
    if k > 0 {
        lemma_release_all((k - 1) as nat);
        assert(Seq::new(k, |i: int| i as nat).drop_last() =~= Seq::new(
            (k - 1) as nat,
            |i: int| i as nat,
        ));
    }
}

} // verus!
