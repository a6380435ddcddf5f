use vstd::prelude::*;
use crate::domain::Menu;
use crate::menu_tree::{
    are_trees_of, child_pred, children_of, is_forest_of, is_tree_of, lemma_are_trees_of,
    lemma_stable_sort_by, root_pred, roots, stable_sort_by, tree_key, MenuTree,
};

verus! {

/// No two records share an id.
pub open spec fn unique_ids(menus: Seq<Menu>) -> bool {
    forall|i: int, j: int|
        0 <= i < menus.len() && 0 <= j < menus.len() && #[trigger] menus[i].id
            == #[trigger] menus[j].id ==> i == j
}

/// Some record of `menus` is the parent that `m` names.
pub open spec fn has_parent_in(menus: Seq<Menu>, m: Menu) -> bool {
    exists|i: int| 0 <= i < menus.len() && m.parent_id == Some(#[trigger] menus[i].id)
}

/// The record of `menus` that `m` names as parent (meaningful when there is one).
pub open spec fn parent_in(menus: Seq<Menu>, m: Menu) -> Menu {
    menus[choose|i: int| 0 <= i < menus.len() && m.parent_id == Some(#[trigger] menus[i].id)]
}

/// Following parent links from `m` through `menus` reaches a root after
/// exactly `s` links.
pub open spec fn at_depth(menus: Seq<Menu>, m: Menu, s: nat) -> bool
    decreases s,
{
    match m.parent_id {
        None => s == 0,
        Some(_) => s > 0 && has_parent_in(menus, m) && at_depth(
            menus,
            parent_in(menus, m),
            (s - 1) as nat,
        ),
    }
}

/// `m`'s chain of parents in `menus` ends at a root.
pub open spec fn reachable(menus: Seq<Menu>, m: Menu) -> bool {
    exists|s: nat| at_depth(menus, m, s)
}

/// The number of records of `menus` that are reachable from a root.
pub open spec fn reachable_count(menus: Seq<Menu>) -> nat {
    menus.filter(|m: Menu| reachable(menus, m)).len()
}

/// The number of nodes of the forest `f`, counting `depth` levels below its
/// top.
pub open spec fn forest_size(f: Seq<MenuTree>, depth: nat) -> nat
    decreases depth, f.len(),
{
    if f.len() == 0 {
        0
    } else {
        forest_size(f.drop_last(), depth) + 1 + if depth == 0 {
            0
        } else {
            forest_size(f.last().children@, (depth - 1) as nat)
        }
    }
}

/// The children of the nodes of `ts`, one list after the other.
pub open spec fn children_concat(ts: Seq<MenuTree>) -> Seq<MenuTree>
    decreases ts.len(),
{
    if ts.len() == 0 {
        Seq::empty()
    } else {
        children_concat(ts.drop_last()) + ts.last().children@
    }
}

/// The children in `menus` of the records of `ms`, one list after the other.
pub open spec fn child_lists(menus: Seq<Menu>, ms: Seq<Menu>) -> Seq<Menu>
    decreases ms.len(),
{
    if ms.len() == 0 {
        Seq::empty()
    } else {
        child_lists(menus, ms.drop_last()) + children_of(menus, ms.last().id)
    }
}

/// Whether a menu is at depth `s`.
pub open spec fn depth_pred(menus: Seq<Menu>, s: nat) -> spec_fn(Menu) -> bool {
    |m: Menu| at_depth(menus, m, s)
}

/// The records at depth `s`, in input order.
pub open spec fn level(menus: Seq<Menu>, s: nat) -> Seq<Menu> {
    menus.filter(depth_pred(menus, s))
}

/// The number of records at depths `s` to `menus.len()`.
pub open spec fn levels_from(menus: Seq<Menu>, s: nat) -> nat
    decreases menus.len() + 1 - s,
{
    if s > menus.len() {
        0
    } else {
        level(menus, s).len() + levels_from(menus, s + 1)
    }
}

/// `ms` holds, once each, exactly the records of `menus` at depth `s`.
pub open spec fn is_level(menus: Seq<Menu>, ms: Seq<Menu>, s: nat) -> bool {
    &&& ms.no_duplicates()
    &&& forall|m: Menu| #[trigger] ms.contains(m) <==> (menus.contains(m) && at_depth(menus, m, s))
}

proof fn lemma_unique_ids_no_duplicates(menus: Seq<Menu>)
    requires
        unique_ids(menus),
    ensures
        menus.no_duplicates(),
{
    assert forall|i: int, j: int| 0 <= i < menus.len() && 0 <= j < menus.len() && i != j implies menus[i]
        != menus[j] by {
        if menus[i] == menus[j] {
            assert(menus[i].id == menus[j].id);
        }
    }
}

proof fn lemma_filter_no_duplicates(s: Seq<Menu>, p: spec_fn(Menu) -> bool)
    requires
        s.no_duplicates(),
    ensures
        s.filter(p).no_duplicates(),
        forall|m: Menu| #[trigger] s.filter(p).contains(m) <==> (s.contains(m) && p(m)),
    decreases s.len(),
{
    broadcast use vstd::seq_lib::group_seq_properties;

    if s.len() > 0 {
        let t = s.drop_last();
        assert(s =~= t.push(s.last()));
        assert(t.no_duplicates());
        lemma_filter_no_duplicates(t, p);
        t.lemma_filter_push(s.last(), p);
        assert(!t.contains(s.last()));
        if p(s.last()) {
            let a = t.filter(p);
            let b = a.push(s.last());
            assert(!a.contains(s.last()));
            assert forall|i: int, j: int| 0 <= i < b.len() && 0 <= j < b.len() && i != j implies b[i]
                != b[j] by {
                if i < a.len() && j < a.len() {
                    assert(b[i] == a[i] && b[j] == a[j]);
                } else if i < a.len() {
                    assert(b[i] == a[i]);
                } else {
                    assert(b[j] == a[j]);
                }
            }
        }
        assert forall|m: Menu| #[trigger] s.filter(p).contains(m) <==> (s.contains(m) && p(m)) by {
            if s.contains(m) && m != s.last() {
                let k = choose|k: int| 0 <= k < s.len() && s[k] == m;
                assert(t[k] == m);
            }
        }
    } else {
        assert(s.filter(p) =~= s) by {
            reveal(Seq::filter);
        }
    }
}

proof fn lemma_forest_size_concat(a: Seq<MenuTree>, b: Seq<MenuTree>, d: nat)
    ensures
        forest_size(a + b, d) == forest_size(a, d) + forest_size(b, d),
    decreases b.len(),
{
    if b.len() == 0 {
        assert(a + b =~= a);
    } else {
        assert((a + b).drop_last() =~= a + b.drop_last());
        lemma_forest_size_concat(a, b.drop_last(), d);
    }
}

proof fn lemma_forest_size_by_children(f: Seq<MenuTree>, d: nat)
    ensures
        forest_size(f, d) == f.len() + if d == 0 {
            0
        } else {
            forest_size(children_concat(f), (d - 1) as nat)
        },
    decreases f.len(),
{
    if f.len() > 0 {
        lemma_forest_size_by_children(f.drop_last(), d);
        if d > 0 {
            lemma_forest_size_concat(
                children_concat(f.drop_last()),
                f.last().children@,
                (d - 1) as nat,
            );
        }
    }
}

proof fn lemma_are_trees_of_concat(
    a: Seq<MenuTree>,
    am: Seq<Menu>,
    b: Seq<MenuTree>,
    bm: Seq<Menu>,
    menus: Seq<Menu>,
    d: nat,
)
    requires
        are_trees_of(a, am, menus, d),
        are_trees_of(b, bm, menus, d),
    ensures
        are_trees_of(a + b, am + bm, menus, d),
{
    lemma_are_trees_of(a, am, menus, d);
    lemma_are_trees_of(b, bm, menus, d);
    lemma_are_trees_of(a + b, am + bm, menus, d);
    assert forall|i: int| 0 <= i < (a + b).len() implies #[trigger] is_tree_of(
        (a + b)[i],
        menus,
        (am + bm)[i],
        d,
    ) by {
        if i < a.len() {
            assert(is_tree_of(a[i], menus, am[i], d));
        } else {
            assert(is_tree_of(b[i - a.len()], menus, bm[i - a.len()], d));
        }
    }
}

proof fn lemma_children_are_trees(ts: Seq<MenuTree>, ms: Seq<Menu>, menus: Seq<Menu>, d: nat)
    requires
        d > 0,
        are_trees_of(ts, ms, menus, d),
    ensures
        are_trees_of(children_concat(ts), child_lists(menus, ms), menus, (d - 1) as nat),
    decreases ts.len(),
{
    if ts.len() > 0 {
        lemma_children_are_trees(ts.drop_last(), ms.drop_last(), menus, d);
        assert(is_tree_of(ts.last(), menus, ms.last(), d));
        lemma_are_trees_of_concat(
            children_concat(ts.drop_last()),
            child_lists(menus, ms.drop_last()),
            ts.last().children@,
            children_of(menus, ms.last().id),
            menus,
            (d - 1) as nat,
        );
    }
}

proof fn lemma_child_lists_contains(menus: Seq<Menu>, ms: Seq<Menu>, c: Menu)
    requires
        menus.no_duplicates(),
    ensures
        child_lists(menus, ms).contains(c) <==> (menus.contains(c) && exists|i: int|
            0 <= i < ms.len() && c.parent_id == Some(#[trigger] ms[i].id)),
    decreases ms.len(),
{
    broadcast use vstd::seq_lib::group_seq_properties;

    if ms.len() > 0 {
        let t = ms.drop_last();
        lemma_child_lists_contains(menus, t, c);
        lemma_filter_no_duplicates(menus, child_pred(ms.last().id));
        if exists|i: int| 0 <= i < t.len() && c.parent_id == Some(#[trigger] t[i].id) {
            let i = choose|i: int| 0 <= i < t.len() && c.parent_id == Some(#[trigger] t[i].id);
            assert(ms[i] == t[i]);
        }
        if exists|i: int| 0 <= i < ms.len() && c.parent_id == Some(#[trigger] ms[i].id) {
            let i = choose|i: int| 0 <= i < ms.len() && c.parent_id == Some(#[trigger] ms[i].id);
            if i < t.len() {
                assert(t[i] == ms[i]);
            }
        }
    }
}

proof fn lemma_child_lists_no_duplicates(menus: Seq<Menu>, ms: Seq<Menu>)
    requires
        unique_ids(menus),
        ms.no_duplicates(),
        forall|m: Menu| #[trigger] ms.contains(m) ==> menus.contains(m),
    ensures
        child_lists(menus, ms).no_duplicates(),
    decreases ms.len(),
{
    broadcast use vstd::seq_lib::group_seq_properties;

    lemma_unique_ids_no_duplicates(menus);
    if ms.len() > 0 {
        let t = ms.drop_last();
        let last = ms.last();
        assert forall|m: Menu| #[trigger] t.contains(m) implies menus.contains(m) by {
            let k = choose|k: int| 0 <= k < t.len() && t[k] == m;
            assert(ms[k] == m);
            assert(ms.contains(m));
        }
        lemma_child_lists_no_duplicates(menus, t);
        let a = child_lists(menus, t);
        let b = children_of(menus, last.id);
        lemma_filter_no_duplicates(menus, child_pred(last.id));
        assert forall|i: int, j: int| 0 <= i < a.len() && 0 <= j < b.len() implies a[i] != b[j] by {
            if a[i] == b[j] {
                let c = a[i];
                assert(a.contains(c));
                assert(b.contains(c));
                lemma_child_lists_contains(menus, t, c);
                let k = choose|k: int| 0 <= k < t.len() && c.parent_id == Some(#[trigger] t[k].id);
                assert(t[k].id == last.id);
                assert(t.contains(t[k]));
                assert(ms.contains(last));
                let p = choose|p: int| 0 <= p < menus.len() && menus[p] == t[k];
                let q = choose|q: int| 0 <= q < menus.len() && menus[q] == last;
                assert(menus[p].id == menus[q].id);
                assert(ms[k] == ms[ms.len() - 1]);
            }
        }
        vstd::seq_lib::lemma_no_dup_in_concat(a, b);
    }
}

proof fn lemma_next_level(menus: Seq<Menu>, ms: Seq<Menu>, s: nat)
    requires
        unique_ids(menus),
        is_level(menus, ms, s),
    ensures
        is_level(menus, child_lists(menus, ms), s + 1),
{
    lemma_unique_ids_no_duplicates(menus);
    lemma_child_lists_no_duplicates(menus, ms);
    let cs = child_lists(menus, ms);
    assert forall|c: Menu| #[trigger] cs.contains(c) <==> (menus.contains(c) && at_depth(
        menus,
        c,
        s + 1,
    )) by {
        lemma_child_lists_contains(menus, ms, c);
        if cs.contains(c) {
            let i = choose|i: int| 0 <= i < ms.len() && c.parent_id == Some(#[trigger] ms[i].id);
            let m = ms[i];
            assert(ms.contains(m));
            let p = choose|p: int| 0 <= p < menus.len() && menus[p] == m;
            assert(has_parent_in(menus, c));
            let q = choose|q: int| 0 <= q < menus.len() && c.parent_id == Some(#[trigger] menus[q].id);
            assert(menus[q].id == menus[p].id);
            assert(parent_in(menus, c) == m);
        }
        if menus.contains(c) && at_depth(menus, c, s + 1) {
            let m = parent_in(menus, c);
            let q = choose|q: int| 0 <= q < menus.len() && c.parent_id == Some(#[trigger] menus[q].id);
            assert(menus.contains(m));
            assert(ms.contains(m));
            let i = choose|i: int| 0 <= i < ms.len() && ms[i] == m;
            assert(c.parent_id == Some(ms[i].id));
        }
    }
}

proof fn lemma_level_len(menus: Seq<Menu>, ms: Seq<Menu>, s: nat)
    requires
        unique_ids(menus),
        is_level(menus, ms, s),
    ensures
        ms.len() == level(menus, s).len(),
{
    lemma_unique_ids_no_duplicates(menus);
    lemma_filter_no_duplicates(menus, depth_pred(menus, s));
    let l = level(menus, s);
    assert(ms.to_set() =~= l.to_set());
    ms.unique_seq_to_set();
    l.unique_seq_to_set();
}

proof fn lemma_count_from(ts: Seq<MenuTree>, ms: Seq<Menu>, menus: Seq<Menu>, d: nat, s: nat)
    requires
        unique_ids(menus),
        are_trees_of(ts, ms, menus, d),
        is_level(menus, ms, s),
        s + d == menus.len(),
    ensures
        forest_size(ts, d) == levels_from(menus, s),
    decreases d,
{
    lemma_forest_size_by_children(ts, d);
    lemma_level_len(menus, ms, s);
    if d > 0 {
        lemma_children_are_trees(ts, ms, menus, d);
        lemma_next_level(menus, ms, s);
        lemma_count_from(children_concat(ts), child_lists(menus, ms), menus, (d - 1) as nat, s + 1);
    }
    assert(levels_from(menus, s) == level(menus, s).len() + levels_from(menus, s + 1));
}

/// Counting by depth: a built forest has as many nodes as there are records
/// at depths 0 to `menus.len()` below a root, summed over the depths.
pub proof fn lemma_forest_size_by_depth(f: Seq<MenuTree>, menus: Seq<Menu>)
    requires
        unique_ids(menus),
        is_forest_of(f, menus),
    ensures
        forest_size(f, menus.len()) == levels_from(menus, 0),
{
    broadcast use vstd::seq_lib::group_to_multiset_ensures;

    let top = stable_sort_by(roots(menus), tree_key());
    lemma_are_trees_of(f, top, menus, menus.len());
    lemma_stable_sort_by(roots(menus), tree_key());
    lemma_unique_ids_no_duplicates(menus);
    lemma_filter_no_duplicates(menus, root_pred());
    roots(menus).lemma_multiset_has_no_duplicates();
    top.lemma_multiset_has_no_duplicates_conv();
    assert forall|m: Menu| #[trigger] top.contains(m) <==> (menus.contains(m) && at_depth(
        menus,
        m,
        0,
    )) by {
        assert(top.to_multiset().count(m) == roots(menus).to_multiset().count(m));
    }
    lemma_count_from(f, top, menus, menus.len(), 0);
}

/// The records at depths 0 to `s`.
pub open spec fn upto_pred(menus: Seq<Menu>, s: nat) -> spec_fn(Menu) -> bool {
    |m: Menu| exists|t: nat| t <= s && #[trigger] at_depth(menus, m, t)
}

/// The number of records at depths 0 to `s`, summed depth by depth.
pub open spec fn levels_upto(menus: Seq<Menu>, s: nat) -> nat
    decreases s,
{
    if s == 0 {
        level(menus, 0).len()
    } else {
        levels_upto(menus, (s - 1) as nat) + level(menus, s).len()
    }
}

proof fn lemma_depth_unique(menus: Seq<Menu>, m: Menu, s1: nat, s2: nat)
    requires
        at_depth(menus, m, s1),
        at_depth(menus, m, s2),
    ensures
        s1 == s2,
    decreases s1,
{
    if m.parent_id is Some {
        lemma_depth_unique(menus, parent_in(menus, m), (s1 - 1) as nat, (s2 - 1) as nat);
    }
}

proof fn lemma_filter_or_len(
    s: Seq<Menu>,
    p: spec_fn(Menu) -> bool,
    q: spec_fn(Menu) -> bool,
    r: spec_fn(Menu) -> bool,
)
    requires
        forall|x: Menu| #[trigger] r(x) == (p(x) || q(x)),
        forall|x: Menu| !(#[trigger] p(x) && q(x)),
    ensures
        s.filter(r).len() == s.filter(p).len() + s.filter(q).len(),
    decreases s.len(),
{
    if s.len() == 0 {
        reveal(Seq::filter);
    } else {
        let t = s.drop_last();
        assert(s =~= t.push(s.last()));
        lemma_filter_or_len(t, p, q, r);
        t.lemma_filter_push(s.last(), p);
        t.lemma_filter_push(s.last(), q);
        t.lemma_filter_push(s.last(), r);
    }
}

proof fn lemma_filter_agree(s: Seq<Menu>, p: spec_fn(Menu) -> bool, q: spec_fn(Menu) -> bool)
    requires
        forall|i: int| 0 <= i < s.len() ==> p(#[trigger] s[i]) == q(s[i]),
    ensures
        s.filter(p) == s.filter(q),
    decreases s.len(),
{
    if s.len() == 0 {
        reveal(Seq::filter);
    } else {
        let t = s.drop_last();
        assert(s =~= t.push(s.last()));
        assert forall|i: int| 0 <= i < t.len() implies p(#[trigger] t[i]) == q(t[i]) by {
            assert(t[i] == s[i]);
        }
        lemma_filter_agree(t, p, q);
        t.lemma_filter_push(s.last(), p);
        t.lemma_filter_push(s.last(), q);
        assert(p(s[s.len() - 1]) == q(s[s.len() - 1]));
    }
}

proof fn lemma_levels_upto(menus: Seq<Menu>, s: nat)
    ensures
        levels_upto(menus, s) == menus.filter(upto_pred(menus, s)).len(),
    decreases s,
{
    if s == 0 {
        assert(upto_pred(menus, 0) =~= depth_pred(menus, 0)) by {
            assert forall|m: Menu| #[trigger] upto_pred(menus, 0)(m) == depth_pred(menus, 0)(m) by {
                if upto_pred(menus, 0)(m) {
                    let t = choose|t: nat| t <= 0 && #[trigger] at_depth(menus, m, t);
                }
            }
        }
    } else {
        lemma_levels_upto(menus, (s - 1) as nat);
        let p = upto_pred(menus, (s - 1) as nat);
        let q = depth_pred(menus, s);
        let r = upto_pred(menus, s);
        assert forall|m: Menu| #[trigger] r(m) == (p(m) || q(m)) by {
            if r(m) {
                let t = choose|t: nat| t <= s && #[trigger] at_depth(menus, m, t);
                if t < s {
                    assert(p(m));
                }
            }
            if q(m) {
                assert(at_depth(menus, m, s));
            }
        }
        assert forall|m: Menu| !(#[trigger] p(m) && q(m)) by {
            if p(m) && q(m) {
                let t = choose|t: nat| t <= s - 1 && #[trigger] at_depth(menus, m, t);
                lemma_depth_unique(menus, m, t, s);
            }
        }
        lemma_filter_or_len(menus, p, q, r);
    }
}

proof fn lemma_levels_from_upto(menus: Seq<Menu>, s: nat)
    requires
        s <= menus.len() + 1,
    ensures
        levels_from(menus, s) + (if s == 0 {
            0
        } else {
            levels_upto(menus, (s - 1) as nat)
        }) == levels_upto(menus, menus.len()),
    decreases menus.len() + 1 - s,
{
    if s <= menus.len() {
        lemma_levels_from_upto(menus, s + 1);
    }
}

proof fn lemma_ancestor_at(menus: Seq<Menu>, m: Menu, t: nat, u: nat)
    requires
        menus.contains(m),
        at_depth(menus, m, t),
        u <= t,
    ensures
        menus.filter(depth_pred(menus, u)).len() > 0,
    decreases t - u,
{
    if u == t {
        let k = choose|k: int| 0 <= k < menus.len() && menus[k] == m;
        menus.lemma_filter_contains(depth_pred(menus, u), k);
    } else {
        let p = parent_in(menus, m);
        let k = choose|k: int| 0 <= k < menus.len() && m.parent_id == Some(#[trigger] menus[k].id);
        assert(menus.contains(p));
        lemma_ancestor_at(menus, p, (t - 1) as nat, u);
    }
}

proof fn lemma_depth_bound(menus: Seq<Menu>, m: Menu, t: nat)
    requires
        menus.contains(m),
        at_depth(menus, m, t),
    ensures
        t < menus.len(),
{
    assert forall|u: nat| u <= t implies #[trigger] level(menus, u).len() > 0 by {
        lemma_ancestor_at(menus, m, t, u);
    }
    lemma_levels_upto_lower(menus, t);
    lemma_levels_upto(menus, t);
    menus.filter_lemma(upto_pred(menus, t));
}

proof fn lemma_levels_upto_lower(menus: Seq<Menu>, t: nat)
    requires
        forall|u: nat| u <= t ==> #[trigger] level(menus, u).len() > 0,
    ensures
        levels_upto(menus, t) >= t + 1,
    decreases t,
{
    assert(level(menus, t).len() > 0);
    if t > 0 {
        lemma_levels_upto_lower(menus, (t - 1) as nat);
    }
}

/// A built forest holds each record that is reachable from a root exactly
/// once, and nothing else: its node count (summed over every level) equals
/// the number of reachable input records. Orphans, and records below them,
/// are not counted.
pub proof fn lemma_forest_counts_reachable(f: Seq<MenuTree>, menus: Seq<Menu>)
    requires
        unique_ids(menus),
        is_forest_of(f, menus),
    ensures
        forest_size(f, menus.len()) == reachable_count(menus),
{
    let n = menus.len();
    lemma_forest_size_by_depth(f, menus);
    lemma_levels_from_upto(menus, 0);
    lemma_levels_upto(menus, n);
    let reach = |m: Menu| reachable(menus, m);
    assert forall|i: int| 0 <= i < menus.len() implies upto_pred(menus, n)(#[trigger] menus[i])
        == reach(menus[i]) by {
        let m = menus[i];
        if reach(m) {
            let t = choose|t: nat| #[trigger] at_depth(menus, m, t);
            assert(menus.contains(m));
            lemma_depth_bound(menus, m, t);
            assert(upto_pred(menus, n)(m));
        }
    }
    lemma_filter_agree(menus, upto_pred(menus, n), reach);
}

} // verus!
