use vstd::prelude::*;
use crate::domain::{clone_text, Menu};

verus! {

/// A menu node with its children attached: the nested view of the flat
/// menu records that the API returns.
#[derive(Debug)]
pub struct MenuTree {
    pub id: i64,
    pub name: String,
    pub menu_type: i32,
    pub url: Option<String>,
    pub icon: Option<String>,
    pub sort: Option<i32>,
    pub parent_id: Option<i64>,
    pub create_at: Option<String>,
    pub update_at: Option<String>,
    pub children: Vec<MenuTree>,
}

/// The sibling-order key of a menu: its `sort`, or 0 when it has none.
pub open spec fn sort_key(m: Menu) -> int {
    match m.sort {
        Some(s) => s as int,
        None => 0,
    }
}

/// The sibling-order key of a tree node, as for a menu.
pub open spec fn node_sort_key(t: MenuTree) -> int {
    match t.sort {
        Some(s) => s as int,
        None => 0,
    }
}

/// Whether a menu is a root (has no parent).
pub open spec fn root_pred() -> spec_fn(Menu) -> bool {
    |m: Menu| m.parent_id is None
}

/// Whether a menu names `id` as its parent.
pub open spec fn child_pred(id: i64) -> spec_fn(Menu) -> bool {
    |m: Menu| m.parent_id == Some(id)
}

/// The menus without a parent, in input order.
pub open spec fn roots(menus: Seq<Menu>) -> Seq<Menu> {
    menus.filter(root_pred())
}

/// The menus whose parent is `id`, in input order.
pub open spec fn children_of(menus: Seq<Menu>, id: i64) -> Seq<Menu> {
    menus.filter(child_pred(id))
}

/// The key by which the tree orders its roots.
pub open spec fn tree_key() -> spec_fn(Menu) -> int {
    |m: Menu| sort_key(m)
}

/// `x` inserted into `s` before the first element with a larger key.
pub open spec fn insert_by(x: Menu, s: Seq<Menu>, key: spec_fn(Menu) -> int) -> Seq<Menu>
    decreases s.len(),
{
    if s.len() == 0 {
        seq![x]
    } else if key(x) < key(s[0]) {
        seq![x] + s
    } else {
        seq![s[0]] + insert_by(x, s.drop_first(), key)
    }
}

/// `s` stably sorted by `key`: elements with equal keys keep their
/// relative order.
pub open spec fn stable_sort_by(s: Seq<Menu>, key: spec_fn(Menu) -> int) -> Seq<Menu>
    decreases s.len(),
{
    if s.len() == 0 {
        s
    } else {
        insert_by(s.last(), stable_sort_by(s.drop_last(), key), key)
    }
}

/// `s` is in non-decreasing order of `key`.
pub open spec fn sorted_by(s: Seq<Menu>, key: spec_fn(Menu) -> int) -> bool {
    forall|i: int, j: int| 0 <= i < j < s.len() ==> key(s[i]) <= key(s[j])
}

/// The node carries exactly the fields of the record.
pub open spec fn same_record(t: MenuTree, m: Menu) -> bool {
    &&& t.id == m.id
    &&& t.name == m.name
    &&& t.menu_type == m.menu_type
    &&& t.url == m.url
    &&& t.icon == m.icon
    &&& t.sort == m.sort
    &&& t.parent_id == m.parent_id
    &&& t.create_at == m.create_at
    &&& t.update_at == m.update_at
}

/// `t` is the tree of `m` over `menus`, resolved to `depth` levels below `m`:
/// its children are the trees of the menus whose parent is `m`, in input
/// order (children are not re-sorted).
pub open spec fn is_tree_of(t: MenuTree, menus: Seq<Menu>, m: Menu, depth: nat) -> bool
    decreases depth, 0nat,
{
    &&& same_record(t, m)
    &&& if depth == 0 {
        t.children@.len() == 0
    } else {
        are_trees_of(t.children@, children_of(menus, m.id), menus, (depth - 1) as nat)
    }
}

/// Each `ts[i]` is the tree of `ms[i]` over `menus`, to `depth` levels.
pub open spec fn are_trees_of(ts: Seq<MenuTree>, ms: Seq<Menu>, menus: Seq<Menu>, depth: nat) -> bool
    decreases depth, ts.len() + 1,
{
    &&& ts.len() == ms.len()
    &&& ts.len() > 0 ==> {
        &&& are_trees_of(ts.drop_last(), ms.drop_last(), menus, depth)
        &&& is_tree_of(ts.last(), menus, ms.last(), depth)
    }
}

/// The element-wise reading of `are_trees_of`.
pub proof fn lemma_are_trees_of(ts: Seq<MenuTree>, ms: Seq<Menu>, menus: Seq<Menu>, depth: nat)
    ensures
        are_trees_of(ts, ms, menus, depth) <==> (ts.len() == ms.len() && forall|i: int|
            0 <= i < ts.len() ==> #[trigger] is_tree_of(ts[i], menus, ms[i], depth)),
    decreases ts.len(),
{
    if ts.len() > 0 && ts.len() == ms.len() {
        lemma_are_trees_of(ts.drop_last(), ms.drop_last(), menus, depth);
        if forall|i: int| 0 <= i < ts.len() ==> #[trigger] is_tree_of(ts[i], menus, ms[i], depth) {
            assert forall|i: int| 0 <= i < ts.len() - 1 implies #[trigger] is_tree_of(
                ts.drop_last()[i],
                menus,
                ms.drop_last()[i],
                depth,
            ) by {
                assert(is_tree_of(ts[i], menus, ms[i], depth));
            }
            assert(is_tree_of(ts[ts.len() - 1], menus, ms[ms.len() - 1], depth));
        }
        if are_trees_of(ts, ms, menus, depth) {
            assert forall|i: int| 0 <= i < ts.len() implies #[trigger] is_tree_of(
                ts[i],
                menus,
                ms[i],
                depth,
            ) by {
                if i < ts.len() - 1 {
                    assert(is_tree_of(ts.drop_last()[i], menus, ms.drop_last()[i], depth));
                }
            }
        }
    }
}

/// `f` is the forest built from `menus`: one tree per root, roots stably
/// sorted by key, each resolved as deep as there are menus.
pub open spec fn is_forest_of(f: Seq<MenuTree>, menus: Seq<Menu>) -> bool {
    let top = stable_sort_by(roots(menus), tree_key());
    &&& f.len() == top.len()
    &&& forall|i: int|
        0 <= i < top.len() ==> #[trigger] is_tree_of(f[i], menus, top[i], menus.len())
}

/// Inserting before the first larger key is `insert_by`.
pub proof fn lemma_insert_by_at(x: Menu, s: Seq<Menu>, key: spec_fn(Menu) -> int, pos: int)
    requires
        0 <= pos <= s.len(),
        forall|q: int| 0 <= q < pos ==> key(#[trigger] s[q]) <= key(x),
        pos < s.len() ==> key(x) < key(s[pos]),
    ensures
        insert_by(x, s, key) == s.insert(pos, x),
    decreases s.len(),
{
    if s.len() == 0 {
        assert(s.insert(pos, x) =~= seq![x]);
    } else if pos == 0 {
        assert(s.insert(pos, x) =~= seq![x] + s);
    } else {
        let t = s.drop_first();
        assert forall|q: int| 0 <= q < pos - 1 implies key(#[trigger] t[q]) <= key(x) by {
            assert(t[q] == s[q + 1]);
        }
        lemma_insert_by_at(x, t, key, pos - 1);
        assert(s.insert(pos, x) =~= seq![s[0]] + t.insert(pos - 1, x));
    }
}

/// `insert_by` keeps a sorted sequence sorted, and adds exactly `x`.
pub proof fn lemma_insert_by_sorted(x: Menu, s: Seq<Menu>, key: spec_fn(Menu) -> int)
    requires
        sorted_by(s, key),
    ensures
        sorted_by(insert_by(x, s, key), key),
        insert_by(x, s, key).len() == s.len() + 1,
        insert_by(x, s, key).to_multiset() == s.to_multiset().insert(x),
    decreases s.len(),
{
    broadcast use vstd::seq_lib::group_to_multiset_ensures;
    let r = insert_by(x, s, key);
    if s.len() == 0 {
        assert(r =~= seq![x]);
        assert(seq![x] =~= Seq::<Menu>::empty().push(x));
    } else if key(x) < key(s[0]) {
        assert(r =~= seq![x] + s);
        vstd::seq_lib::lemma_multiset_commutative(seq![x], s);
        assert(seq![x] =~= Seq::<Menu>::empty().push(x));
    } else {
        let t = s.drop_first();
        assert(sorted_by(t, key)) by {
            assert forall|i: int, j: int| 0 <= i < j < t.len() implies key(t[i]) <= key(t[j]) by {
                assert(t[i] == s[i + 1] && t[j] == s[j + 1]);
            }
        }
        lemma_insert_by_sorted(x, t, key);
        let rt = insert_by(x, t, key);
        assert(r =~= seq![s[0]] + rt);
        assert forall|i: int, j: int| 0 <= i < j < r.len() implies key(r[i]) <= key(r[j]) by {
            if i == 0 {
                // every element of rt is x or an element of t, all at least key(s[0])
                assert(rt.to_multiset().count(r[j]) > 0) by {
                    assert(r[j] == rt[j - 1]);
                    assert(rt.contains(r[j]));
                }
                assert(rt.to_multiset().count(r[j]) == t.to_multiset().insert(x).count(r[j]));
                if r[j] != x {
                    assert(t.to_multiset().count(r[j]) > 0);
                    assert(t.contains(r[j]));
                    let k = choose|k: int| 0 <= k < t.len() && t[k] == r[j];
                    assert(t[k] == s[k + 1]);
                }
            } else {
                assert(r[i] == rt[i - 1] && r[j] == rt[j - 1]);
            }
        }
        vstd::seq_lib::lemma_multiset_commutative(seq![s[0]], rt);
        vstd::seq_lib::lemma_multiset_commutative(seq![s[0]], t);
        assert(s =~= seq![s[0]] + t);
    }
}

/// A stable sort is sorted, and is a permutation of its input.
pub proof fn lemma_stable_sort_by(s: Seq<Menu>, key: spec_fn(Menu) -> int)
    ensures
        sorted_by(stable_sort_by(s, key), key),
        stable_sort_by(s, key).len() == s.len(),
        stable_sort_by(s, key).to_multiset() == s.to_multiset(),
    decreases s.len(),
{
    broadcast use vstd::seq_lib::group_to_multiset_ensures;
    if s.len() > 0 {
        lemma_stable_sort_by(s.drop_last(), key);
        lemma_insert_by_sorted(s.last(), stable_sort_by(s.drop_last(), key), key);
        assert(s =~= s.drop_last().push(s.last()));
    }
}

impl MenuTree {
    /// The node of `m`, with no children yet.
    pub fn leaf(m: &Menu) -> (t: MenuTree)
        ensures
            same_record(t, *m),
            t.children@.len() == 0,
    {
        MenuTree {
            id: m.id,
            name: m.name.clone(),
            menu_type: m.menu_type,
            url: clone_text(&m.url),
            icon: clone_text(&m.icon),
            sort: m.sort,
            parent_id: m.parent_id,
            create_at: clone_text(&m.create_at),
            update_at: clone_text(&m.update_at),
            children: Vec::new(),
        }
    }

    /// The sibling-order key of this node.
    pub fn sort_value(&self) -> (r: i32)
        ensures
            r as int == node_sort_key(*self),
    {
        match self.sort {
            Some(s) => s,
            None => 0,
        }
    }
}

/// The tree of `menus[idx]`, resolved `depth` levels down; below that depth
/// nodes are left without children, which bounds the recursion.
pub fn build_subtree(menus: &Vec<Menu>, idx: usize, depth: usize) -> (t: MenuTree)
    requires
        idx < menus@.len(),
    ensures
        is_tree_of(t, menus@, menus@[idx as int], depth as nat),
    decreases depth,
{
    let mut node = MenuTree::leaf(&menus[idx]);
    if depth == 0 {
        return node;
    }
    let pid = menus[idx].id;
    let ghost pred = child_pred(pid);
    let mut children: Vec<MenuTree> = Vec::new();
    let mut j: usize = 0;
    while j < menus.len()
        invariant
            j <= menus@.len(),
            depth > 0,
            pred == child_pred(pid),
            children@.len() == menus@.take(j as int).filter(pred).len(),
            forall|k: int|
                0 <= k < children@.len() ==> #[trigger] is_tree_of(
                    children@[k],
                    menus@,
                    menus@.take(j as int).filter(pred)[k],
                    (depth - 1) as nat,
                ),
        decreases menus@.len() - j,
    {
        proof {
            assert(menus@.take(j as int + 1) =~= menus@.take(j as int).push(menus@[j as int]));
            menus@.take(j as int).lemma_filter_push(menus@[j as int], pred);
        }
        if let Some(p) = menus[j].parent_id {
            if p == pid {
                let c = build_subtree(menus, j, depth - 1);
                children.push(c);
            }
        }
        j += 1;
    }
    proof {
        assert(menus@.take(menus@.len() as int) =~= menus@);
    }
    node.children = children;
    proof {
        lemma_are_trees_of(node.children@, menus@.filter(pred), menus@, (depth - 1) as nat);
    }
    node
}

/// Builds the nested menu forest from flat records.
///
/// Each root (a menu without parent) becomes a tree whose children are the
/// menus naming it as parent, recursively, in input order. The roots are
/// then stably sorted by `sort` (missing counts as 0). A menu whose parent
/// chain does not lead to a root in `menus` appears nowhere.
pub fn build_menu_tree(menus: &Vec<Menu>) -> (r: Vec<MenuTree>)
    ensures
        is_forest_of(r@, menus@),
{
    let n = menus.len();
    let ghost pred = root_pred();
    let mut tree: Vec<MenuTree> = Vec::new();
    let ghost mut top: Seq<Menu> = seq![];
    let mut i: usize = 0;
    while i < n
        invariant
            n == menus@.len(),
            i <= n,
            pred == root_pred(),
            top == stable_sort_by(menus@.take(i as int).filter(pred), tree_key()),
            tree@.len() == top.len(),
            forall|k: int|
                0 <= k < top.len() ==> #[trigger] is_tree_of(tree@[k], menus@, top[k], n as nat),
        decreases n - i,
    {
        let ghost prefix = menus@.take(i as int).filter(pred);
        proof {
            assert(menus@.take(i as int + 1) =~= menus@.take(i as int).push(menus@[i as int]));
            menus@.take(i as int).lemma_filter_push(menus@[i as int], pred);
        }
        if menus[i].parent_id.is_none() {
            let node = build_subtree(menus, i, n);
            let key: i32 = match menus[i].sort {
                Some(s) => s,
                None => 0,
            };
            let mut pos: usize = 0;
            while pos < tree.len() && tree[pos].sort_value() <= key
                invariant
                    pos <= tree@.len(),
                    tree@.len() == top.len(),
                    key as int == sort_key(menus@[i as int]),
                    forall|k: int|
                        0 <= k < top.len() ==> #[trigger] is_tree_of(
                            tree@[k],
                            menus@,
                            top[k],
                            n as nat,
                        ),
                    forall|q: int| 0 <= q < pos ==> sort_key(#[trigger] top[q]) <= key,
                decreases tree@.len() - pos,
            {
                assert(is_tree_of(tree@[pos as int], menus@, top[pos as int], n as nat));
                pos += 1;
            }
            proof {
                if pos < tree@.len() {
                    assert(is_tree_of(tree@[pos as int], menus@, top[pos as int], n as nat));
                }
                lemma_insert_by_at(menus@[i as int], top, tree_key(), pos as int);
                let pushed = prefix.push(menus@[i as int]);
                assert(pushed.drop_last() =~= prefix);
            }
            let ghost old_tree = tree@;
            tree.insert(pos, node);
            proof {
                let old_top = top;
                top = top.insert(pos as int, menus@[i as int]);
                assert forall|k: int| 0 <= k < top.len() implies #[trigger] is_tree_of(
                    tree@[k],
                    menus@,
                    top[k],
                    n as nat,
                ) by {
                    if k < pos {
                        assert(tree@[k] == old_tree[k]);
                        assert(top[k] == old_top[k]);
                    } else if k > pos {
                        assert(tree@[k] == old_tree[k - 1]);
                        assert(top[k] == old_top[k - 1]);
                    }
                }
            }
        }
        i += 1;
    }
    proof {
        assert(menus@.take(n as int) =~= menus@);
    }
    tree
}

/// Order in a built forest: the roots come in non-decreasing `sort` order
/// (a missing `sort` counting as 0); below the top level nothing is
/// re-sorted, each node's children being the menus that name it as parent,
/// in input order.
pub proof fn lemma_forest_order(f: Seq<MenuTree>, menus: Seq<Menu>)
    requires
        is_forest_of(f, menus),
    ensures
        forall|i: int, j: int|
            0 <= i < j < f.len() ==> node_sort_key(#[trigger] f[i]) <= node_sort_key(#[trigger] f[j]),
        menus.len() > 0 ==> forall|i: int|
            0 <= i < f.len() ==> #[trigger] are_trees_of(
                f[i].children@,
                children_of(menus, f[i].id),
                menus,
                (menus.len() - 1) as nat,
            ),
{
    let top = stable_sort_by(roots(menus), tree_key());
    lemma_stable_sort_by(roots(menus), tree_key());
    assert forall|i: int, j: int| 0 <= i < j < f.len() implies node_sort_key(#[trigger] f[i])
        <= node_sort_key(#[trigger] f[j]) by {
        assert(is_tree_of(f[i], menus, top[i], menus.len()));
        assert(is_tree_of(f[j], menus, top[j], menus.len()));
        assert(tree_key()(top[i]) <= tree_key()(top[j]));
    }
    if menus.len() > 0 {
        assert forall|i: int| 0 <= i < f.len() implies #[trigger] are_trees_of(
            f[i].children@,
            children_of(menus, f[i].id),
            menus,
            (menus.len() - 1) as nat,
        ) by {
            assert(is_tree_of(f[i], menus, top[i], menus.len()));
        }
    }
}

/// The menus whose id is among `ids`.
pub open spec fn in_ids(ids: Seq<i64>) -> spec_fn(Menu) -> bool {
    |m: Menu| ids.contains(m.id)
}

/// Whether `x` occurs in `v`.
pub fn contains_id(v: &Vec<i64>, x: i64) -> (r: bool)
    ensures
        r == v@.contains(x),
{
    let mut i: usize = 0;
    while i < v.len()
        invariant
            i <= v@.len(),
            forall|k: int| 0 <= k < i ==> v@[k] != x,
        decreases v@.len() - i,
    {
        if v[i] == x {
            return true;
        }
        i += 1;
    }
    false
}

/// The menus whose id is among `ids`, in input order.
pub fn filter_menus_by_ids(menus: &Vec<Menu>, ids: &Vec<i64>) -> (r: Vec<Menu>)
    ensures
        r@ == menus@.filter(in_ids(ids@)),
{
    let ghost pred = in_ids(ids@);
    let mut out: Vec<Menu> = Vec::new();
    let mut i: usize = 0;
    while i < menus.len()
        invariant
            i <= menus@.len(),
            pred == in_ids(ids@),
            out@ == menus@.take(i as int).filter(pred),
        decreases menus@.len() - i,
    {
        proof {
            assert(menus@.take(i as int + 1) =~= menus@.take(i as int).push(menus@[i as int]));
            menus@.take(i as int).lemma_filter_push(menus@[i as int], pred);
        }
        if contains_id(ids, menus[i].id) {
            out.push(menus[i].copy());
        }
        i += 1;
    }
    proof {
        assert(menus@.take(menus@.len() as int) =~= menus@);
    }
    out
}

} // verus!
