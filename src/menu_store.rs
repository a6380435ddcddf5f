use vstd::prelude::*;
use crate::api::{menu_patch_problem, menu_problem, CreateMenuBody, UpdateMenuBody};
use crate::domain::{clone_text, Menu};
use crate::error::{rejects, DomainError};
use crate::menu_tree::{
    build_menu_tree, contains_id, filter_menus_by_ids, in_ids, is_forest_of, lemma_insert_by_at,
    stable_sort_by, MenuTree,
};

verus! {

/// The order key of stored rows: `sort` ascending, a missing `sort` first.
pub open spec fn row_key(m: Menu) -> int {
    match m.sort {
        Some(s) => s as int,
        None => i32::MIN as int - 1,
    }
}

/// `row_key` as a function value.
pub open spec fn row_order() -> spec_fn(Menu) -> int {
    |m: Menu| row_key(m)
}

/// Row ids strictly increase along the sequence (so they are unique).
pub open spec fn ids_increasing(rows: Seq<Menu>) -> bool {
    forall|i: int, j: int| 0 <= i < j < rows.len() ==> rows[i].id < rows[j].id
}

/// Some row has id `id`.
pub open spec fn has_menu(rows: Seq<Menu>, id: i64) -> bool {
    exists|i: int| 0 <= i < rows.len() && rows[i].id == id
}

/// The row that a creation with `b` stores under `id`.
pub open spec fn created(id: i64, b: CreateMenuBody) -> Menu {
    Menu {
        id,
        name: b.name,
        menu_type: b.menu_type,
        url: b.url,
        icon: b.icon,
        sort: b.sort,
        parent_id: b.parent_id,
        create_at: None,
        update_at: None,
    }
}

/// `m` with the fields that `p` gives overwritten, the others kept.
pub open spec fn patched(m: Menu, p: UpdateMenuBody) -> Menu {
    Menu {
        id: m.id,
        name: match p.name {
            Some(n) => n,
            None => m.name,
        },
        menu_type: match p.menu_type {
            Some(t) => t,
            None => m.menu_type,
        },
        url: if p.url is Some { p.url } else { m.url },
        icon: if p.icon is Some { p.icon } else { m.icon },
        sort: if p.sort is Some { p.sort } else { m.sort },
        parent_id: if p.parent_id is Some { p.parent_id } else { m.parent_id },
        create_at: m.create_at,
        update_at: m.update_at,
    }
}

/// The row update of `update_menu`: the row `id` patched, the others kept.
pub open spec fn patch_row(id: i64, p: UpdateMenuBody) -> spec_fn(Menu) -> Menu {
    |m: Menu| if m.id == id { patched(m, p) } else { m }
}

/// The rows kept by a deletion of `id`.
pub open spec fn other_id(id: i64) -> spec_fn(Menu) -> bool {
    |m: Menu| m.id != id
}

/// The ids of the menus linked to `role`.
pub open spec fn menu_ids_of(links: Set<(i64, i64)>, role: i64) -> Set<i64> {
    Set::new(|m: i64| links.contains((role, m)))
}

/// The links after the link set of `role` is replaced by `ids`: the links of
/// other roles are kept, and `role` is linked to exactly the ids in `ids`.
pub open spec fn replace_role_links(links: Set<(i64, i64)>, role: i64, ids: Seq<i64>) -> Set<
    (i64, i64),
> {
    Set::new(|p: (i64, i64)| if p.0 == role { ids.contains(p.1) } else { links.contains(p) })
}

/// The menus that `links` grants to `role`.
pub open spec fn linked_to(links: Set<(i64, i64)>, role: i64) -> spec_fn(Menu) -> bool {
    |m: Menu| links.contains((role, m.id))
}

/// `v` is strictly increasing.
pub open spec fn strictly_increasing(v: Seq<i64>) -> bool {
    forall|i: int, j: int| 0 <= i < j < v.len() ==> v[i] < v[j]
}

/// The menu store: menu records, and the links that grant menus to roles.
///
/// Rows are kept in creation order, so their ids increase; ids are assigned
/// from a counter and never reused. A link is a (role id, menu id) pair; the
/// store does not require either side to exist. The store keeps no clock:
/// creation and update times are left as they are given (absent for new
/// rows), never taken from a caller's body.
pub struct MenuStore {
    menus: Vec<Menu>,
    links: Vec<(i64, i64)>,
    next_id: i64,
}

/// The store order key of a row.
fn row_key_value(m: &Menu) -> (r: i64)
    ensures
        r as int == row_key(*m),
{
    match m.sort {
        Some(s) => s as i64,
        None => i32::MIN as i64 - 1,
    }
}

/// Membership in a prefix one element longer.
proof fn lemma_take_one_more<A>(s: Seq<A>, k: int, x: A)
    requires
        0 <= k < s.len(),
    ensures
        s.take(k + 1).contains(x) <==> (s.take(k).contains(x) || s[k] == x),
{
    let next = s.take(k + 1);
    if next.contains(x) {
        let q = choose|q: int| 0 <= q < next.len() && next[q] == x;
        if q < k {
            assert(s.take(k)[q] == x);
        }
    }
    if s.take(k).contains(x) {
        let q = choose|q: int| 0 <= q < k && s.take(k)[q] == x;
        assert(next[q] == x);
    }
    if s[k] == x {
        assert(next[k] == x);
    }
}

/// Adds `x` to a strictly increasing `v`, keeping it strictly increasing.
fn insert_ascending(v: &mut Vec<i64>, x: i64)
    requires
        strictly_increasing(old(v)@),
    ensures
        strictly_increasing(final(v)@),
        forall|y: i64| final(v)@.contains(y) <==> (old(v)@.contains(y) || y == x),
{
    let mut pos: usize = 0;
    while pos < v.len() && v[pos] < x
        invariant
            v@ == old(v)@,
            pos <= v@.len(),
            forall|q: int| 0 <= q < pos ==> v@[q] < x,
        decreases v@.len() - pos,
    {
        pos += 1;
    }
    if pos < v.len() && v[pos] == x {
        assert(v@[pos as int] == x);
        return;
    }
    let ghost before = v@;
    v.insert(pos, x);
    proof {
        assert forall|y: i64| v@.contains(y) <==> (before.contains(y) || y == x) by {
            if v@.contains(y) {
                let k = choose|k: int| 0 <= k < v@.len() && v@[k] == y;
                if k < pos {
                    assert(before[k] == y);
                } else if k > pos {
                    assert(before[k - 1] == y);
                }
            }
            if before.contains(y) {
                let k = choose|k: int| 0 <= k < before.len() && before[k] == y;
                if k < pos {
                    assert(v@[k] == y);
                } else {
                    assert(v@[k + 1] == y);
                }
            }
            if y == x {
                assert(v@[pos as int] == x);
            }
        }
        assert(before == old(v)@);
        assert(forall|y: i64| v@.contains(y) <==> (old(v)@.contains(y) || y == x));
    }
}

impl MenuStore {
    /// The stored menu rows, in creation order.
    pub closed spec fn rows(&self) -> Seq<Menu> {
        self.menus@
    }

    /// The stored (role id, menu id) links.
    pub closed spec fn links(&self) -> Set<(i64, i64)> {
        self.links@.to_set()
    }

    /// The id that the next created menu receives.
    pub closed spec fn next_id(&self) -> i64 {
        self.next_id
    }

    /// Well-formedness: row ids increase and lie below the next id.
    pub closed spec fn wf(&self) -> bool {
        &&& ids_increasing(self.menus@)
        &&& self.next_id >= 1
        &&& forall|i: int| 0 <= i < self.menus@.len() ==> #[trigger] self.menus@[i].id < self.next_id
    }

    /// An empty store; the first menu gets id 1.
    pub fn new() -> (s: MenuStore)
        ensures
            s.wf(),
            s.rows() == Seq::<Menu>::empty(),
            s.links() == Set::<(i64, i64)>::empty(),
            s.next_id() == 1,
    {
        let s = MenuStore { menus: Vec::new(), links: Vec::new(), next_id: 1 };
        assert(s.links@.to_set() =~= Set::<(i64, i64)>::empty());
        s
    }

    /// Creates a menu from `body` and returns its id.
    ///
    /// Fails with `InvalidInput` when the name is blank or the kind is not
    /// 1, 2 or 3, and with `Internal` when the ids are exhausted.
    pub fn create_menu(&mut self, body: CreateMenuBody) -> (r: Result<i64, DomainError>)
        requires
            old(self).wf(),
        ensures
            final(self).wf(),
            final(self).links() == old(self).links(),
            match menu_problem(body.name@, body.menu_type) {
                Some(msg) => {
                    &&& rejects(r, msg)
                    &&& final(self).rows() == old(self).rows()
                    &&& final(self).next_id() == old(self).next_id()
                },
                None => if old(self).next_id() == i64::MAX {
                    &&& r is Err
                    &&& r->Err_0 is Internal
                    &&& final(self).rows() == old(self).rows()
                    &&& final(self).next_id() == old(self).next_id()
                } else {
                    &&& r == Ok::<i64, DomainError>(old(self).next_id())
                    &&& final(self).rows() == old(self).rows().push(
                        created(old(self).next_id(), body),
                    )
                    &&& final(self).next_id() == old(self).next_id() + 1
                },
            },
    {
        if let Err(e) = body.validate() {
            return Err(e);
        }
        if self.next_id == i64::MAX {
            return Err(DomainError::Internal(String::from_str("menu ids exhausted")));
        }
        let id = self.next_id;
        let row = Menu {
            id,
            name: body.name,
            menu_type: body.menu_type,
            url: body.url,
            icon: body.icon,
            sort: body.sort,
            parent_id: body.parent_id,
            create_at: None,
            update_at: None,
        };
        self.menus.push(row);
        self.next_id = id + 1;
        Ok(id)
    }

    /// The index of the row with id `id`, if there is one.
    fn position(&self, id: i64) -> (r: Option<usize>)
        requires
            self.wf(),
        ensures
            match r {
                Some(k) => k < self.rows().len() && self.rows()[k as int].id == id,
                None => !has_menu(self.rows(), id),
            },
    {
        let mut k: usize = 0;
        while k < self.menus.len()
            invariant
                k <= self.menus@.len(),
                forall|q: int| 0 <= q < k ==> self.menus@[q].id != id,
            decreases self.menus@.len() - k,
        {
            if self.menus[k].id == id {
                return Some(k);
            }
            k += 1;
        }
        None
    }

    /// Overwrites the fields of menu `id` that `patch` gives.
    ///
    /// Fails with `InvalidInput` when a given kind is not 1, 2 or 3, and with
    /// `NotFound` when no menu has that id.
    pub fn update_menu(&mut self, id: i64, patch: UpdateMenuBody) -> (r: Result<(), DomainError>)
        requires
            old(self).wf(),
        ensures
            final(self).wf(),
            final(self).links() == old(self).links(),
            final(self).next_id() == old(self).next_id(),
            match menu_patch_problem(patch.menu_type) {
                Some(msg) => rejects(r, msg) && final(self).rows() == old(self).rows(),
                None => if has_menu(old(self).rows(), id) {
                    &&& r is Ok
                    &&& final(self).rows() == old(self).rows().map_values(patch_row(id, patch))
                } else {
                    &&& r is Err
                    &&& r->Err_0 is NotFound
                    &&& final(self).rows() == old(self).rows()
                },
            },
    {
        if let Err(e) = patch.validate() {
            return Err(e);
        }
        let k = match self.position(id) {
            Some(k) => k,
            None => return Err(DomainError::NotFound),
        };
        let ghost old_rows = self.menus@;
        let ghost g = patch_row(id, patch);
        let cur = &self.menus[k];
        let row = Menu {
            id: cur.id,
            name: match patch.name {
                Some(n) => n,
                None => cur.name.clone(),
            },
            menu_type: match patch.menu_type {
                Some(t) => t,
                None => cur.menu_type,
            },
            url: if patch.url.is_some() {
                patch.url
            } else {
                clone_text(&cur.url)
            },
            icon: if patch.icon.is_some() {
                patch.icon
            } else {
                clone_text(&cur.icon)
            },
            sort: if patch.sort.is_some() {
                patch.sort
            } else {
                cur.sort
            },
            parent_id: if patch.parent_id.is_some() {
                patch.parent_id
            } else {
                cur.parent_id
            },
            create_at: clone_text(&cur.create_at),
            update_at: clone_text(&cur.update_at),
        };
        self.menus.set(k, row);
        proof {
            assert forall|i: int| 0 <= i < old_rows.len() implies #[trigger] self.menus@[i] == g(
                old_rows[i],
            ) by {
                if i != k {
                    assert(old_rows[i].id != id) by {
                        if i < k {
                            assert(old_rows[i].id < old_rows[k as int].id);
                        } else {
                            assert(old_rows[k as int].id < old_rows[i].id);
                        }
                    }
                }
            }
            assert(self.menus@ =~= old_rows.map_values(g));
        }
        Ok(())
    }

    /// Removes menu `id`. Its children and the links naming it are left as
    /// they are.
    ///
    /// Fails with `NotFound` when no menu has that id.
    pub fn delete_menu(&mut self, id: i64) -> (r: Result<(), DomainError>)
        requires
            old(self).wf(),
        ensures
            final(self).wf(),
            final(self).links() == old(self).links(),
            final(self).next_id() == old(self).next_id(),
            if has_menu(old(self).rows(), id) {
                r is Ok && final(self).rows() == old(self).rows().filter(other_id(id))
            } else {
                r is Err && r->Err_0 is NotFound && final(self).rows() == old(self).rows()
            },
    {
        if self.position(id).is_none() {
            return Err(DomainError::NotFound);
        }
        let ghost pred = other_id(id);
        let ghost rows = self.menus@;
        let mut kept: Vec<Menu> = Vec::new();
        let mut j: usize = 0;
        while j < self.menus.len()
            invariant
                self.wf(),
                self.menus@ == rows,
                j <= rows.len(),
                pred == other_id(id),
                kept@ == rows.take(j as int).filter(pred),
                ids_increasing(kept@),
                forall|a: int| 0 <= a < kept@.len() ==> #[trigger] kept@[a].id < self.next_id,
                j < rows.len() ==> forall|a: int|
                    0 <= a < kept@.len() ==> #[trigger] kept@[a].id < rows[j as int].id,
            decreases rows.len() - j,
        {
            proof {
                assert(rows.take(j as int + 1) =~= rows.take(j as int).push(rows[j as int]));
                rows.take(j as int).lemma_filter_push(rows[j as int], pred);
            }
            if self.menus[j].id != id {
                kept.push(self.menus[j].copy());
            }
            proof {
                if j + 1 < rows.len() {
                    assert(rows[j as int].id < rows[j + 1].id);
                }
            }
            j += 1;
        }
        proof {
            assert(rows.take(rows.len() as int) =~= rows);
        }
        self.menus = kept;
        Ok(())
    }

    /// The menu with id `id`.
    ///
    /// Fails with `NotFound` when no menu has that id.
    pub fn get_menu(&self, id: i64) -> (r: Result<Menu, DomainError>)
        requires
            self.wf(),
        ensures
            has_menu(self.rows(), id) <==> r is Ok,
            r is Ok ==> self.rows().contains(r->Ok_0) && r->Ok_0.id == id,
            r is Err ==> r->Err_0 is NotFound,
    {
        match self.position(id) {
            Some(k) => Ok(self.menus[k].copy()),
            None => Err(DomainError::NotFound),
        }
    }

    /// All menus, ordered by `sort` ascending (a missing `sort` first), then
    /// by id.
    pub fn get_all_menus(&self) -> (r: Vec<Menu>)
        requires
            self.wf(),
        ensures
            r@ == stable_sort_by(self.rows(), row_order()),
    {
        let ghost rows = self.menus@;
        let mut out: Vec<Menu> = Vec::new();
        let mut i: usize = 0;
        while i < self.menus.len()
            invariant
                self.menus@ == rows,
                i <= rows.len(),
                out@ == stable_sort_by(rows.take(i as int), row_order()),
            decreases rows.len() - i,
        {
            let m = self.menus[i].copy();
            let key = row_key_value(&m);
            let mut pos: usize = 0;
            while pos < out.len() && row_key_value(&out[pos]) <= key
                invariant
                    pos <= out@.len(),
                    key as int == row_key(m),
                    forall|q: int| 0 <= q < pos ==> row_key(#[trigger] out@[q]) <= key,
                decreases out@.len() - pos,
            {
                pos += 1;
            }
            proof {
                lemma_insert_by_at(m, out@, row_order(), pos as int);
                let next = rows.take(i as int + 1);
                assert(next.drop_last() =~= rows.take(i as int));
                assert(next.last() == m);
            }
            out.insert(pos, m);
            i += 1;
        }
        proof {
            assert(rows.take(rows.len() as int) =~= rows);
        }
        out
    }
    /// The ids of the menus linked to `role_id`, ascending. A role without
    /// links, or one that was never created, has none.
    pub fn get_role_menu_ids(&self, role_id: i64) -> (r: Vec<i64>)
        ensures
            strictly_increasing(r@),
            forall|m: i64| r@.contains(m) <==> menu_ids_of(self.links(), role_id).contains(m),
    {
        let mut out: Vec<i64> = Vec::new();
        let mut k: usize = 0;
        while k < self.links.len()
            invariant
                k <= self.links@.len(),
                strictly_increasing(out@),
                forall|m: i64| out@.contains(m) <==> self.links@.take(k as int).contains((role_id, m)),
            decreases self.links@.len() - k,
        {
            let (role, menu) = self.links[k];
            let ghost out_before = out@;
            if role == role_id {
                insert_ascending(&mut out, menu);
            }
            proof {
                assert forall|m: i64| out@.contains(m) <==> self.links@.take(k as int + 1).contains(
                    (role_id, m),
                ) by {
                    lemma_take_one_more(self.links@, k as int, (role_id, m));
                    assert(out_before.contains(m) <==> self.links@.take(k as int).contains(
                        (role_id, m),
                    ));
                }
            }
            k += 1;
        }
        proof {
            assert(self.links@.take(self.links@.len() as int) =~= self.links@);
        }
        out
    }

    /// Replaces the whole link set of `role_id` by `ids` (an empty `ids`
    /// clears it); the links of other roles and the rows are untouched. The
    /// replacement is one step: no state between the old and the new set is
    /// ever observable.
    pub fn set_role_menus(&mut self, role_id: i64, ids: &Vec<i64>)
        requires
            old(self).wf(),
        ensures
            final(self).wf(),
            final(self).rows() == old(self).rows(),
            final(self).next_id() == old(self).next_id(),
            final(self).links() == replace_role_links(old(self).links(), role_id, ids@),
    {
        let ghost before = self.links@;
        let mut kept: Vec<(i64, i64)> = Vec::new();
        let mut k: usize = 0;
        while k < self.links.len()
            invariant
                self.links@ == before,
                k <= before.len(),
                forall|p: (i64, i64)|
                    kept@.contains(p) <==> (p.0 != role_id && before.take(k as int).contains(p)),
            decreases before.len() - k,
        {
            let link = self.links[k];
            let ghost kept_before = kept@;
            if link.0 != role_id {
                kept.push(link);
            }
            proof {
                assert forall|p: (i64, i64)|
                    kept@.contains(p) <==> (p.0 != role_id && before.take(k as int + 1).contains(
                        p,
                    )) by {
                    lemma_take_one_more(before, k as int, p);
                    assert(kept_before.contains(p) <==> (p.0 != role_id && before.take(
                        k as int,
                    ).contains(p)));
                    if link.0 != role_id {
                        lemma_take_one_more(kept@, kept_before.len() as int, p);
                        assert(kept@.take(kept_before.len() as int) =~= kept_before);
                        assert(kept@.take(kept@.len() as int) =~= kept@);
                    } else {
                        assert(kept@ == kept_before);
                    }
                }
            }
            k += 1;
        }
        proof {
            assert(before.take(before.len() as int) =~= before);
        }
        let mut j: usize = 0;
        while j < ids.len()
            invariant
                j <= ids@.len(),
                forall|p: (i64, i64)|
                    kept@.contains(p) <==> (if p.0 == role_id {
                        ids@.take(j as int).contains(p.1)
                    } else {
                        before.contains(p)
                    }),
            decreases ids@.len() - j,
        {
            let id = ids[j];
            let ghost kept_before = kept@;
            let mut present = false;
            let mut q: usize = 0;
            while q < kept.len()
                invariant
                    q <= kept@.len(),
                    !present ==> forall|w: int| 0 <= w < q ==> kept@[w] != (role_id, id),
                    present ==> kept@.contains((role_id, id)),
                decreases kept@.len() - q,
            {
                if kept[q].0 == role_id && kept[q].1 == id {
                    present = true;
                }
                q += 1;
            }
            if !present {
                kept.push((role_id, id));
            }
            proof {
                assert forall|p: (i64, i64)|
                    kept@.contains(p) <==> (if p.0 == role_id {
                        ids@.take(j as int + 1).contains(p.1)
                    } else {
                        before.contains(p)
                    }) by {
                    lemma_take_one_more(ids@, j as int, p.1);
                    assert(kept_before.contains(p) <==> (if p.0 == role_id {
                        ids@.take(j as int).contains(p.1)
                    } else {
                        before.contains(p)
                    }));
                    if !present {
                        lemma_take_one_more(kept@, kept_before.len() as int, p);
                        assert(kept@.take(kept_before.len() as int) =~= kept_before);
                        assert(kept@.take(kept@.len() as int) =~= kept@);
                    } else {
                        assert(kept@ == kept_before);
                    }
                }
            }
            j += 1;
        }
        proof {
            assert(ids@.take(ids@.len() as int) =~= ids@);
            assert(kept@.to_set() =~= replace_role_links(before.to_set(), role_id, ids@));
        }
        self.links = kept;
    }

    /// The full menu forest over every stored menu.
    pub fn get_menu_tree(&self) -> (r: Vec<MenuTree>)
        requires
            self.wf(),
        ensures
            is_forest_of(r@, stable_sort_by(self.rows(), row_order())),
    {
        let all = self.get_all_menus();
        build_menu_tree(&all)
    }

    /// The forest of the menus linked to `role_id`. A role without links
    /// (or never created) gets an empty forest, not an error.
    pub fn get_role_menu_tree(&self, role_id: i64) -> (r: Vec<MenuTree>)
        requires
            self.wf(),
        ensures
            is_forest_of(
                r@,
                stable_sort_by(self.rows(), row_order()).filter(linked_to(self.links(), role_id)),
            ),
            menu_ids_of(self.links(), role_id) == Set::<i64>::empty() ==> r@.len() == 0,
    {
        let ids = self.get_role_menu_ids(role_id);
        let ghost all_rows = stable_sort_by(self.rows(), row_order());
        let ghost pred = linked_to(self.links(), role_id);
        proof {
            assert(in_ids(ids@) =~= pred);
        }
        if ids.len() == 0 {
            proof {
                assert forall|m: i64| !menu_ids_of(self.links(), role_id).contains(m) by {
                    assert(!ids@.contains(m));
                }
                assert(menu_ids_of(self.links(), role_id) =~= Set::<i64>::empty());
                all_rows.lemma_all_neg_filter_empty(pred);
                assert(all_rows.filter(pred).filter(crate::menu_tree::root_pred()).len() == 0) by {
                    all_rows.filter(pred).lemma_all_neg_filter_empty(crate::menu_tree::root_pred());
                }
            }
            return Vec::new();
        }
        let all = self.get_all_menus();
        let mine = filter_menus_by_ids(&all, &ids);
        let r = build_menu_tree(&mine);
        proof {
            if menu_ids_of(self.links(), role_id) == Set::<i64>::empty() {
                assert(ids@.contains(ids@[0]));
                assert(menu_ids_of(self.links(), role_id).contains(ids@[0]));
            }
        }
        r
    }

    /// Replaces the link set of `role_id` by `menu_ids`, then reads back the
    /// role's ids (ascending) and the forest of its menus. Ids of menus that
    /// do not exist are recorded and returned, but have no node in the forest.
    pub fn assign_role_menus(&mut self, role_id: i64, menu_ids: &Vec<i64>) -> (r: (
        Vec<i64>,
        Vec<MenuTree>,
    ))
        requires
            old(self).wf(),
        ensures
            final(self).wf(),
            final(self).rows() == old(self).rows(),
            final(self).links() == replace_role_links(old(self).links(), role_id, menu_ids@),
            strictly_increasing(r.0@),
            forall|m: i64| r.0@.contains(m) <==> menu_ids@.contains(m),
            is_forest_of(
                r.1@,
                stable_sort_by(final(self).rows(), row_order()).filter(in_ids(menu_ids@)),
            ),
    {
        self.set_role_menus(role_id, menu_ids);
        let ids = self.get_role_menu_ids(role_id);
        let all = self.get_all_menus();
        let mine = filter_menus_by_ids(&all, &ids);
        proof {
            assert(in_ids(ids@) =~= in_ids(menu_ids@));
        }
        let tree = build_menu_tree(&mine);
        (ids, tree)
    }
}

/// Clearing works: after the link set of `role` is replaced by an empty
/// list, no menu id is linked to `role`, whatever the links were before.
pub proof fn lemma_clear_role_menus(links: Set<(i64, i64)>, role: i64)
    ensures
        menu_ids_of(replace_role_links(links, role, Seq::<i64>::empty()), role) == Set::<i64>::empty(),
{
    assert(menu_ids_of(replace_role_links(links, role, Seq::<i64>::empty()), role) =~= Set::<
        i64,
    >::empty());
}

/// Replacing the link set of `role` by `ids` twice leaves the same links as
/// doing it once.
pub proof fn lemma_set_role_menus_idempotent(links: Set<(i64, i64)>, role: i64, ids: Seq<i64>)
    ensures
        replace_role_links(replace_role_links(links, role, ids), role, ids) == replace_role_links(
            links,
            role,
            ids,
        ),
{
    assert(replace_role_links(replace_role_links(links, role, ids), role, ids) =~= replace_role_links(
        links,
        role,
        ids,
    ));
}

} // verus!
