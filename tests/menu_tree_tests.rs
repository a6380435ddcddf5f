use cbs_backend::domain::Menu;
use cbs_backend::menu_tree::{build_menu_tree, filter_menus_by_ids, MenuTree};

fn menu(id: i64, parent_id: Option<i64>, sort: Option<i32>, name: &str) -> Menu {
    Menu {
        id,
        name: name.to_string(),
        menu_type: 1,
        url: None,
        icon: None,
        sort,
        parent_id,
        create_at: None,
        update_at: None,
    }
}

fn count(forest: &[MenuTree]) -> usize {
    forest.iter().map(|t| 1 + count(&t.children)).sum()
}

fn ids(forest: &[MenuTree]) -> Vec<i64> {
    forest.iter().map(|t| t.id).collect()
}

#[test]
fn build_tree_sorts_roots_and_attaches_children() {
    let menus = vec![
        menu(1, None, Some(2), "B"),
        menu(2, None, Some(1), "A"),
        menu(3, Some(1), Some(1), "B-child"),
    ];
    let tree = build_menu_tree(&menus);
    assert_eq!(ids(&tree), vec![2, 1]);
    assert_eq!(tree[0].name, "A");
    assert!(tree[0].children.is_empty());
    assert_eq!(tree[1].name, "B");
    assert_eq!(tree[1].children.len(), 1);
    assert_eq!(tree[1].children[0].id, 3);
    assert_eq!(tree[1].children[0].name, "B-child");
    assert!(tree[1].children[0].children.is_empty());
}

#[test]
fn build_tree_of_nothing_is_empty() {
    let tree = build_menu_tree(&Vec::new());
    assert!(tree.is_empty());
}

#[test]
fn build_tree_drops_orphans() {
    let menus = vec![
        menu(1, None, None, "root"),
        menu(2, Some(99), None, "orphan"),
        menu(3, Some(2), None, "orphan child"),
        menu(4, Some(1), None, "child"),
    ];
    let tree = build_menu_tree(&menus);
    assert_eq!(ids(&tree), vec![1]);
    assert_eq!(ids(&tree[0].children), vec![4]);
    assert_eq!(count(&tree), 2);
}

#[test]
fn build_tree_keeps_children_in_input_order() {
    let menus = vec![
        menu(1, None, None, "root"),
        menu(2, Some(1), Some(9), "late"),
        menu(3, Some(1), Some(1), "early"),
        menu(4, Some(3), Some(5), "x"),
        menu(5, Some(3), Some(-5), "y"),
    ];
    let tree = build_menu_tree(&menus);
    assert_eq!(ids(&tree[0].children), vec![2, 3]);
    assert_eq!(ids(&tree[0].children[1].children), vec![4, 5]);
}

#[test]
fn build_tree_top_level_sort_is_stable_with_missing_as_zero() {
    let menus = vec![
        menu(1, None, Some(0), "a"),
        menu(2, None, Some(-1), "b"),
        menu(3, None, None, "c"),
        menu(4, None, Some(3), "d"),
        menu(5, None, Some(0), "e"),
    ];
    let tree = build_menu_tree(&menus);
    assert_eq!(ids(&tree), vec![2, 1, 3, 5, 4]);
    let keys: Vec<i32> = tree.iter().map(|t| t.sort.unwrap_or(0)).collect();
    assert!(keys.windows(2).all(|w| w[0] <= w[1]));
}

#[test]
fn build_tree_counts_every_reachable_node_once() {
    let menus = vec![
        menu(5, Some(4), None, "great-grandchild"),
        menu(4, Some(2), None, "grandchild"),
        menu(2, Some(1), None, "child"),
        menu(1, None, None, "root"),
        menu(3, Some(1), None, "child 2"),
        menu(6, None, None, "root 2"),
        menu(7, Some(8), None, "orphan"),
    ];
    let tree = build_menu_tree(&menus);
    assert_eq!(count(&tree), 6);
    assert_eq!(ids(&tree), vec![1, 6]);
    assert_eq!(ids(&tree[0].children), vec![2, 3]);
    assert_eq!(ids(&tree[0].children[0].children), vec![4]);
    assert_eq!(ids(&tree[0].children[0].children[0].children), vec![5]);
}

#[test]
fn build_tree_copies_the_records() {
    let mut m = menu(1, None, Some(7), "Dashboard");
    m.menu_type = 2;
    m.url = Some("/dashboard".to_string());
    m.icon = Some("icon".to_string());
    m.create_at = Some("2024-01-01".to_string());
    let tree = build_menu_tree(&vec![m]);
    assert_eq!(tree.len(), 1);
    assert_eq!(tree[0].menu_type, 2);
    assert_eq!(tree[0].url.as_deref(), Some("/dashboard"));
    assert_eq!(tree[0].icon.as_deref(), Some("icon"));
    assert_eq!(tree[0].sort, Some(7));
    assert_eq!(tree[0].create_at.as_deref(), Some("2024-01-01"));
    assert_eq!(tree[0].update_at, None);
}

#[test]
fn filter_keeps_listed_menus_in_order() {
    let menus = vec![
        menu(3, None, None, "c"),
        menu(1, None, None, "a"),
        menu(2, None, None, "b"),
    ];
    let kept = filter_menus_by_ids(&menus, &vec![2, 3, 42]);
    let kept_ids: Vec<i64> = kept.iter().map(|m| m.id).collect();
    assert_eq!(kept_ids, vec![3, 2]);
    assert!(filter_menus_by_ids(&menus, &Vec::new()).is_empty());
}
