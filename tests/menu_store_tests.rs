use cbs_backend::api::{CreateMenuBody, UpdateMenuBody};
use cbs_backend::error::DomainError;
use cbs_backend::menu_store::MenuStore;
use cbs_backend::menu_tree::MenuTree;

fn body(name: &str, menu_type: i32, sort: Option<i32>, parent_id: Option<i64>) -> CreateMenuBody {
    CreateMenuBody {
        name: name.to_string(),
        menu_type,
        url: None,
        icon: None,
        sort,
        parent_id,
    }
}

fn no_change() -> UpdateMenuBody {
    UpdateMenuBody {
        name: None,
        menu_type: None,
        url: None,
        icon: None,
        sort: None,
        parent_id: None,
    }
}

fn ids(forest: &[MenuTree]) -> Vec<i64> {
    forest.iter().map(|t| t.id).collect()
}

#[test]
fn test_create_menu_success() {
    let mut store = MenuStore::new();
    let mut b = body("Dashboard", 1, Some(1), None);
    b.url = Some("/dashboard".to_string());
    b.icon = Some("icon".to_string());
    let id = store.create_menu(b).expect("create menu");
    assert!(id > 0);
    let menu = store.get_menu(id).expect("get menu");
    assert_eq!(menu.name, "Dashboard");
    assert_eq!(menu.menu_type, 1);
}

#[test]
fn test_menu_crud_flow() {
    let mut store = MenuStore::new();
    let mut b = body("Dashboard", 1, Some(1), None);
    b.url = Some("/dashboard".to_string());
    b.icon = Some("dashboard-icon".to_string());
    let menu_id = store.create_menu(b).expect("create menu");
    let menu = store.get_menu(menu_id).expect("get menu");
    assert_eq!(menu.name, "Dashboard");
    assert_eq!(menu.menu_type, 1);
}

#[test]
fn test_get_all_menus_success() {
    let mut store = MenuStore::new();
    let mut b1 = body("Menu 1", 1, Some(1), None);
    b1.url = Some("/menu1".to_string());
    b1.icon = Some("icon1".to_string());
    let menu1_id = store.create_menu(b1).expect("create menu 1");
    let mut b2 = body("Menu 2", 2, Some(2), Some(menu1_id));
    b2.url = Some("/menu2".to_string());
    b2.icon = Some("icon2".to_string());
    let menu2_id = store.create_menu(b2).expect("create menu 2");
    let menus = store.get_all_menus();
    assert!(menus.len() >= 2);
    assert!(menus.iter().any(|m| m.id == menu1_id));
    assert!(menus.iter().any(|m| m.id == menu2_id));
}

#[test]
fn test_get_role_menu_ids_success() {
    let mut store = MenuStore::new();
    let role_id = 1;
    let mut b = body("Test Menu", 1, Some(1), None);
    b.url = Some("/test".to_string());
    let menu_id = store.create_menu(b).expect("create menu");
    store.set_role_menus(role_id, &vec![menu_id]);
    let menu_ids = store.get_role_menu_ids(role_id);
    assert_eq!(menu_ids.len(), 1);
    assert_eq!(menu_ids[0], menu_id);
}

#[test]
fn test_get_role_menu_ids_empty() {
    let store = MenuStore::new();
    let menu_ids = store.get_role_menu_ids(1);
    assert!(menu_ids.is_empty());
}

#[test]
fn test_set_role_menus_success() {
    let mut store = MenuStore::new();
    let role_id = 1;
    let menu1_id = store.create_menu(body("Menu 1", 1, Some(1), None)).expect("create menu 1");
    let menu2_id = store.create_menu(body("Menu 2", 1, Some(2), None)).expect("create menu 2");
    store.set_role_menus(role_id, &vec![menu1_id, menu2_id]);
    let menu_ids = store.get_role_menu_ids(role_id);
    assert_eq!(menu_ids.len(), 2);
    assert!(menu_ids.contains(&menu1_id));
    assert!(menu_ids.contains(&menu2_id));
}

#[test]
fn test_role_menu_empty_assignment() {
    let mut store = MenuStore::new();
    let role_id = 1;
    store.set_role_menus(role_id, &vec![]);
    let menu_ids = store.get_role_menu_ids(role_id);
    assert!(menu_ids.is_empty());
}

#[test]
fn test_menu_tree_endpoint() {
    let mut store = MenuStore::new();
    let mut b1 = body("Menu 1", 1, Some(1), None);
    b1.url = Some("/menu1".to_string());
    b1.icon = Some("icon1".to_string());
    let menu1_id = store.create_menu(b1).expect("create menu 1");
    let mut b2 = body("Menu 2", 2, Some(2), Some(menu1_id));
    b2.url = Some("/menu2".to_string());
    b2.icon = Some("icon2".to_string());
    let _menu2_id = store.create_menu(b2).expect("create menu 2");
    let tree = store.get_menu_tree();
    assert!(!tree.is_empty());
    assert_eq!(ids(&tree), vec![menu1_id]);
    assert_eq!(ids(&tree[0].children), vec![_menu2_id]);
}

#[test]
fn test_role_menu_endpoints() {
    let mut store = MenuStore::new();
    let role_id = 1;
    let mut b = body("Test Menu", 1, Some(1), None);
    b.url = Some("/test".to_string());
    let menu_id = store.create_menu(b).expect("create menu");
    store.set_role_menus(role_id, &vec![menu_id]);
    let menu_ids = store.get_role_menu_ids(role_id);
    assert_eq!(menu_ids.len(), 1);
    assert_eq!(menu_ids[0], menu_id);
    let tree = store.get_role_menu_tree(role_id);
    assert_eq!(ids(&tree), vec![menu_id]);
}

#[test]
fn test_assign_role_menus() {
    let mut store = MenuStore::new();
    let role_id = 1;
    let menu1_id = store.create_menu(body("Menu 1", 1, Some(1), None)).expect("create menu 1");
    let menu2_id = store.create_menu(body("Menu 2", 1, Some(2), None)).expect("create menu 2");
    let (menu_ids, tree) = store.assign_role_menus(role_id, &vec![menu1_id, menu2_id]);
    assert_eq!(menu_ids.len(), 2);
    assert_eq!(ids(&tree), vec![menu1_id, menu2_id]);
}

#[test]
fn test_empty_arrays_and_lists() {
    let mut store = MenuStore::new();
    let (menu_ids, tree) = store.assign_role_menus(1, &vec![]);
    assert!(menu_ids.is_empty());
    assert!(tree.is_empty());
}

#[test]
fn assign_records_missing_menus_but_leaves_them_out_of_the_tree() {
    let mut store = MenuStore::new();
    for i in 1..=10 {
        store.create_menu(body(&format!("Menu {}", i), 1, None, None)).expect("create menu");
    }
    let (menu_ids, tree) = store.assign_role_menus(5, &vec![10, 20]);
    assert_eq!(menu_ids, vec![10, 20]);
    assert_eq!(ids(&tree), vec![10]);
    assert!(tree[0].children.is_empty());
    assert_eq!(store.get_role_menu_ids(5), vec![10, 20]);
}

#[test]
fn clearing_a_role_removes_all_its_links() {
    let mut store = MenuStore::new();
    let a = store.create_menu(body("A", 1, None, None)).unwrap();
    let b = store.create_menu(body("B", 1, None, None)).unwrap();
    store.set_role_menus(3, &vec![a, b]);
    store.set_role_menus(4, &vec![b]);
    store.set_role_menus(3, &vec![]);
    assert!(store.get_role_menu_ids(3).is_empty());
    assert!(store.get_role_menu_tree(3).is_empty());
    assert_eq!(store.get_role_menu_ids(4), vec![b]);
}

#[test]
fn setting_role_menus_twice_is_like_once() {
    let mut once = MenuStore::new();
    let mut twice = MenuStore::new();
    once.set_role_menus(2, &vec![9, 4, 4, 7]);
    twice.set_role_menus(2, &vec![9, 4, 4, 7]);
    twice.set_role_menus(2, &vec![9, 4, 4, 7]);
    assert_eq!(once.get_role_menu_ids(2), vec![4, 7, 9]);
    assert_eq!(twice.get_role_menu_ids(2), once.get_role_menu_ids(2));
}

#[test]
fn role_without_links_gets_empty_tree() {
    let mut store = MenuStore::new();
    store.create_menu(body("A", 1, None, None)).unwrap();
    assert!(store.get_role_menu_tree(12345).is_empty());
    assert!(store.get_role_menu_ids(12345).is_empty());
}

#[test]
fn role_tree_keeps_only_linked_menus() {
    let mut store = MenuStore::new();
    let root = store.create_menu(body("root", 1, Some(2), None)).unwrap();
    let child = store.create_menu(body("child", 2, None, Some(root))).unwrap();
    let other = store.create_menu(body("other", 1, Some(1), None)).unwrap();
    store.set_role_menus(1, &vec![child, other]);
    // the child's parent is not granted, so the child is unreachable
    assert_eq!(ids(&store.get_role_menu_tree(1)), vec![other]);
    store.set_role_menus(1, &vec![root, child]);
    let tree = store.get_role_menu_tree(1);
    assert_eq!(ids(&tree), vec![root]);
    assert_eq!(ids(&tree[0].children), vec![child]);
}

#[test]
fn create_menu_rejects_bad_input() {
    let mut store = MenuStore::new();
    match store.create_menu(body("  ", 1, None, None)) {
        Err(DomainError::InvalidInput(m)) => assert_eq!(m, "menu name is required"),
        other => panic!("unexpected {:?}", other),
    }
    match store.create_menu(body("X", 4, None, None)) {
        Err(DomainError::InvalidInput(m)) => assert_eq!(m, "menu type must be 1, 2, or 3"),
        other => panic!("unexpected {:?}", other),
    }
    assert!(matches!(store.create_menu(body("X", 0, None, None)), Err(DomainError::InvalidInput(_))));
    assert!(store.get_all_menus().is_empty());
    assert_eq!(store.create_menu(body("X", 3, None, None)), Ok(1));
    assert_eq!(store.create_menu(body("Y", 2, None, None)), Ok(2));
}

#[test]
fn update_menu_overwrites_only_given_fields() {
    let mut store = MenuStore::new();
    let mut b = body("Old", 1, Some(3), None);
    b.url = Some("/old".to_string());
    b.icon = Some("old-icon".to_string());
    let id = store.create_menu(b).unwrap();
    let mut patch = no_change();
    patch.name = Some("New".to_string());
    patch.icon = Some("new-icon".to_string());
    assert_eq!(store.update_menu(id, patch), Ok(()));
    let m = store.get_menu(id).unwrap();
    assert_eq!(m.name, "New");
    assert_eq!(m.icon.as_deref(), Some("new-icon"));
    assert_eq!(m.url.as_deref(), Some("/old"));
    assert_eq!(m.sort, Some(3));
    assert_eq!(m.menu_type, 1);
    let mut bad = no_change();
    bad.menu_type = Some(7);
    assert!(matches!(store.update_menu(id, bad), Err(DomainError::InvalidInput(_))));
    assert_eq!(store.update_menu(id + 1, no_change()), Err(DomainError::NotFound));
}

#[test]
fn delete_menu_leaves_children_and_links_dangling() {
    let mut store = MenuStore::new();
    let parent = store.create_menu(body("parent", 1, None, None)).unwrap();
    let child = store.create_menu(body("child", 2, None, Some(parent))).unwrap();
    store.set_role_menus(1, &vec![parent, child]);
    assert_eq!(store.delete_menu(parent), Ok(()));
    assert_eq!(store.delete_menu(parent), Err(DomainError::NotFound));
    assert_eq!(store.get_menu(parent).unwrap_err(), DomainError::NotFound);
    assert_eq!(store.get_menu(child).unwrap().parent_id, Some(parent));
    assert_eq!(store.get_role_menu_ids(1), vec![parent, child]);
    assert!(store.get_menu_tree().is_empty());
    assert!(store.get_role_menu_tree(1).is_empty());
}

#[test]
fn all_menus_are_ordered_by_sort_then_id_missing_sort_first() {
    let mut store = MenuStore::new();
    let a = store.create_menu(body("a", 1, Some(2), None)).unwrap();
    let b = store.create_menu(body("b", 1, None, None)).unwrap();
    let c = store.create_menu(body("c", 1, Some(-3), None)).unwrap();
    let d = store.create_menu(body("d", 1, Some(2), None)).unwrap();
    let e = store.create_menu(body("e", 1, None, None)).unwrap();
    let order: Vec<i64> = store.get_all_menus().iter().map(|m| m.id).collect();
    assert_eq!(order, vec![b, e, c, a, d]);
    // the tree counts a missing sort as 0, so b and e go after c
    assert_eq!(ids(&store.get_menu_tree()), vec![c, b, e, a, d]);
}
