use vstd::prelude::*;

verus! {

/// A user account as stored.
#[derive(Debug, Clone)]
pub struct User {
    pub id: i64,
    pub name: String,
    pub realname: String,
    pub cellphone: Option<String>,
    pub enable: i32,
    pub department_id: Option<i64>,
    pub role_id: Option<i64>,
    pub create_at: Option<String>,
    pub update_at: Option<String>,
}

/// A department; departments form a hierarchy through `parent_id`.
#[derive(Debug, Clone)]
pub struct Department {
    pub id: i64,
    pub name: String,
    pub parent_id: Option<i64>,
    pub leader: Option<String>,
    pub create_at: Option<String>,
    pub update_at: Option<String>,
}

/// A role, to which menus are granted.
#[derive(Debug, Clone)]
pub struct Role {
    pub id: i64,
    pub name: String,
    pub intro: Option<String>,
    pub create_at: Option<String>,
    pub update_at: Option<String>,
}

/// One node of the navigation/permission hierarchy, as stored (flat).
///
/// `menu_type` is 1 for a directory, 2 for a menu item and 3 for an action;
/// `parent_id` refers to another menu's id, or is `None` for a root.
#[derive(Debug, Clone)]
pub struct Menu {
    pub id: i64,
    pub name: String,
    pub menu_type: i32,
    pub url: Option<String>,
    pub icon: Option<String>,
    pub sort: Option<i32>,
    pub parent_id: Option<i64>,
    pub create_at: Option<String>,
    pub update_at: Option<String>,
}

/// A page request of the list endpoints, with an optional name filter.
#[derive(Debug, Clone)]
pub struct Pagination {
    pub offset: i64,
    pub size: i64,
    pub name: Option<String>,
}

/// A goods category.
#[derive(Debug, Clone)]
pub struct Category {
    pub id: i64,
    pub name: String,
    pub parent_id: Option<i64>,
    pub create_at: Option<String>,
    pub update_at: Option<String>,
}

/// A page request of the goods list.
#[derive(Debug, Clone)]
pub struct GoodsPagination {
    pub offset: i64,
    pub size: i64,
}

/// A page request of the category list, with an optional name filter.
#[derive(Debug, Clone)]
pub struct CategoryPagination {
    pub offset: i64,
    pub size: i64,
    pub name: Option<String>,
}

/// A story as stored.
#[derive(Debug, Clone)]
pub struct Story {
    pub id: i64,
    pub title: String,
    pub content: String,
    pub create_at: Option<String>,
    pub update_at: Option<String>,
}

/// The (empty) body of a story list request.
#[derive(Debug, Clone)]
pub struct StoryListRequest {}

/// A report row: the number of goods of a category.
#[derive(Debug, Clone)]
pub struct CategoryCount {
    pub name: String,
    pub value: i64,
}

/// A report row: the sales of a category.
#[derive(Debug, Clone)]
pub struct CategorySale {
    pub name: String,
    pub value: i64,
}

/// A report row: the favourites of a category.
#[derive(Debug, Clone)]
pub struct CategoryFavor {
    pub name: String,
    pub value: i64,
}

/// A report row: the sales of one of the best-selling goods.
#[derive(Debug, Clone)]
pub struct TopSale {
    pub name: String,
    pub value: i64,
}

/// A report row: the number of goods sold from an address.
#[derive(Debug, Clone)]
pub struct AddressSale {
    pub address: String,
    pub count: i64,
}

/// Copies an optional text field.
pub fn clone_text(o: &Option<String>) -> (r: Option<String>)
    ensures
        r == *o,
{
    match o {
        Some(s) => Some(s.clone()),
        None => None,
    }
}

impl Menu {
    /// A field-for-field copy of the record.
    pub fn copy(&self) -> (r: Menu)
        ensures
            r == *self,
    {
        Menu {
            id: self.id,
            name: self.name.clone(),
            menu_type: self.menu_type,
            url: clone_text(&self.url),
            icon: clone_text(&self.icon),
            sort: self.sort,
            parent_id: self.parent_id,
            create_at: clone_text(&self.create_at),
            update_at: clone_text(&self.update_at),
        }
    }
}

} // verus!
