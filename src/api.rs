use vstd::prelude::*;
use vstd::string::StringExecFns;
use crate::domain::{CategoryPagination, GoodsPagination, Pagination};
use crate::error::{invalid_input, rejects, DomainError};
use crate::text::{blank_text, is_blank};

verus! {

/// The envelope of every response: a code, a message and the payload.
pub struct ApiResponse<T> {
    pub code: i32,
    pub message: String,
    pub data: T,
}

impl<T> ApiResponse<T> {
    /// A successful response: code 200 and the message "成功".
    pub fn success(data: T) -> (r: Self)
        ensures
            r.code == 200,
            r.message@ == "成功"@,
            r.data == data,
    {
        ApiResponse { code: 200, message: String::from_str("成功"), data }
    }

    /// A response with the given code and message.
    pub fn error(code: i32, message: String, data: T) -> (r: Self)
        ensures
            r.code == code,
            r.message == message,
            r.data == data,
    {
        ApiResponse { code, message, data }
    }
}

/// Body of a role's menu assignment.
pub struct AssignRoleMenusBody {
    pub role_id: i64,
    pub menu_list: Vec<i64>,
}

/// Body of a user creation.
pub struct CreateUserBody {
    pub name: String,
    pub realname: String,
    pub password: String,
    pub cellphone: Option<String>,
    pub department_id: Option<i64>,
    pub role_id: Option<i64>,
}

/// Body of a user update; absent fields keep their value.
pub struct UpdateUserBody {
    pub password: Option<String>,
    pub cellphone: Option<String>,
}

/// Body of a department creation.
pub struct CreateDepartmentBody {
    pub name: String,
    pub parent_id: Option<i64>,
    pub leader: Option<String>,
}

/// Body of a department update; absent fields keep their value.
pub struct UpdateDepartmentBody {
    pub parent_id: Option<i64>,
    pub leader: Option<String>,
}

/// Body of a role creation.
pub struct CreateRoleBody {
    pub name: String,
    pub intro: Option<String>,
}

/// Body of a role update; an absent intro keeps its value.
pub struct UpdateRoleBody {
    pub intro: Option<String>,
}

/// Body of a menu creation.
pub struct CreateMenuBody {
    pub name: String,
    pub menu_type: i32,
    pub url: Option<String>,
    pub icon: Option<String>,
    pub sort: Option<i32>,
    pub parent_id: Option<i64>,
}

/// Body of a menu update; absent fields keep their value.
pub struct UpdateMenuBody {
    pub name: Option<String>,
    pub menu_type: Option<i32>,
    pub url: Option<String>,
    pub icon: Option<String>,
    pub sort: Option<i32>,
    pub parent_id: Option<i64>,
}

/// Body of a category creation.
pub struct CreateCategoryBody {
    pub name: String,
}

/// Body of a category update; absent fields keep their value.
pub struct UpdateCategoryBody {
    pub name: Option<String>,
    pub parent_id: Option<i64>,
}

/// Body of a story creation.
pub struct CreateStoryBody {
    pub title: String,
    pub content: String,
}

/// A menu kind is 1 (directory), 2 (menu item) or 3 (action).
pub open spec fn valid_menu_type(t: i32) -> bool {
    1 <= t <= 3
}

/// What is wrong with a page request, if anything.
pub open spec fn page_problem(offset: i64, size: i64) -> Option<Seq<char>> {
    if size <= 0 || size > 100 {
        Some("size must be between 1 and 100"@)
    } else if offset < 0 {
        Some("offset must be >= 0"@)
    } else {
        None
    }
}

/// The result of a check that fails with `problem`, if there is one.
pub open spec fn checked(r: Result<(), DomainError>, problem: Option<Seq<char>>) -> bool {
    match problem {
        None => r is Ok,
        Some(msg) => rejects(r, msg),
    }
}

/// A page holds 1 to 100 rows and starts at a non-negative offset.
pub fn check_page(offset: i64, size: i64) -> (r: Result<(), DomainError>)
    ensures
        checked(r, page_problem(offset, size)),
{
    if size <= 0 || size > 100 {
        return Err(invalid_input("size must be between 1 and 100"));
    }
    if offset < 0 {
        return Err(invalid_input("offset must be >= 0"));
    }
    Ok(())
}

/// Checks a page request of the user, department, role and menu lists.
pub fn validate_pagination(p: &Pagination) -> (r: Result<(), DomainError>)
    ensures
        checked(r, page_problem(p.offset, p.size)),
{
    check_page(p.offset, p.size)
}

/// Checks a page request of the goods list.
pub fn validate_goods_pagination(p: &GoodsPagination) -> (r: Result<(), DomainError>)
    ensures
        checked(r, page_problem(p.offset, p.size)),
{
    check_page(p.offset, p.size)
}

/// Checks a page request of the category list.
pub fn validate_category_pagination(p: &CategoryPagination) -> (r: Result<(), DomainError>)
    ensures
        checked(r, page_problem(p.offset, p.size)),
{
    check_page(p.offset, p.size)
}

/// Fails with `msg` when `bad` holds.
fn require(bad: bool, msg: &str) -> (r: Result<(), DomainError>)
    ensures
        checked(r, if bad { Some(msg@) } else { None }),
{
    if bad {
        Err(invalid_input(msg))
    } else {
        Ok(())
    }
}

/// Checks the name of a goods creation.
pub fn validate_goods_name(name: &str) -> (r: Result<(), DomainError>)
    ensures
        checked(r, if blank_text(name@) { Some("goods name is required"@) } else { None }),
{
    require(is_blank(name), "goods name is required")
}

impl CreateUserBody {
    /// Name and password must not be blank.
    pub fn validate(&self) -> (r: Result<(), DomainError>)
        ensures
            checked(
                r,
                if blank_text(self.name@) || blank_text(self.password@) {
                    Some("name and password are required"@)
                } else {
                    None
                },
            ),
    {
        let bad = is_blank(self.name.as_str()) || is_blank(self.password.as_str());
        require(bad, "name and password are required")
    }
}

impl CreateDepartmentBody {
    /// The name must not be blank.
    pub fn validate(&self) -> (r: Result<(), DomainError>)
        ensures
            checked(
                r,
                if blank_text(self.name@) { Some("department name is required"@) } else { None },
            ),
    {
        require(is_blank(self.name.as_str()), "department name is required")
    }
}

impl CreateRoleBody {
    /// The name must not be blank.
    pub fn validate(&self) -> (r: Result<(), DomainError>)
        ensures
            checked(r, if blank_text(self.name@) { Some("role name is required"@) } else { None }),
    {
        require(is_blank(self.name.as_str()), "role name is required")
    }
}

/// What is wrong with a menu creation, if anything: the name is checked
/// first, then the kind.
pub open spec fn menu_problem(name: Seq<char>, menu_type: i32) -> Option<Seq<char>> {
    if blank_text(name) {
        Some("menu name is required"@)
    } else if !valid_menu_type(menu_type) {
        Some("menu type must be 1, 2, or 3"@)
    } else {
        None
    }
}

/// What is wrong with a menu update, if anything: a kind, when given, must
/// be valid.
pub open spec fn menu_patch_problem(menu_type: Option<i32>) -> Option<Seq<char>> {
    match menu_type {
        Some(t) => if valid_menu_type(t) {
            None
        } else {
            Some("menu type must be 1, 2, or 3"@)
        },
        None => None,
    }
}

impl CreateMenuBody {
    /// The name must not be blank and the kind must be 1, 2 or 3.
    pub fn validate(&self) -> (r: Result<(), DomainError>)
        ensures
            checked(r, menu_problem(self.name@, self.menu_type)),
    {
        if is_blank(self.name.as_str()) {
            return Err(invalid_input("menu name is required"));
        }
        require(!(1 <= self.menu_type && self.menu_type <= 3), "menu type must be 1, 2, or 3")
    }
}

impl UpdateMenuBody {
    /// A kind, when given, must be 1, 2 or 3.
    pub fn validate(&self) -> (r: Result<(), DomainError>)
        ensures
            checked(r, menu_patch_problem(self.menu_type)),
    {
        match self.menu_type {
            Some(t) => require(!(1 <= t && t <= 3), "menu type must be 1, 2, or 3"),
            None => Ok(()),
        }
    }
}

impl CreateCategoryBody {
    /// The name must not be blank.
    pub fn validate(&self) -> (r: Result<(), DomainError>)
        ensures
            checked(
                r,
                if blank_text(self.name@) { Some("category name is required"@) } else { None },
            ),
    {
        require(is_blank(self.name.as_str()), "category name is required")
    }
}

impl CreateStoryBody {
    /// Title and content must not be blank.
    pub fn validate(&self) -> (r: Result<(), DomainError>)
        ensures
            checked(
                r,
                if blank_text(self.title@) || blank_text(self.content@) {
                    Some("title and content are required"@)
                } else {
                    None
                },
            ),
    {
        let bad = is_blank(self.title.as_str()) || is_blank(self.content.as_str());
        require(bad, "title and content are required")
    }
}

} // verus!
