use cbs_backend::api::{
    check_page, validate_category_pagination, validate_goods_name, validate_goods_pagination,
    validate_pagination, ApiResponse, CreateCategoryBody, CreateDepartmentBody, CreateMenuBody,
    CreateRoleBody, CreateStoryBody, CreateUserBody, UpdateMenuBody,
};
use cbs_backend::domain::{CategoryPagination, GoodsPagination, Pagination};
use cbs_backend::error::DomainError;
use cbs_backend::services::{expect_affected, expect_found};
use cbs_backend::text::{is_blank, starts_with};

fn invalid(msg: &str) -> Result<(), DomainError> {
    Err(DomainError::InvalidInput(msg.to_string()))
}

#[test]
fn page_size_must_be_between_one_and_hundred() {
    let p = |offset: i64, size: i64| Pagination { offset, size, name: None };
    assert_eq!(validate_pagination(&p(0, 10)), Ok(()));
    assert_eq!(validate_pagination(&p(10000, 100)), Ok(()));
    assert_eq!(validate_pagination(&p(0, 1)), Ok(()));
    assert_eq!(validate_pagination(&p(0, 0)), invalid("size must be between 1 and 100"));
    assert_eq!(validate_pagination(&p(0, 101)), invalid("size must be between 1 and 100"));
    assert_eq!(validate_pagination(&p(0, -5)), invalid("size must be between 1 and 100"));
    assert_eq!(validate_pagination(&p(-1, 10)), invalid("offset must be >= 0"));
    assert_eq!(validate_pagination(&p(-1, 0)), invalid("size must be between 1 and 100"));
}

#[test]
fn goods_and_category_pages_follow_the_same_rule() {
    assert_eq!(validate_goods_pagination(&GoodsPagination { offset: 0, size: 10 }), Ok(()));
    assert_eq!(
        validate_goods_pagination(&GoodsPagination { offset: 0, size: 0 }),
        invalid("size must be between 1 and 100")
    );
    let c = CategoryPagination { offset: -3, size: 10, name: Some("Elect".to_string()) };
    assert_eq!(validate_category_pagination(&c), invalid("offset must be >= 0"));
    assert_eq!(check_page(i64::MAX, 100), Ok(()));
    assert_eq!(check_page(i64::MIN, 100), invalid("offset must be >= 0"));
}

#[test]
fn blank_text_is_white_space_only() {
    assert!(is_blank(""));
    assert!(is_blank("   "));
    assert!(is_blank("\t\n\u{3000}\u{a0}"));
    assert!(!is_blank("  Valid Title  "));
    assert!(!is_blank("测试"));
    assert_eq!(is_blank(" x "), " x ".trim().is_empty());
}

#[test]
fn prefix_test_is_by_characters() {
    assert!(starts_with("demo-token-1", "demo-token-"));
    assert!(starts_with("abc", ""));
    assert!(!starts_with("demo", "demo-token-"));
    assert!(!starts_with("Demo-token-1", "demo-token-"));
}

#[test]
fn creation_bodies_require_names() {
    let user = |name: &str, password: &str| CreateUserBody {
        name: name.to_string(),
        realname: "R".to_string(),
        password: password.to_string(),
        cellphone: None,
        department_id: None,
        role_id: None,
    };
    assert_eq!(user("u", "p").validate(), Ok(()));
    assert_eq!(user(" ", "p").validate(), invalid("name and password are required"));
    assert_eq!(user("u", "").validate(), invalid("name and password are required"));
    let dept = CreateDepartmentBody { name: "".to_string(), parent_id: None, leader: None };
    assert_eq!(dept.validate(), invalid("department name is required"));
    let role = CreateRoleBody { name: "\t".to_string(), intro: None };
    assert_eq!(role.validate(), invalid("role name is required"));
    let role = CreateRoleBody { name: "Admin".to_string(), intro: None };
    assert_eq!(role.validate(), Ok(()));
    let cat = CreateCategoryBody { name: " ".to_string() };
    assert_eq!(cat.validate(), invalid("category name is required"));
    assert_eq!(validate_goods_name("  "), invalid("goods name is required"));
    assert_eq!(validate_goods_name("Test Product"), Ok(()));
}

#[test]
fn story_needs_title_and_content() {
    let story = |t: &str, c: &str| CreateStoryBody { title: t.to_string(), content: c.to_string() };
    assert_eq!(story("", "Content").validate(), invalid("title and content are required"));
    assert_eq!(story("Title", "").validate(), invalid("title and content are required"));
    assert_eq!(story("   ", "Content").validate(), invalid("title and content are required"));
    assert_eq!(story("  Valid Title  ", "  Valid Content  ").validate(), Ok(()));
}

#[test]
fn menu_bodies_check_name_then_kind() {
    let menu = |name: &str, t: i32| CreateMenuBody {
        name: name.to_string(),
        menu_type: t,
        url: None,
        icon: None,
        sort: None,
        parent_id: None,
    };
    assert_eq!(menu("Dashboard", 1).validate(), Ok(()));
    assert_eq!(menu("Dashboard", 3).validate(), Ok(()));
    assert_eq!(menu(" ", 9).validate(), invalid("menu name is required"));
    assert_eq!(menu("Dashboard", 0).validate(), invalid("menu type must be 1, 2, or 3"));
    let patch = |t: Option<i32>| UpdateMenuBody {
        name: None,
        menu_type: t,
        url: None,
        icon: None,
        sort: None,
        parent_id: None,
    };
    assert_eq!(patch(None).validate(), Ok(()));
    assert_eq!(patch(Some(2)).validate(), Ok(()));
    assert_eq!(patch(Some(-1)).validate(), invalid("menu type must be 1, 2, or 3"));
}

#[test]
fn errors_map_to_status_codes() {
    assert_eq!(DomainError::NotFound.status_code(), 404);
    assert_eq!(DomainError::Unauthorized.status_code(), 401);
    assert_eq!(DomainError::InvalidInput("x".to_string()).status_code(), 400);
    assert_eq!(DomainError::Conflict("x".to_string()).status_code(), 409);
    assert_eq!(DomainError::Internal("x".to_string()).status_code(), 500);
}

#[test]
fn affected_rows_and_lookups_signal_not_found() {
    assert_eq!(expect_affected(0), Err(DomainError::NotFound));
    assert_eq!(expect_affected(1), Ok(()));
    assert_eq!(expect_affected(3), Ok(()));
    assert_eq!(expect_found(Some(7)), Ok(7));
    assert_eq!(expect_found::<i64>(None), Err(DomainError::NotFound));
}

#[test]
fn response_envelope() {
    let ok = ApiResponse::success(vec![1, 2]);
    assert_eq!(ok.code, 200);
    assert_eq!(ok.message, "成功");
    assert_eq!(ok.data, vec![1, 2]);
    let err = ApiResponse::error(404, "not found".to_string(), ());
    assert_eq!(err.code, 404);
    assert_eq!(err.message, "not found");
}

#[test]
fn errors_have_messages() {
    assert_eq!(DomainError::NotFound.message(), "not found");
    assert_eq!(DomainError::Unauthorized.message(), "unauthorized");
    assert_eq!(
        DomainError::InvalidInput("menu name is required".to_string()).message(),
        "invalid input: menu name is required"
    );
    assert_eq!(DomainError::Conflict("dup".to_string()).message(), "conflict: dup");
    assert_eq!(DomainError::Internal("disk".to_string()).message(), "internal error");
}
