//! Back-office administration core: the menu/role authorization hierarchy
//! (menu tree construction, role-to-menu assignment, the menu store), the
//! request and record types of the API, and their validation rules.

pub mod error;
pub mod domain;
pub mod menu_tree;
pub mod text;
pub mod api;
pub mod auth;
pub mod menu_store;
pub mod services;
pub mod forest_count;
