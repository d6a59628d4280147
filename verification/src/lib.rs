//! Hierarchical permission rules: a trie of dotted permission paths with
//! `?` and `*` wildcards, users and weighted groups that inherit from each
//! other, and a manager that applies batches of operations and resolves
//! the effective permission of a user.

pub mod text;
pub mod path;
pub mod permissions;
pub mod strset;
pub mod users;
pub mod groups;
pub mod keyed;
pub mod actions;
pub mod manager;
pub mod patterns;
pub mod access;
pub mod permission_layer;
pub mod casbin;
pub mod auth;
pub mod sharding;
pub mod redis_keys;
pub mod cache_keys;
pub mod perm_keys;
pub mod email;
pub mod defaults;
pub mod errors;
pub mod text_form;
pub mod request_info;
pub mod perm_store;
pub mod sessions;
