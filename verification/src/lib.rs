//! An in-memory record store for clients and the employees who own them.
//!
//! Records live in a height-balanced binary search tree keyed by integer id.
//! Facades for the two record kinds sit on top of an entity-agnostic storage
//! contract; the client facade also maintains the index from an employee to
//! the clients assigned to that employee.

pub mod errors;
pub mod shape;
pub mod listing;
pub mod records;
pub mod avl_tree;
pub mod storage;
pub mod index;
pub mod operation_handlers;
pub mod database;
pub mod menu;
