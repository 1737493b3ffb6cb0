//! A B+Tree over 8KB slotted pages of a single file.
//!
//! - **Page format.** 8KB slotted pages with a binary-search slot array ([`page`]).
//! - **Bytes -> Bytes.** Variable-length keys and values, stored sorted ([`db`]).
//! - **Persistent.** The pages live in a file; the pager ([`pager`]) says which page it lacks
//!   and which operations bring the file up to date ([`plan`]).
//! - **No WAL.** Mutations buffer in memory until they are synced.
//! - **Overlays.** A writable overlay can be layered over a frozen snapshot.
//!
//! The library does no input or output. An operation that lacks a page returns a request for
//! it; the caller reads the page, hands it over with [`db::Db::supply`], and calls again.

pub mod bits;
pub mod byte;
pub mod climb;
pub mod db;
pub mod error;
pub mod file_laws;
pub mod files;
pub mod growth;
pub mod internal;
pub mod items;
pub mod key;
pub mod laws;
pub mod layout;
pub mod layout_proof;
pub mod leaf;
pub mod meta;
pub mod page;
pub mod page_laws;
pub mod pager;
pub mod pager_laws;
pub mod plan;
pub mod tree;
pub mod tree_change;
pub mod tree_climb;
pub mod tree_leaves;
pub mod tree_proof;
pub mod tree_read;

pub use db::Db;
pub use error::{Error, Fault, Result};
pub use meta::Meta;
pub use page::Page;
pub use pager::{Fetch, FilePager, PageRequest};
