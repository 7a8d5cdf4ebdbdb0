//! The core of a password manager that keeps its secrets in vaults on disk:
//! key derivation and encryption, the layout of a vault and the operations
//! on its entries, the session that carries the master key from one run to
//! the next, and the encrypted export of a whole vault.
//!
//! The library reads and writes no file itself. It works on an image of the
//! base directory, a [`tree::FileTree`], and records the changes that it
//! makes to it; the program around it reads the image from the disk and
//! makes the recorded changes there.

use vstd::prelude::*;

pub mod codec;
pub mod config;
pub mod crypto;
pub mod entries;
pub mod error;
pub mod export;
pub mod git;
pub mod json;
pub mod listing;
pub mod primitives;
pub mod session;
pub mod storage;
pub mod text;
pub mod transfer;
pub mod tree;
pub mod types;
pub mod utils;

verus! {

} // verus!
