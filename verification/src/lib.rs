//! A git implementation: the object store, index, trees, diffs, checkout and merge logic.
pub mod bytes;
pub mod error;
pub mod hash;
pub mod obj;
pub mod io;
pub mod delta;
pub mod bytemap;
pub mod index;
pub mod repo;
pub mod tree;
pub mod diff;
pub mod commit;
pub mod rev;
pub mod checkout;
pub mod merge;
pub mod ancestry;
pub mod xdiff;
pub mod fs;
pub mod iter;
pub mod graph;
pub mod config;
pub mod cherrypick;
pub mod cmd;
pub mod refname;
