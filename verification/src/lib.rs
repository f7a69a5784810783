//! Checked multi-borrow access for keyed containers.
//!
//! An exclusive borrow of a keyed container normally yields at most one live
//! mutable view of its contents.  This crate carves one exclusive borrow into
//! several disjoint mutable sub-borrows, each resolved by key, with the
//! guarantee that no two of them denote the same storage slot.
//!
//! Two container backends carry the same operation set: `hash_backend`,
//! whose keys are unordered, and `order_backend`, whose keys are totally
//! ordered and looked up by binary search.  Each offers pair and triple
//! accessors in a soft form (an inadmissible request yields the empty
//! outcome) and a hard form (admissibility is a precondition), and a bounded
//! multi-access session — a claim ledger sized by the caller — for any
//! number of simultaneous claims up to that size, pulled one by one directly
//! or over a fixed key list.
//!
//! Where this discipline is kept by runtime identity checks alone, a
//! violation surfaces only once two aliasing references are already in play;
//! here the checks are also stated as contracts, so the absence of aliasing
//! among everything handed out is established statically.  The guarantees
//! themselves are stated once, over the model, in `laws`.

pub mod hash_backend;
pub mod keycmp;
pub mod laws;
pub mod model;
pub mod order_backend;
pub mod slots;
