//! A projects treasury: managers hold funding proposals, approved proposals are paid out of
//! a pot each spend period, and what is left may be burnt in part.

pub mod account;
pub mod laws;
pub mod managers;
pub mod pallet;
pub mod permill;
pub mod spend;
pub mod types;
pub mod weights;
