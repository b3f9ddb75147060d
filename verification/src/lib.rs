//! Range reads of an embedded key-value store.
//!
//! The store keeps its entries in a fixed number of files. Each file holds records in ascending key
//! order, a newer file hides what an older one says of the same key, and a record may mark its key
//! as deleted. A [`Cursor`] walks the entries between two [`Bound`]s in lexicographically ascending
//! order of their keys.
//!
//! No function of this crate reads anything. Opening a cursor ([`Cursor::new`]) and asking it for
//! the next entry ([`Cursor::next`]) answer with requests, which the caller carries out on whatever
//! holds the files, and whose results it reports back as events.
//!
//! The contracts of these functions say which request or result follows each event. How events and
//! requests hang together is stated in [`protocol`], whatever the files hold. What a whole call and
//! a whole range read come to is stated in [`reading`] and [`range`], over the model of the files
//! in [`store`].

pub mod bound;
pub mod config;
pub mod cursor;
pub mod errors;
pub mod file;
pub mod inline_vec;
pub mod keys;
mod merge_proof;
pub mod opening;
pub mod protocol;
pub mod range;
pub mod reading;
pub mod search;
pub mod store;

pub use bound::Bound;
pub use cursor::Cursor;
