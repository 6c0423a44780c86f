//! A verified record store for a study-card service.
//!
//! The store keeps accounts, card decks and sessions. `Database` holds the
//! three tables and decides every operation; `model::StoreState` says, as a
//! function from state to state and answer, what each operation does, and
//! `laws` proves what the operations promise of one another. `codec` turns
//! records into bytes and back, `keys` derives ids from names, `digest`
//! and `token` deal with passwords and access tokens, and `SharedDatabase`
//! puts one store behind a lock for many callers.

pub mod clock;
pub mod codec;
pub mod database;
pub mod digest;
pub mod error;
pub mod keys;
pub mod laws;
pub mod model;
pub mod records;
pub mod shared;
pub mod table;
pub mod token;

pub use clock::get_current_unix_time_seconds;
pub use database::Database;
pub use error::AndyError;
pub use keys::hash;
pub use model::StoreState;
pub use records::{Card, CardDeck, Session, UserEntry};
pub use shared::SharedDatabase;
