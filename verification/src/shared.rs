//! One store for many callers.
//!
//! The store stands behind a reader-writer lock whose invariant is the
//! store's well-formedness. An operation that changes the store takes the
//! lock for writing, so its reading and its writing are one step that no
//! other caller can come between; an operation that only reads takes the
//! lock for reading, together with any number of other readers. Every
//! operation gives the lock back before it returns, whatever it answers.
//! The lock waits by spinning.

use crate::database::answer_view;
use crate::database::Database;
use crate::error::AndyError;
use crate::model::StoreState;
use crate::records::CardView;
use crate::records::ListCardDecksResponse;
use crate::records::ListCardsResponse;
use crate::records::LoginResponse;
use crate::records::UserEntry;
use vstd::prelude::*;
use vstd::rwlock::RwLock;
use vstd::rwlock::RwLockPredicate;

verus! {

/// What the lock keeps true of the store inside it.
pub struct InOrder;

impl RwLockPredicate<Database> for InOrder {
    open spec fn inv(self, store: Database) -> bool {
        store.wf()
    }
}

/// A store that many callers hold at once.
///
/// Each operation is the operation of the same name on `Database`, applied
/// in one step to the store as it stands when the lock is taken. What it
/// answers is therefore that operation's answer on some well-formed store;
/// which store, depends on what other callers did before.
pub struct SharedDatabase {
    lock: RwLock<Database, InOrder>,
}

impl SharedDatabase {
    /// Puts `store` behind a lock.
    pub fn new(store: Database) -> (shared: SharedDatabase)
        requires
            store.wf(),
    {
        SharedDatabase { lock: RwLock::new(store, Ghost(InOrder)) }
    }

    /// Takes the store out again, once no other caller holds it.
    pub fn into_inner(self) -> (store: Database)
        ensures
            store.wf(),
    {
        self.lock.into_inner()
    }

    /// Registers an account; see `Database::new_user`.
    pub fn new_user(&self, user_name: String, email: String, password: String) -> (r: Result<
        (),
        AndyError,
    >)
        ensures
            exists|store: StoreState, now: u64|
                store.wf() && r == (#[trigger] store.new_user(
                    user_name@,
                    email@,
                    password@,
                    now,
                )).1,
    {
        let (mut store, handle) = self.lock.acquire_write();
        proof {
            store.lemma_view_wf();
        }
        let r = store.new_user(user_name, email, password);
        handle.release_write(store);
        r
    }

    /// Replaces a password; see `Database::change_password`.
    pub fn change_password(&self, email: String, old_password: String, new_password: String) -> (r:
        Result<(), AndyError>)
        ensures
            exists|store: StoreState|
                store.wf() && r == (#[trigger] store.change_password(
                    email@,
                    old_password@,
                    new_password@,
                )).1,
    {
        let (mut store, handle) = self.lock.acquire_write();
        proof {
            store.lemma_view_wf();
        }
        let r = store.change_password(email, old_password, new_password);
        handle.release_write(store);
        r
    }

    /// Removes an account with its decks; see `Database::delete_user`.
    pub fn delete_user(&self, email: String, password: String) -> (r: Result<(), AndyError>)
        ensures
            exists|store: StoreState|
                store.wf() && r == (#[trigger] store.delete_user(email@, password@)).1,
    {
        let (mut store, handle) = self.lock.acquire_write();
        proof {
            store.lemma_view_wf();
        }
        let r = store.delete_user(email, password);
        handle.release_write(store);
        r
    }

    /// Logs in; see `Database::login`.
    pub fn login(&self, email: String, password: String) -> (r: Result<LoginResponse, AndyError>)
        ensures
            exists|store: StoreState, now: u64|
                store.wf() && answer_view(r) == (#[trigger] store.login(email@, password@, now)).1,
    {
        let (mut store, handle) = self.lock.acquire_write();
        proof {
            store.lemma_view_wf();
        }
        let r = store.login(email, password);
        handle.release_write(store);
        r
    }

    /// Checks an access token; see `Database::validate_token`.
    pub fn validate_token(&self, token: String) -> (r: Result<u64, AndyError>)
        ensures
            exists|store: StoreState, now: u64|
                store.wf() && r == (#[trigger] store.validate_token(token@, now)).1,
    {
        let (mut store, handle) = self.lock.acquire_write();
        proof {
            store.lemma_view_wf();
        }
        let r = store.validate_token(token);
        handle.release_write(store);
        r
    }

    /// Ends a session; see `Database::logout`.
    pub fn logout(&self, token: String) -> (r: Result<(), AndyError>)
        ensures
            exists|store: StoreState| store.wf() && r == (#[trigger] store.logout(token@)).1,
    {
        let (mut store, handle) = self.lock.acquire_write();
        proof {
            store.lemma_view_wf();
        }
        let r = store.logout(token);
        handle.release_write(store);
        r
    }

    /// Stores an empty deck; see `Database::new_card_deck`.
    pub fn new_card_deck(&self, user_id: u64, deck_name: String) -> (r: Result<u64, AndyError>)
        ensures
            exists|store: StoreState, now: u64|
                store.wf() && r == (#[trigger] store.new_card_deck(user_id, deck_name@, now)).1,
    {
        let (mut store, handle) = self.lock.acquire_write();
        proof {
            store.lemma_view_wf();
        }
        let r = store.new_card_deck(user_id, deck_name);
        handle.release_write(store);
        r
    }

    /// Removes a deck; see `Database::delete_card_deck`.
    pub fn delete_card_deck(&self, user_id: u64, deck_id: u64) -> (r: Result<(), AndyError>)
        ensures
            exists|store: StoreState|
                store.wf() && r == (#[trigger] store.delete_card_deck(user_id, deck_id)).1,
    {
        let (mut store, handle) = self.lock.acquire_write();
        proof {
            store.lemma_view_wf();
        }
        let r = store.delete_card_deck(user_id, deck_id);
        handle.release_write(store);
        r
    }

    /// Appends a card to a deck; see `Database::new_card`. The deck is read
    /// and written back under one hold of the lock, so of two appends to
    /// one deck neither undoes the other.
    pub fn new_card(&self, user_id: u64, deck_id: u64, question: String, answer: String) -> (r:
        Result<(), AndyError>)
        ensures
            exists|store: StoreState|
                store.wf() && r == (#[trigger] store.new_card(
                    user_id,
                    deck_id,
                    (CardView { question: question@, answer: answer@ }),
                )).1,
    {
        let (mut store, handle) = self.lock.acquire_write();
        proof {
            store.lemma_view_wf();
        }
        let r = store.new_card(user_id, deck_id, question, answer);
        handle.release_write(store);
        r
    }

    /// Replaces a card; see `Database::edit_card`. The position is checked
    /// against the deck as it stands under the lock.
    pub fn edit_card(
        &self,
        user_id: u64,
        deck_id: u64,
        card_index: u64,
        new_question: String,
        new_answer: String,
    ) -> (r: Result<(), AndyError>)
        ensures
            exists|store: StoreState|
                store.wf() && r == (#[trigger] store.edit_card(
                    user_id,
                    deck_id,
                    card_index,
                    (CardView { question: new_question@, answer: new_answer@ }),
                )).1,
    {
        let (mut store, handle) = self.lock.acquire_write();
        proof {
            store.lemma_view_wf();
        }
        let r = store.edit_card(user_id, deck_id, card_index, new_question, new_answer);
        handle.release_write(store);
        r
    }

    /// Removes a card; see `Database::delete_card`. The position is checked
    /// against the deck as it stands under the lock.
    pub fn delete_card(&self, user_id: u64, deck_id: u64, card_index: u64) -> (r: Result<
        (),
        AndyError,
    >)
        ensures
            exists|store: StoreState|
                store.wf() && r == (#[trigger] store.delete_card(user_id, deck_id, card_index)).1,
    {
        let (mut store, handle) = self.lock.acquire_write();
        proof {
            store.lemma_view_wf();
        }
        let r = store.delete_card(user_id, deck_id, card_index);
        handle.release_write(store);
        r
    }

    /// The cards of a deck; see `Database::list_cards`.
    pub fn list_cards(&self, user_id: u64, deck_id: u64) -> (r: Result<ListCardsResponse, AndyError>)
        ensures
            exists|store: StoreState|
                store.wf() && answer_view(r) == #[trigger] store.list_cards(user_id, deck_id),
    {
        let handle = self.lock.acquire_read();
        let store = handle.borrow();
        proof {
            store.lemma_view_wf();
        }
        let r = store.list_cards(user_id, deck_id);
        handle.release_read();
        r
    }

    /// The decks of an owner; see `Database::list_card_decks`.
    pub fn list_card_decks(&self, user_id: u64) -> (r: Result<ListCardDecksResponse, AndyError>)
        ensures
            exists|store: StoreState|
                #![trigger store.wf()]
                store.wf() && match r {
                    Ok(listing) => !store.has_oversized_deck(user_id) && store.is_deck_listing(
                        user_id,
                        listing@,
                    ),
                    Err(e) => e == AndyError::IntCast && store.has_oversized_deck(user_id),
                },
    {
        let handle = self.lock.acquire_read();
        let store = handle.borrow();
        proof {
            store.lemma_view_wf();
        }
        let r = store.list_card_decks(user_id);
        handle.release_read();
        r
    }

    /// The account registered under `username`; see `Database::find_user`.
    pub fn find_user(&self, username: &String) -> (found: Option<UserEntry>)
        ensures
            exists|store: StoreState|
                #![trigger store.wf()]
                store.wf() && match found {
                    Some(user) => store.users.dom().contains(username@) && user@
                        == store.users[username@],
                    None => !store.users.dom().contains(username@),
                },
    {
        let handle = self.lock.acquire_read();
        let store = handle.borrow();
        proof {
            store.lemma_view_wf();
        }
        let found = store.find_user(username);
        handle.release_read();
        found
    }
}

} // verus!
