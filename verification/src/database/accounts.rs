//! Accounts: registration, passwords, removal.

use super::lemma_decks_distinct;
use super::lemma_decks_sorted_remove;
use super::lemma_users_distinct;
use super::lemma_users_sorted_insert;
use super::lemma_users_sorted_remove;
use super::lemma_users_sorted_update;
use super::deck_key;
use super::deck_val;
use super::row_key;
use super::user_key;
use super::user_val;
use super::Database;
use super::UserSlot;
use crate::clock::get_current_unix_time_seconds;
use crate::codec::user_fits;
use crate::digest::same_digest;
use crate::digest::sha256_hash;
use crate::error::AndyError;
use crate::keys::hash;
use crate::keys::spec_hash;
use crate::records::UserEntry;
use crate::table::distinct_keys;
use crate::table::lemma_rows_insert;
use crate::table::lemma_rows_key;
use crate::table::lemma_rows_remove;
use crate::table::lemma_rows_row;
use crate::table::lemma_rows_update;
use vstd::prelude::*;

verus! {

impl Database {
    /// The first account, in order of id, that is registered with `email`.
    fn locate_email(&self, email: &String) -> (found: Option<usize>)
        requires
            self.wf(),
        ensures
            match found {
                Some(i) => {
                    &&& i < self.users.len()
                    &&& self@.account_for(email@) == Some(self.users[i as int].username@)
                    &&& self@.users.dom().contains(self.users[i as int].username@)
                    &&& self@.users[self.users[i as int].username@] == self.users[i as int]@
                },
                None => self@.account_for(email@) is None,
            },
    {
        proof {
            lemma_users_distinct(self.users@);
        }
        let mut i: usize = 0;
        while i < self.users.len()
            invariant
                self.wf(),
                distinct_keys(self.users@, user_key()),
                i <= self.users.len(),
                forall|j: int| 0 <= j < i ==> self.users[j].email@ != email@,
            decreases self.users.len() - i,
        {
            if self.users[i].email == *email {
                proof {
                    let rows = self.users@;
                    let view = self@;
                    let name = rows[i as int].username@;
                    lemma_rows_row(rows, user_key(), user_val(), i as int);
                    assert(view.registered(name, email@));
                    assert forall|other: Seq<char>| #[trigger]
                        view.registered(other, email@) implies view.users[name].user_id
                        <= view.users[other].user_id by {
                        let k = lemma_rows_key(rows, user_key(), user_val(), other);
                        if i < k {
                            assert(rows[i as int].user_id < rows[k].user_id);
                        }
                    }
                    assert(view.first_registered(name, email@));
                    let chosen = choose|n: Seq<char>| view.first_registered(n, email@);
                    assert(view.first_registered(chosen, email@));
                    assert(view.registered(chosen, email@));
                    let k = lemma_rows_key(rows, user_key(), user_val(), chosen);
                    assert(rows[k].user_id == rows[i as int].user_id);
                    if i < k {
                        assert(rows[i as int].user_id < rows[k].user_id);
                    } else if k < i {
                        assert(rows[k].user_id < rows[i as int].user_id);
                    }
                    assert(chosen == name);
                }
                return Some(i);
            }
            i += 1;
        }
        proof {
            let rows = self.users@;
            let view = self@;
            if exists|n: Seq<char>| view.registered(n, email@) {
                let n = choose|n: Seq<char>| view.registered(n, email@);
                let k = lemma_rows_key(rows, user_key(), user_val(), n);
                assert(rows[k].email@ == email@);
            }
        }
        None
    }

    /// The row of the account that `email` and `password` together unlock.
    pub(super) fn authenticate(&self, email: &String, password: &String) -> (r: Result<usize, AndyError>)
        requires
            self.wf(),
        ensures
            match r {
                Ok(i) => {
                    &&& i < self.users.len()
                    &&& self@.authenticate(email@, password@) == Ok::<Seq<char>, AndyError>(
                        self.users[i as int].username@,
                    )
                    &&& self@.users.dom().contains(self.users[i as int].username@)
                    &&& self@.users[self.users[i as int].username@] == self.users[i as int]@
                },
                Err(e) => self@.authenticate(email@, password@) == Err::<Seq<char>, AndyError>(e),
            },
    {
        match self.locate_email(email) {
            None => Err(AndyError::UserDoesNotExist),
            Some(i) => {
                let digest = sha256_hash(password.as_str().as_bytes());
                if same_digest(&self.users[i].password_hash, &digest) {
                    Ok(i)
                } else {
                    Err(AndyError::WrongPassword)
                }
            },
        }
    }

    /// Files `entry` where its id puts it, unless its name or id is taken.
    fn file_user(&mut self, entry: UserEntry) -> (r: Result<(), AndyError>)
        requires
            old(self).wf(),
            entry.user_id == spec_hash(entry.username@),
        ensures
            final(self).wf(),
            (final(self)@, r) == old(self)@.file_user(entry@),
    {
        match self.locate_user(&entry.username) {
            UserSlot::Found(_) => Err(AndyError::Conflict),
            UserSlot::Taken(_) => Err(AndyError::IdentifierCollision),
            UserSlot::Free(at) => {
                proof {
                    let rows = self.users@;
                    lemma_users_distinct(rows);
                    assert forall|i: int| 0 <= i < rows.len() implies user_key()(#[trigger] rows[i])
                        != user_key()(entry) by {
                        lemma_rows_row(rows, user_key(), user_val(), i);
                    }
                    lemma_rows_insert(rows, user_key(), user_val(), at as int, entry);
                    lemma_users_sorted_insert(rows, at as int, entry);
                }
                self.users.insert(at, entry);
                Ok(())
            },
        }
    }

    /// Registers an account at the time `now`.
    ///
    /// Fails with `Conflict` where the username is taken, with
    /// `IdentifierCollision` where another username has the same id, and
    /// leaves the store unchanged then. Otherwise stores the account under
    /// the id derived from its name, with the digest of its password.
    pub fn new_user_at(
        &mut self,
        user_name: String,
        email: String,
        password: String,
        now: u64,
    ) -> (r: Result<(), AndyError>)
        requires
            old(self).wf(),
        ensures
            final(self).wf(),
            (final(self)@, r) == old(self)@.new_user(user_name@, email@, password@, now),
    {
        let user_id = hash(user_name.as_str());
        let password_hash = sha256_hash(password.as_str().as_bytes());
        self.file_user(
            UserEntry { username: user_name, user_id, email, password_hash, signup_time: now },
        )
    }

    /// Files the account that `data` encode, as it was stored by an earlier
    /// run.
    ///
    /// Fails with `EncodingCorruption` where `data` encode no account or
    /// one whose id is not derived from its name, with `Conflict` or
    /// `IdentifierCollision` as a registration would, and leaves the store
    /// unchanged then.
    pub fn load_user(&mut self, data: &[u8]) -> (r: Result<(), AndyError>)
        requires
            old(self).wf(),
        ensures
            final(self).wf(),
            (final(self)@, r) == old(self)@.load_user(data@),
    {
        match UserEntry::from_bytes(data) {
            Err(e) => Err(e),
            Ok(entry) => {
                if entry.user_id != hash(entry.username.as_str()) {
                    return Err(AndyError::EncodingCorruption);
                }
                self.file_user(entry)
            },
        }
    }

    /// The bytes under which the account `username` is to be kept; `None`
    /// where there is no such account.
    pub fn stored_user(&self, username: &String) -> (r: Option<Vec<u8>>)
        requires
            self.wf(),
        ensures
            r.is_some() == self@.users.dom().contains(username@),
            r matches Some(bytes) ==> self@.stored_user(username@) == Some(bytes@) && user_fits(
                self@.users[username@],
            ),
            r is None ==> self@.stored_user(username@) is None,
    {
        match self.locate_user(username) {
            UserSlot::Found(i) => Some(self.users[i].as_bytes()),
            UserSlot::Taken(_) => None,
            UserSlot::Free(_) => None,
        }
    }

    /// Registers an account at the time the clock shows; see `new_user_at`.
    pub fn new_user(&mut self, user_name: String, email: String, password: String) -> (r: Result<
        (),
        AndyError,
    >)
        requires
            old(self).wf(),
        ensures
            final(self).wf(),
            exists|now: u64|
                (final(self)@, r) == #[trigger] old(self)@.new_user(
                    user_name@,
                    email@,
                    password@,
                    now,
                ),
    {
        let now = get_current_unix_time_seconds();
        self.new_user_at(user_name, email, password, now)
    }

    /// Replaces the password of the account that `email` stands for.
    ///
    /// Fails with `UserDoesNotExist` where no account has the email, with
    /// `WrongPassword` where `old_password` is not the account's password,
    /// and leaves the store unchanged then.
    pub fn change_password(&mut self, email: String, old_password: String, new_password: String) -> (r:
        Result<(), AndyError>)
        requires
            old(self).wf(),
        ensures
            final(self).wf(),
            (final(self)@, r) == old(self)@.change_password(email@, old_password@, new_password@),
    {
        match self.authenticate(&email, &old_password) {
            Err(e) => Err(e),
            Ok(i) => {
                let password_hash = sha256_hash(new_password.as_str().as_bytes());
                let mut entry = self.users.remove(i);
                entry.password_hash = password_hash;
                proof {
                    let rows = old(self).users@;
                    assert(rows.remove(i as int).insert(i as int, entry) =~= rows.update(
                        i as int,
                        entry,
                    ));
                    lemma_users_distinct(rows);
                    lemma_rows_update(rows, user_key(), user_val(), i as int, entry);
                    lemma_users_sorted_update(rows, i as int, entry);
                }
                self.users.insert(i, entry);
                Ok(())
            },
        }
    }

    /// Takes every deck of `owner` out of the deck table.
    fn drop_decks_of(&mut self, owner: u64)
        requires
            old(self).wf(),
        ensures
            final(self).wf(),
            final(self).users == old(self).users,
            final(self).sessions == old(self).sessions,
            final(self)@.decks == old(self)@.decks.restrict(Set::new(|k: (u64, u64)| k.0 != owner)),
    {
        let ghost before = self@.decks;
        let mut i: usize = 0;
        while i < self.decks.len()
            invariant
                self.wf(),
                self.users == old(self).users,
                self.sessions == old(self).sessions,
                i <= self.decks.len(),
                forall|j: int| 0 <= j < i ==> self.decks[j].user_id != owner,
                forall|k: (u64, u64)|
                    k.0 != owner ==> (#[trigger] self@.decks.dom().contains(k))
                        == before.dom().contains(k),
                forall|k: (u64, u64)|
                    k.0 != owner && #[trigger] self@.decks.dom().contains(k) ==> self@.decks[k]
                        == before[k],
            decreases self.decks.len() - i,
        {
            if self.decks[i].user_id == owner {
                let ghost earlier = self@.decks;
                let ghost key = row_key(self.decks@[i as int]);
                proof {
                    lemma_decks_distinct(self.decks@);
                    lemma_rows_remove(self.decks@, deck_key(), deck_val(), i as int);
                    lemma_decks_sorted_remove(self.decks@, i as int);
                    assert(deck_key()(self.decks@[i as int]) == key);
                }
                self.decks.remove(i);
                assert(self@.decks == earlier.remove(key));
            } else {
                i += 1;
            }
        }
        proof {
            lemma_decks_distinct(self.decks@);
            let after = self@.decks;
            assert forall|k: (u64, u64)| k.0 == owner implies !after.dom().contains(k) by {
                if after.dom().contains(k) {
                    let j = lemma_rows_key(self.decks@, deck_key(), deck_val(), k);
                }
            }
            assert(after =~= before.restrict(Set::new(|k: (u64, u64)| k.0 != owner)));
        }
    }

    /// Removes the account that `email` stands for, with every deck it owns.
    ///
    /// Fails with `UserDoesNotExist` where no account has the email, with
    /// `WrongPassword` where the password is not the account's, and leaves
    /// the store unchanged then.
    pub fn delete_user(&mut self, email: String, password: String) -> (r: Result<(), AndyError>)
        requires
            old(self).wf(),
        ensures
            final(self).wf(),
            (final(self)@, r) == old(self)@.delete_user(email@, password@),
    {
        match self.authenticate(&email, &password) {
            Err(e) => Err(e),
            Ok(i) => {
                let owner = self.users[i].user_id;
                proof {
                    lemma_users_distinct(self.users@);
                    lemma_rows_remove(self.users@, user_key(), user_val(), i as int);
                    lemma_users_sorted_remove(self.users@, i as int);
                }
                self.users.remove(i);
                self.drop_decks_of(owner);
                Ok(())
            },
        }
    }
}

} // verus!
