use crate::codec::dec_deck;
use crate::codec::deck_fits;
use crate::codec::session_fits;
use crate::codec::user_fits;
use crate::codec::dec_session;
use crate::codec::dec_user;
use crate::codec::enc_deck;
use crate::codec::enc_session;
use crate::codec::enc_user;
use crate::digest::password_digest;
use crate::error::AndyError;
use crate::keys::spec_hash;
use crate::records::CardView;
use crate::records::DeckSummaryView;
use crate::records::DeckView;
use crate::records::LoginView;
use crate::records::SessionView;
use crate::records::UserView;
use crate::token::token_for;
use vstd::prelude::*;

verus! {

/// How long an access token stays valid after the login that issued it.
pub const SESSION_TTL_SECONDS: u64 = 86_400;

/// When a token issued at `now` stops being valid.
pub open spec fn expiry_of(now: u64) -> u64 {
    if now <= u64::MAX - SESSION_TTL_SECONDS {
        (now + SESSION_TTL_SECONDS) as u64
    } else {
        u64::MAX
    }
}

/// The line that a deck contributes to its owner's listing.
pub open spec fn summary_of(deck_id: u64, deck: DeckView) -> DeckSummaryView {
    DeckSummaryView { deck_id, name: deck.name, num_cards: deck.cards.len() as u32 }
}

/// The state of the store: three tables, accounts by username, decks by
/// owner id and deck id, sessions by token. Every operation of the store is a function
/// from one such value to the next and to the operation's answer.
pub struct StoreState {
    pub users: Map<Seq<char>, UserView>,
    pub decks: Map<(u64, u64), DeckView>,
    pub sessions: Map<Seq<char>, SessionView>,
}

impl StoreState {
    /// The store with no record in it.
    pub open spec fn empty() -> StoreState {
        StoreState { users: Map::empty(), decks: Map::empty(), sessions: Map::empty() }
    }

    /// What holds of every store that the operations can reach: a record is
    /// filed under its own name or token, ids are derived from names, and no
    /// two accounts share an id.
    pub open spec fn wf(self) -> bool {
        &&& forall|n: Seq<char>| #[trigger]
            self.users.dom().contains(n) ==> {
                &&& self.users[n].username == n
                &&& self.users[n].user_id == spec_hash(n)
            }
        &&& forall|a: Seq<char>, b: Seq<char>|
            #![trigger self.users.dom().contains(a), self.users.dom().contains(b)]
            self.users.dom().contains(a) && self.users.dom().contains(b) && spec_hash(a)
                == spec_hash(b) ==> a == b
        &&& forall|k: (u64, u64)| #[trigger]
            self.decks.dom().contains(k) ==> k.1 == spec_hash(self.decks[k].name)
        &&& forall|t: Seq<char>| #[trigger]
            self.sessions.dom().contains(t) ==> self.sessions[t].token == t
    }

    /// Some account carries the id `id`.
    pub open spec fn id_in_use(self, id: u64) -> bool {
        exists|n: Seq<char>| #[trigger] self.users.dom().contains(n) && self.users[n].user_id == id
    }

    /// The account `name` exists and is registered with `email`.
    pub open spec fn registered(self, name: Seq<char>, email: Seq<char>) -> bool {
        self.users.dom().contains(name) && self.users[name].email == email
    }

    /// `name` is the account with the smallest id among those registered
    /// with `email`.
    pub open spec fn first_registered(self, name: Seq<char>, email: Seq<char>) -> bool {
        &&& self.registered(name, email)
        &&& forall|other: Seq<char>| #[trigger]
            self.registered(other, email) ==> self.users[name].user_id
                <= self.users[other].user_id
    }

    /// The account that an email stands for: of the accounts registered with
    /// it, the one with the smallest id; none where no account has it.
    pub open spec fn account_for(self, email: Seq<char>) -> Option<Seq<char>> {
        if exists|name: Seq<char>| self.registered(name, email) {
            Some(choose|name: Seq<char>| self.first_registered(name, email))
        } else {
            None
        }
    }

    /// The account that `email` and `password` together unlock.
    pub open spec fn authenticate(self, email: Seq<char>, password: Seq<char>) -> Result<
        Seq<char>,
        AndyError,
    > {
        match self.account_for(email) {
            None => Err(AndyError::UserDoesNotExist),
            Some(name) => if self.users[name].password_hash == password_digest(password) {
                Ok(name)
            } else {
                Err(AndyError::WrongPassword)
            },
        }
    }

    /// Files an account record under its username.
    pub open spec fn file_user(self, user: UserView) -> (StoreState, Result<(), AndyError>) {
        if self.users.dom().contains(user.username) {
            (self, Err(AndyError::Conflict))
        } else if self.id_in_use(user.user_id) {
            (self, Err(AndyError::IdentifierCollision))
        } else {
            (StoreState { users: self.users.insert(user.username, user), ..self }, Ok(()))
        }
    }

    /// Registers an account under `name`.
    pub open spec fn new_user(
        self,
        name: Seq<char>,
        email: Seq<char>,
        password: Seq<char>,
        now: u64,
    ) -> (StoreState, Result<(), AndyError>) {
        self.file_user(
            UserView {
                username: name,
                user_id: spec_hash(name),
                email,
                password_hash: password_digest(password),
                signup_time: now,
            },
        )
    }

    /// Files the account that `bytes` encode. Bytes that encode no account,
    /// or one whose id is not derived from its name, are corrupt.
    pub open spec fn load_user(self, bytes: Seq<u8>) -> (StoreState, Result<(), AndyError>) {
        match dec_user(bytes) {
            None => (self, Err(AndyError::EncodingCorruption)),
            Some(user) => if user.user_id != spec_hash(user.username) {
                (self, Err(AndyError::EncodingCorruption))
            } else {
                self.file_user(user)
            },
        }
    }

    /// Replaces the password of the account that `email` stands for.
    pub open spec fn change_password(
        self,
        email: Seq<char>,
        old_password: Seq<char>,
        new_password: Seq<char>,
    ) -> (StoreState, Result<(), AndyError>) {
        match self.authenticate(email, old_password) {
            Err(e) => (self, Err(e)),
            Ok(name) => {
                let user = UserView {
                    password_hash: password_digest(new_password),
                    ..self.users[name]
                };
                (StoreState { users: self.users.insert(name, user), ..self }, Ok(()))
            },
        }
    }

    /// Removes the account that `email` stands for, and every deck it owns.
    pub open spec fn delete_user(self, email: Seq<char>, password: Seq<char>) -> (
        StoreState,
        Result<(), AndyError>,
    ) {
        match self.authenticate(email, password) {
            Err(e) => (self, Err(e)),
            Ok(name) => {
                let owner = self.users[name].user_id;
                (
                    StoreState {
                        users: self.users.remove(name),
                        decks: self.decks.restrict(Set::new(|k: (u64, u64)| k.0 != owner)),
                        ..self
                    },
                    Ok(()),
                )
            },
        }
    }

    /// Files a session under its token, in place of any session filed
    /// there before.
    pub open spec fn file_session(self, session: SessionView) -> StoreState {
        StoreState { sessions: self.sessions.insert(session.token, session), ..self }
    }

    /// Files the session that `bytes` encode.
    pub open spec fn load_session(self, bytes: Seq<u8>) -> (StoreState, Result<(), AndyError>) {
        match dec_session(bytes) {
            None => (self, Err(AndyError::EncodingCorruption)),
            Some(session) => (self.file_session(session), Ok(())),
        }
    }

    /// The token with serial number `serial` for a login of `user` at
    /// `now` names a session already.
    pub open spec fn token_taken(self, user: UserView, now: u64, serial: u64) -> bool {
        self.sessions.dom().contains(token_for(user, now, serial))
    }

    /// `serial` is the smallest serial number whose token names no session.
    pub open spec fn is_first_free(self, user: UserView, now: u64, serial: u64) -> bool {
        &&& !self.token_taken(user, now, serial)
        &&& forall|earlier: u64|
            earlier < serial ==> #[trigger] self.token_taken(user, now, earlier)
    }

    /// The serial number of the next token for a login of `user` at `now`:
    /// the smallest whose token names no session; none where every such
    /// token names one.
    pub open spec fn free_serial(self, user: UserView, now: u64) -> Option<u64> {
        if exists|serial: u64| self.is_first_free(user, now, serial) {
            Some(choose|serial: u64| self.is_first_free(user, now, serial))
        } else {
            None
        }
    }

    /// Issues an access token to the account that `email` stands for, and
    /// files a new session under it.
    ///
    /// The token is the first, in order of serial number, that names no
    /// session yet, so the session is one more and takes no other's place.
    /// A table in which all tokens of this account and time are taken
    /// refuses the login with `IdentifierCollision`; that takes more
    /// sessions than can be counted in 64 bits, and no `Database` holds
    /// that many.
    pub open spec fn login(self, email: Seq<char>, password: Seq<char>, now: u64) -> (
        StoreState,
        Result<LoginView, AndyError>,
    ) {
        match self.authenticate(email, password) {
            Err(e) => (self, Err(e)),
            Ok(name) => {
                let user = self.users[name];
                match self.free_serial(user, now) {
                    None => (self, Err(AndyError::IdentifierCollision)),
                    Some(serial) => {
                        let token = token_for(user, now, serial);
                        let session = SessionView {
                            token,
                            user_id: user.user_id,
                            issued_at: now,
                            expires_at: expiry_of(now),
                        };
                        (
                            self.file_session(session),
                            Ok(LoginView { access_token: token, user_id: user.user_id }),
                        )
                    },
                }
            },
        }
    }

    /// Looks a token up at time `now`; an expired session is dropped.
    pub open spec fn validate_token(self, token: Seq<char>, now: u64) -> (
        StoreState,
        Result<u64, AndyError>,
    ) {
        if !self.sessions.dom().contains(token) {
            (self, Err(AndyError::BadAccessToken))
        } else if now >= self.sessions[token].expires_at {
            (
                StoreState { sessions: self.sessions.remove(token), ..self },
                Err(AndyError::BadAccessToken),
            )
        } else {
            (self, Ok(self.sessions[token].user_id))
        }
    }

    /// Ends the session of a token.
    pub open spec fn logout(self, token: Seq<char>) -> (StoreState, Result<(), AndyError>) {
        if !self.sessions.dom().contains(token) {
            (self, Err(AndyError::BadAccessToken))
        } else {
            (StoreState { sessions: self.sessions.remove(token), ..self }, Ok(()))
        }
    }

    /// Files a deck under its owner's id and its own.
    pub open spec fn file_deck(self, owner: u64, deck_id: u64, deck: DeckView) -> (
        StoreState,
        Result<u64, AndyError>,
    ) {
        let key = (owner, deck_id);
        if self.decks.dom().contains(key) {
            if self.decks[key].name == deck.name {
                (self, Err(AndyError::Conflict))
            } else {
                (self, Err(AndyError::IdentifierCollision))
            }
        } else {
            (StoreState { decks: self.decks.insert(key, deck), ..self }, Ok(deck_id))
        }
    }

    /// Stores an empty deck called `name` for `owner`.
    pub open spec fn new_card_deck(self, owner: u64, name: Seq<char>, now: u64) -> (
        StoreState,
        Result<u64, AndyError>,
    ) {
        self.file_deck(
            owner,
            spec_hash(name),
            DeckView { creation_time: now, cards: Seq::empty(), name },
        )
    }

    /// Files the deck that `bytes` encode under `(owner, deck_id)`. Bytes
    /// that encode no deck, or one whose name does not give `deck_id`, are
    /// corrupt.
    pub open spec fn load_deck(self, owner: u64, deck_id: u64, bytes: Seq<u8>) -> (
        StoreState,
        Result<(), AndyError>,
    ) {
        match dec_deck(bytes) {
            None => (self, Err(AndyError::EncodingCorruption)),
            Some(deck) => if deck_id != spec_hash(deck.name) {
                (self, Err(AndyError::EncodingCorruption))
            } else {
                match self.file_deck(owner, deck_id, deck) {
                    (next, Ok(_)) => (next, Ok(())),
                    (next, Err(e)) => (next, Err(e)),
                }
            },
        }
    }

    /// Removes a deck.
    pub open spec fn delete_card_deck(self, owner: u64, deck_id: u64) -> (
        StoreState,
        Result<(), AndyError>,
    ) {
        if !self.decks.dom().contains((owner, deck_id)) {
            (self, Err(AndyError::DeckDoesNotExist))
        } else {
            (StoreState { decks: self.decks.remove((owner, deck_id)), ..self }, Ok(()))
        }
    }

    /// Appends a card to a deck.
    pub open spec fn new_card(self, owner: u64, deck_id: u64, card: CardView) -> (
        StoreState,
        Result<(), AndyError>,
    ) {
        let key = (owner, deck_id);
        if !self.decks.dom().contains(key) {
            (self, Err(AndyError::DeckDoesNotExist))
        } else {
            let deck = DeckView { cards: self.decks[key].cards.push(card), ..self.decks[key] };
            (StoreState { decks: self.decks.insert(key, deck), ..self }, Ok(()))
        }
    }

    /// Replaces the card at `index` of a deck.
    pub open spec fn edit_card(self, owner: u64, deck_id: u64, index: u64, card: CardView) -> (
        StoreState,
        Result<(), AndyError>,
    ) {
        let key = (owner, deck_id);
        if !self.decks.dom().contains(key) {
            (self, Err(AndyError::DeckDoesNotExist))
        } else if index >= self.decks[key].cards.len() {
            (self, Err(AndyError::CardIndexOutOfRange))
        } else {
            let deck = DeckView {
                cards: self.decks[key].cards.update(index as int, card),
                ..self.decks[key]
            };
            (StoreState { decks: self.decks.insert(key, deck), ..self }, Ok(()))
        }
    }

    /// Removes the card at `index` of a deck; later cards move up by one.
    pub open spec fn delete_card(self, owner: u64, deck_id: u64, index: u64) -> (
        StoreState,
        Result<(), AndyError>,
    ) {
        let key = (owner, deck_id);
        if !self.decks.dom().contains(key) {
            (self, Err(AndyError::DeckDoesNotExist))
        } else if index >= self.decks[key].cards.len() {
            (self, Err(AndyError::CardIndexOutOfRange))
        } else {
            let deck = DeckView {
                cards: self.decks[key].cards.remove(index as int),
                ..self.decks[key]
            };
            (StoreState { decks: self.decks.insert(key, deck), ..self }, Ok(()))
        }
    }

    /// The bytes under which an account is kept, if there is such an
    /// account.
    pub open spec fn stored_user(self, name: Seq<char>) -> Option<Seq<u8>> {
        if self.users.dom().contains(name) {
            Some(enc_user(self.users[name]))
        } else {
            None
        }
    }

    /// The bytes under which a deck is kept, if there is such a deck.
    pub open spec fn stored_deck(self, owner: u64, deck_id: u64) -> Option<Seq<u8>> {
        if self.decks.dom().contains((owner, deck_id)) {
            Some(enc_deck(self.decks[(owner, deck_id)]))
        } else {
            None
        }
    }

    /// The bytes under which a session is kept, if there is such a session.
    pub open spec fn stored_session(self, token: Seq<char>) -> Option<Seq<u8>> {
        if self.sessions.dom().contains(token) {
            Some(enc_session(self.sessions[token]))
        } else {
            None
        }
    }

    /// The cards of a deck, in order.
    pub open spec fn list_cards(self, owner: u64, deck_id: u64) -> Result<Seq<CardView>, AndyError> {
        if self.decks.dom().contains((owner, deck_id)) {
            Ok(self.decks[(owner, deck_id)].cards)
        } else {
            Err(AndyError::DeckDoesNotExist)
        }
    }

    /// The listing line of one deck.
    pub open spec fn deck_info(self, owner: u64, deck_id: u64) -> Result<
        DeckSummaryView,
        AndyError,
    > {
        if !self.decks.dom().contains((owner, deck_id)) {
            Err(AndyError::DeckDoesNotExist)
        } else if self.decks[(owner, deck_id)].cards.len() > u32::MAX {
            Err(AndyError::IntCast)
        } else {
            Ok(summary_of(deck_id, self.decks[(owner, deck_id)]))
        }
    }

    /// Some deck of `owner` holds more cards than a listing line can count.
    pub open spec fn has_oversized_deck(self, owner: u64) -> bool {
        exists|deck_id: u64| #[trigger]
            self.decks.dom().contains((owner, deck_id)) && self.decks[(owner, deck_id)].cards.len()
                > u32::MAX
    }

    /// `listing` is the listing of `owner`'s decks: one line for each deck,
    /// in ascending order of deck id.
    pub open spec fn is_deck_listing(self, owner: u64, listing: Seq<DeckSummaryView>) -> bool {
        &&& forall|i: int, j: int|
            0 <= i < j < listing.len() ==> listing[i].deck_id < listing[j].deck_id
        &&& forall|i: int|
            0 <= i < listing.len() ==> {
                &&& self.decks.dom().contains((owner, (#[trigger] listing[i]).deck_id))
                &&& listing[i] == summary_of(
                    listing[i].deck_id,
                    self.decks[(owner, listing[i].deck_id)],
                )
            }
        &&& forall|deck_id: u64| #[trigger]
            self.decks.dom().contains((owner, deck_id)) ==> exists|i: int|
                0 <= i < listing.len() && (#[trigger] listing[i]).deck_id == deck_id
    }
}

/// The key of a stored record, with the table it belongs to.
pub enum RecordKey {
    User(Seq<char>),
    Deck(u64, u64),
    Session(Seq<char>),
}

impl StoreState {
    /// Every record can be encoded.
    pub open spec fn fits(self) -> bool {
        &&& forall|n: Seq<char>| #[trigger] self.users.dom().contains(n) ==> user_fits(self.users[n])
        &&& forall|k: (u64, u64)| #[trigger] self.decks.dom().contains(k) ==> deck_fits(self.decks[k])
        &&& forall|t: Seq<char>| #[trigger]
            self.sessions.dom().contains(t) ==> session_fits(self.sessions[t])
    }

    /// The store holds a record under `key`.
    pub open spec fn holds_record(self, key: RecordKey) -> bool {
        match key {
            RecordKey::User(name) => self.users.dom().contains(name),
            RecordKey::Deck(owner, deck_id) => self.decks.dom().contains((owner, deck_id)),
            RecordKey::Session(token) => self.sessions.dom().contains(token),
        }
    }

    /// Every record of this store is a record of `whole`, under the same
    /// key.
    pub open spec fn part_of(self, whole: StoreState) -> bool {
        &&& forall|n: Seq<char>| #[trigger]
            self.users.dom().contains(n) ==> whole.users.dom().contains(n) && whole.users[n]
                == self.users[n]
        &&& forall|k: (u64, u64)| #[trigger]
            self.decks.dom().contains(k) ==> whole.decks.dom().contains(k) && whole.decks[k]
                == self.decks[k]
        &&& forall|t: Seq<char>| #[trigger]
            self.sessions.dom().contains(t) ==> whole.sessions.dom().contains(t)
                && whole.sessions[t] == self.sessions[t]
    }

    /// This store after it loaded the bytes that `source` keeps under
    /// `key`; unchanged where `source` keeps nothing there.
    pub open spec fn reload_one(self, source: StoreState, key: RecordKey) -> StoreState {
        match key {
            RecordKey::User(name) => match source.stored_user(name) {
                Some(bytes) => self.load_user(bytes).0,
                None => self,
            },
            RecordKey::Deck(owner, deck_id) => match source.stored_deck(owner, deck_id) {
                Some(bytes) => self.load_deck(owner, deck_id, bytes).0,
                None => self,
            },
            RecordKey::Session(token) => match source.stored_session(token) {
                Some(bytes) => self.load_session(bytes).0,
                None => self,
            },
        }
    }

    /// This store after it loaded, one key after another, the bytes that
    /// `source` keeps under `keys`.
    pub open spec fn reload(self, source: StoreState, keys: Seq<RecordKey>) -> StoreState
        decreases keys.len(),
    {
        if keys.len() == 0 {
            self
        } else {
            self.reload(source, keys.drop_last()).reload_one(source, keys.last())
        }
    }
}

} // verus!
