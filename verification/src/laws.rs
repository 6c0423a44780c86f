//! What the operations of the store promise of one another, stated over the
//! abstract store and proved from the operations' definitions.

use crate::digest::password_digest;
use crate::error::AndyError;
use crate::keys::spec_hash;
use crate::codec::lemma_deck_round_trip;
use crate::codec::lemma_session_round_trip;
use crate::codec::lemma_user_round_trip;
use crate::model::expiry_of;
use crate::model::RecordKey;
use crate::model::StoreState;
use crate::records::CardView;
use crate::records::DeckSummaryView;
use crate::token::lemma_tokens_differ;
use crate::token::token_for;
use vstd::prelude::*;

verus! {

/// After a registration under `name` that was not refused for an id
/// collision, the account is found under `name` with the id derived from
/// `name`, and every further registration under `name` is refused with
/// `Conflict`.
pub proof fn lemma_registered_account_is_found(
    store: StoreState,
    name: Seq<char>,
    email: Seq<char>,
    password: Seq<char>,
    now: u64,
    other_email: Seq<char>,
    other_password: Seq<char>,
    later: u64,
)
    requires
        store.wf(),
        store.new_user(name, email, password, now).1 != Err::<(), AndyError>(
            AndyError::IdentifierCollision,
        ),
    ensures
        ({
            let next = store.new_user(name, email, password, now).0;
            &&& next.wf()
            &&& next.users.dom().contains(name)
            &&& next.users[name].user_id == spec_hash(name)
            &&& next.new_user(name, other_email, other_password, later) == (
                next,
                Err::<(), AndyError>(AndyError::Conflict),
            )
        }),
{
    let next = store.new_user(name, email, password, now).0;
    if !store.users.dom().contains(name) {
        assert(!store.id_in_use(spec_hash(name)));
        assert forall|a: Seq<char>, b: Seq<char>|
            next.users.dom().contains(a) && next.users.dom().contains(b) && spec_hash(a)
                == spec_hash(b) implies a == b by {
            if a == name && b != name {
                assert(store.users.dom().contains(b) && store.users[b].user_id == spec_hash(name));
            }
            if b == name && a != name {
                assert(store.users.dom().contains(a) && store.users[a].user_id == spec_hash(name));
            }
        }
    }
}

/// A deck that was just created is in its owner's listing, with its name
/// and no cards.
pub proof fn lemma_new_deck_is_listed(
    store: StoreState,
    owner: u64,
    name: Seq<char>,
    now: u64,
    listing: Seq<DeckSummaryView>,
)
    requires
        store.new_card_deck(owner, name, now).1 is Ok,
        store.new_card_deck(owner, name, now).0.is_deck_listing(owner, listing),
    ensures
        exists|i: int|
            0 <= i < listing.len() && #[trigger] listing[i] == (DeckSummaryView {
                deck_id: spec_hash(name),
                name,
                num_cards: 0,
            }),
{
    let next = store.new_card_deck(owner, name, now).0;
    assert(next.decks.dom().contains((owner, spec_hash(name))));
    let i = choose|i: int| 0 <= i < listing.len() && (#[trigger] listing[i]).deck_id == spec_hash(name);
    assert(listing[i] == DeckSummaryView { deck_id: spec_hash(name), name, num_cards: 0 });
}

/// Two listings of one owner's decks have the same deck in each position
/// that both have.
proof fn lemma_listings_agree_at(
    store: StoreState,
    owner: u64,
    first: Seq<DeckSummaryView>,
    second: Seq<DeckSummaryView>,
    at: int,
)
    requires
        store.is_deck_listing(owner, first),
        store.is_deck_listing(owner, second),
        0 <= at < first.len(),
        at < second.len(),
    ensures
        first[at].deck_id == second[at].deck_id,
    decreases at,
{
    assert forall|j: int| 0 <= j < at implies first[j].deck_id == second[j].deck_id by {
        lemma_listings_agree_at(store, owner, first, second, j);
    }
    if first[at].deck_id < second[at].deck_id {
        let id = first[at].deck_id;
        assert(store.decks.dom().contains((owner, id)));
        let j = choose|j: int| 0 <= j < second.len() && (#[trigger] second[j]).deck_id == id;
        if j < at {
            assert(first[j].deck_id < first[at].deck_id);
        } else if at < j {
            assert(second[at].deck_id < second[j].deck_id);
        }
    } else if second[at].deck_id < first[at].deck_id {
        let id = second[at].deck_id;
        assert(store.decks.dom().contains((owner, id)));
        let j = choose|j: int| 0 <= j < first.len() && (#[trigger] first[j]).deck_id == id;
        if j < at {
            assert(second[j].deck_id < second[at].deck_id);
        } else if at < j {
            assert(first[at].deck_id < first[j].deck_id);
        }
    }
}

/// A listing is no longer than another listing of the same owner's decks.
proof fn lemma_listing_not_longer(
    store: StoreState,
    owner: u64,
    first: Seq<DeckSummaryView>,
    second: Seq<DeckSummaryView>,
)
    requires
        store.is_deck_listing(owner, first),
        store.is_deck_listing(owner, second),
    ensures
        first.len() <= second.len(),
{
    if first.len() > second.len() {
        let at = second.len() as int;
        let id = first[at].deck_id;
        assert(store.decks.dom().contains((owner, id)));
        let j = choose|j: int| 0 <= j < second.len() && (#[trigger] second[j]).deck_id == id;
        lemma_listings_agree_at(store, owner, first, second, j);
        assert(first[j].deck_id < first[at].deck_id);
    }
}

/// An owner's decks have one listing only: the store decides every line of
/// it and the order of the lines.
pub proof fn lemma_listing_is_unique(
    store: StoreState,
    owner: u64,
    first: Seq<DeckSummaryView>,
    second: Seq<DeckSummaryView>,
)
    requires
        store.is_deck_listing(owner, first),
        store.is_deck_listing(owner, second),
    ensures
        first == second,
{
    lemma_listing_not_longer(store, owner, first, second);
    lemma_listing_not_longer(store, owner, second, first);
    assert forall|i: int| 0 <= i < first.len() implies first[i] == second[i] by {
        lemma_listings_agree_at(store, owner, first, second, i);
    }
    assert(first =~= second);
}

/// An owner without decks has the empty listing.
pub proof fn lemma_listing_of_no_decks(store: StoreState, owner: u64, listing: Seq<DeckSummaryView>)
    requires
        forall|deck_id: u64| !store.decks.dom().contains((owner, deck_id)),
        store.is_deck_listing(owner, listing),
    ensures
        listing.len() == 0,
        !store.has_oversized_deck(owner),
{
    if listing.len() > 0 {
        assert(store.decks.dom().contains((owner, listing[0].deck_id)));
    }
}

/// A deck that was just deleted is in no listing of its owner, and its
/// cards cannot be listed.
pub proof fn lemma_deleted_deck_is_gone(
    store: StoreState,
    owner: u64,
    deck_id: u64,
    listing: Seq<DeckSummaryView>,
)
    requires
        store.delete_card_deck(owner, deck_id).1 is Ok,
        store.delete_card_deck(owner, deck_id).0.is_deck_listing(owner, listing),
    ensures
        forall|i: int| 0 <= i < listing.len() ==> (#[trigger] listing[i]).deck_id != deck_id,
        store.delete_card_deck(owner, deck_id).0.list_cards(owner, deck_id) == Err::<
            Seq<CardView>,
            AndyError,
        >(AndyError::DeckDoesNotExist),
{
}

/// A login with a wrong password is refused and stores no session.
pub proof fn lemma_wrong_password_opens_no_session(
    store: StoreState,
    email: Seq<char>,
    password: Seq<char>,
    now: u64,
)
    requires
        store.account_for(email) matches Some(name) && store.users[name].password_hash
            != password_digest(password),
    ensures
        store.login(email, password, now).0 == store,
        store.login(email, password, now).1 is Err,
        store.login(email, password, now).1->Err_0 == AndyError::WrongPassword,
{
}

/// The token of a successful login names the account that logged in, at
/// every time before the session expires.
pub proof fn lemma_login_token_is_valid(
    store: StoreState,
    email: Seq<char>,
    password: Seq<char>,
    now: u64,
    later: u64,
)
    requires
        store.login(email, password, now).1 is Ok,
        later < expiry_of(now),
    ensures
        ({
            let (next, answer) = store.login(email, password, now);
            &&& store.authenticate(email, password) matches Ok(name)
            &&& answer->Ok_0.user_id == store.users[name].user_id
            &&& next.validate_token(answer->Ok_0.access_token, later) == (
                next,
                Ok::<u64, AndyError>(answer->Ok_0.user_id),
            )
        }),
{
}

/// A token that no session has, or whose session has expired, is refused.
pub proof fn lemma_unknown_or_expired_token_is_refused(store: StoreState, token: Seq<char>, now: u64)
    requires
        !store.sessions.dom().contains(token) || now >= store.sessions[token].expires_at,
    ensures
        store.validate_token(token, now).1 == Err::<u64, AndyError>(AndyError::BadAccessToken),
        !store.validate_token(token, now).0.sessions.dom().contains(token),
{
}

impl StoreState {
    /// The store after the cards of `cards` were appended to a deck one
    /// after another.
    pub open spec fn new_cards(self, owner: u64, deck_id: u64, cards: Seq<CardView>) -> StoreState
        decreases cards.len(),
    {
        if cards.len() == 0 {
            self
        } else {
            self.new_cards(owner, deck_id, cards.drop_last()).new_card(owner, deck_id, cards.last()).0
        }
    }
}

/// No append is lost: however many cards are appended to a deck, in whatever
/// order the calls are taken, each call succeeds, the deck ends with its
/// earlier cards followed by exactly the appended ones in that order, and
/// nothing else in the store changes.
pub proof fn lemma_appends_are_not_lost(store: StoreState, owner: u64, deck_id: u64, cards: Seq<CardView>)
    requires
        store.decks.dom().contains((owner, deck_id)),
    ensures
        ({
            let next = store.new_cards(owner, deck_id, cards);
            let before = store.decks[(owner, deck_id)];
            &&& next.decks.dom().contains((owner, deck_id))
            &&& next.decks[(owner, deck_id)].cards == before.cards + cards
            &&& next.decks[(owner, deck_id)].cards.len() == before.cards.len() + cards.len()
            &&& next == (StoreState {
                decks: store.decks.insert(
                    (owner, deck_id),
                    crate::records::DeckView { cards: before.cards + cards, ..before },
                ),
                ..store
            })
            &&& forall|i: int|
                0 <= i < cards.len() ==> store.new_cards(owner, deck_id, cards.take(i)).new_card(
                    owner,
                    deck_id,
                    #[trigger] cards[i],
                ).1 is Ok
        }),
    decreases cards.len(),
{
    let key = (owner, deck_id);
    let before = store.decks[key];
    if cards.len() == 0 {
        assert(before.cards + cards =~= before.cards);
        assert(store.decks.insert(key, crate::records::DeckView { cards: before.cards, ..before })
            =~= store.decks);
    } else {
        let init = cards.drop_last();
        lemma_appends_are_not_lost(store, owner, deck_id, init);
        let mid = store.new_cards(owner, deck_id, init);
        let next = store.new_cards(owner, deck_id, cards);
        assert((before.cards + init).push(cards.last()) =~= before.cards + cards);
        assert(next.decks =~= store.decks.insert(
            key,
            crate::records::DeckView { cards: before.cards + cards, ..before },
        ));
        assert forall|i: int| 0 <= i < cards.len() implies store.new_cards(
            owner,
            deck_id,
            cards.take(i),
        ).new_card(owner, deck_id, #[trigger] cards[i]).1 is Ok by {
            if i < init.len() {
                assert(init.take(i) =~= cards.take(i));
                assert(init[i] == cards[i]);
            } else {
                assert(cards.take(i) =~= init);
            }
        }
    }
}

proof fn lemma_first_registered_exists(
    store: StoreState,
    email: Seq<char>,
    name: Seq<char>,
    bound: nat,
)
    requires
        store.registered(name, email),
        store.users[name].user_id <= bound,
    ensures
        exists|first: Seq<char>| store.first_registered(first, email),
    decreases bound,
{
    if exists|other: Seq<char>|
        store.registered(other, email) && store.users[other].user_id < store.users[name].user_id {
        let other = choose|other: Seq<char>|
            store.registered(other, email) && store.users[other].user_id
                < store.users[name].user_id;
        lemma_first_registered_exists(store, email, other, store.users[other].user_id as nat);
    } else {
        assert(store.first_registered(name, email));
    }
}

/// An email stands for an account exactly where some account is registered
/// with it, and then for the one with the smallest id among those.
pub proof fn lemma_account_for_email(store: StoreState, email: Seq<char>)
    ensures
        match store.account_for(email) {
            Some(name) => store.first_registered(name, email),
            None => forall|name: Seq<char>| !store.registered(name, email),
        },
{
    if exists|name: Seq<char>| store.registered(name, email) {
        let name = choose|name: Seq<char>| store.registered(name, email);
        lemma_first_registered_exists(store, email, name, store.users[name].user_id as nat);
    }
}

/// Every operation on accounts takes a well-formed store to a well-formed
/// store.
pub proof fn lemma_account_operations_keep_order(
    store: StoreState,
    name: Seq<char>,
    email: Seq<char>,
    password: Seq<char>,
    new_password: Seq<char>,
    now: u64,
    bytes: Seq<u8>,
)
    requires
        store.wf(),
    ensures
        store.new_user(name, email, password, now).0.wf(),
        store.load_user(bytes).0.wf(),
        store.change_password(email, password, new_password).0.wf(),
        store.delete_user(email, password).0.wf(),
{
    lemma_account_for_email(store, email);
    lemma_filing_keeps_order(
        store,
        crate::records::UserView {
            username: name,
            user_id: spec_hash(name),
            email,
            password_hash: password_digest(password),
            signup_time: now,
        },
    );
    if crate::codec::dec_user(bytes) is Some {
        let user = crate::codec::dec_user(bytes)->Some_0;
        if user.user_id == spec_hash(user.username) {
            lemma_filing_keeps_order(store, user);
        }
    }
}

proof fn lemma_filing_keeps_order(store: StoreState, user: crate::records::UserView)
    requires
        store.wf(),
        user.user_id == spec_hash(user.username),
    ensures
        store.file_user(user).0.wf(),
{
    let next = store.file_user(user).0;
    if store.file_user(user).1 is Ok {
        assert forall|a: Seq<char>, b: Seq<char>|
            next.users.dom().contains(a) && next.users.dom().contains(b) && spec_hash(a)
                == spec_hash(b) implies a == b by {
            if a == user.username && b != user.username {
                assert(store.users.dom().contains(b) && store.users[b].user_id == user.user_id);
            }
            if b == user.username && a != user.username {
                assert(store.users.dom().contains(a) && store.users[a].user_id == user.user_id);
            }
        }
    }
}

/// Every operation on sessions takes a well-formed store to a well-formed
/// store.
pub proof fn lemma_session_operations_keep_order(
    store: StoreState,
    email: Seq<char>,
    password: Seq<char>,
    token: Seq<char>,
    now: u64,
    bytes: Seq<u8>,
)
    requires
        store.wf(),
    ensures
        store.login(email, password, now).0.wf(),
        store.validate_token(token, now).0.wf(),
        store.logout(token).0.wf(),
        store.load_session(bytes).0.wf(),
{
}

/// Every operation on decks and cards takes a well-formed store to a
/// well-formed store.
pub proof fn lemma_deck_operations_keep_order(
    store: StoreState,
    owner: u64,
    deck_id: u64,
    name: Seq<char>,
    index: u64,
    card: CardView,
    now: u64,
    bytes: Seq<u8>,
)
    requires
        store.wf(),
    ensures
        store.new_card_deck(owner, name, now).0.wf(),
        store.load_deck(owner, deck_id, bytes).0.wf(),
        store.delete_card_deck(owner, deck_id).0.wf(),
        store.new_card(owner, deck_id, card).0.wf(),
        store.edit_card(owner, deck_id, index, card).0.wf(),
        store.delete_card(owner, deck_id, index).0.wf(),
{
}

/// A refused operation changes nothing, with one exception: the check of a
/// token whose session has expired removes that session.
pub proof fn lemma_refusal_changes_nothing(
    store: StoreState,
    name: Seq<char>,
    email: Seq<char>,
    password: Seq<char>,
    new_password: Seq<char>,
    token: Seq<char>,
    owner: u64,
    deck_id: u64,
    index: u64,
    card: CardView,
    now: u64,
    bytes: Seq<u8>,
)
    ensures
        store.new_user(name, email, password, now).1 is Err ==> store.new_user(
            name,
            email,
            password,
            now,
        ).0 == store,
        store.load_user(bytes).1 is Err ==> store.load_user(bytes).0 == store,
        store.change_password(email, password, new_password).1 is Err ==> store.change_password(
            email,
            password,
            new_password,
        ).0 == store,
        store.delete_user(email, password).1 is Err ==> store.delete_user(email, password).0
            == store,
        store.login(email, password, now).1 is Err ==> store.login(email, password, now).0 == store,
        store.load_session(bytes).1 is Err ==> store.load_session(bytes).0 == store,
        store.logout(token).1 is Err ==> store.logout(token).0 == store,
        store.validate_token(token, now).1 is Err ==> store.validate_token(token, now).0 == store
            || (store.sessions.dom().contains(token) && now >= store.sessions[token].expires_at
            && store.validate_token(token, now).0 == (StoreState {
            sessions: store.sessions.remove(token),
            ..store
        })),
        store.new_card_deck(owner, name, now).1 is Err ==> store.new_card_deck(owner, name, now).0
            == store,
        store.load_deck(owner, deck_id, bytes).1 is Err ==> store.load_deck(
            owner,
            deck_id,
            bytes,
        ).0 == store,
        store.delete_card_deck(owner, deck_id).1 is Err ==> store.delete_card_deck(
            owner,
            deck_id,
        ).0 == store,
        store.new_card(owner, deck_id, card).1 is Err ==> store.new_card(owner, deck_id, card).0
            == store,
        store.edit_card(owner, deck_id, index, card).1 is Err ==> store.edit_card(
            owner,
            deck_id,
            index,
            card,
        ).0 == store,
        store.delete_card(owner, deck_id, index).1 is Err ==> store.delete_card(
            owner,
            deck_id,
            index,
        ).0 == store,
{
}

/// Among the tokens with serial numbers up to `bound`, one is not in a set
/// of at most `bound` tokens.
pub proof fn lemma_free_serial_below(
    taken: Set<Seq<char>>,
    user: crate::records::UserView,
    now: u64,
    bound: nat,
)
    requires
        taken.finite(),
        taken.len() <= bound,
        bound <= u64::MAX,
    ensures
        exists|serial: u64|
            serial <= bound && !taken.contains(#[trigger] token_for(user, now, serial)),
    decreases bound,
{
    let top = token_for(user, now, bound as u64);
    if taken.contains(top) {
        let rest = taken.remove(top);
        lemma_free_serial_below(rest, user, now, (bound - 1) as nat);
        let serial = choose|serial: u64|
            serial <= bound - 1 && !rest.contains(#[trigger] token_for(user, now, serial));
        lemma_tokens_differ(user, now, serial, bound as u64);
        assert(!taken.contains(token_for(user, now, serial)));
    }
}

proof fn lemma_first_free_exists(
    store: StoreState,
    user: crate::records::UserView,
    now: u64,
    free: u64,
)
    requires
        !store.token_taken(user, now, free),
    ensures
        exists|serial: u64| store.is_first_free(user, now, serial),
    decreases free,
{
    if exists|earlier: u64| earlier < free && !store.token_taken(user, now, earlier) {
        let earlier = choose|earlier: u64| earlier < free && !store.token_taken(user, now, earlier);
        lemma_first_free_exists(store, user, now, earlier);
    } else {
        assert(store.is_first_free(user, now, free));
    }
}

/// A login with the right password succeeds on every store whose sessions
/// can be counted in 64 bits.
pub proof fn lemma_login_is_owed(
    store: StoreState,
    email: Seq<char>,
    password: Seq<char>,
    now: u64,
)
    requires
        store.sessions.dom().finite(),
        store.sessions.dom().len() <= u64::MAX,
        store.authenticate(email, password) is Ok,
    ensures
        store.login(email, password, now).1 is Ok,
{
    let user = store.users[store.authenticate(email, password)->Ok_0];
    lemma_free_serial_below(store.sessions.dom(), user, now, store.sessions.dom().len());
    let free = choose|serial: u64|
        serial <= store.sessions.dom().len() && !store.sessions.dom().contains(
            #[trigger] token_for(user, now, serial),
        );
    lemma_first_free_exists(store, user, now, free);
}

/// A login that succeeds opens a new session: its token named no session
/// before, the sessions afterwards are the earlier ones and this one, and
/// the session is bound to the account that logged in, issued at `now`
/// and valid until `expiry_of(now)`. Accounts and decks are as before.
pub proof fn lemma_login_opens_a_new_session(
    store: StoreState,
    email: Seq<char>,
    password: Seq<char>,
    now: u64,
)
    requires
        store.login(email, password, now).1 is Ok,
    ensures
        ({
            let (next, answer) = store.login(email, password, now);
            let token = answer->Ok_0.access_token;
            &&& store.authenticate(email, password) matches Ok(name)
            &&& answer->Ok_0.user_id == store.users[name].user_id
            &&& !store.sessions.dom().contains(token)
            &&& next.sessions == store.sessions.insert(
                token,
                crate::records::SessionView {
                    token,
                    user_id: answer->Ok_0.user_id,
                    issued_at: now,
                    expires_at: expiry_of(now),
                },
            )
            &&& next.sessions.dom() == store.sessions.dom().insert(token)
            &&& forall|other: Seq<char>|
                store.sessions.dom().contains(other) ==> next.sessions.dom().contains(other)
                    && next.sessions[other] == store.sessions[other]
            &&& next.users == store.users
            &&& next.decks == store.decks
            &&& now < u64::MAX ==> expiry_of(now) > now
        }),
{
    let name = store.authenticate(email, password)->Ok_0;
    let user = store.users[name];
    let serial = store.free_serial(user, now)->Some_0;
    assert(store.is_first_free(user, now, serial));
}

/// Loading what a store keeps under one key into a part of that store adds
/// that record and nothing else; a record that is there already stays as it
/// is.
pub proof fn lemma_reload_one(source: StoreState, partial: StoreState, key: RecordKey)
    requires
        source.wf(),
        source.fits(),
        partial.part_of(source),
    ensures
        ({
            let next = partial.reload_one(source, key);
            &&& next.part_of(source)
            &&& source.holds_record(key) ==> next.holds_record(key)
            &&& forall|other: RecordKey|
                #[trigger] next.holds_record(other) <==> partial.holds_record(other) || (other
                    == key && source.holds_record(key))
        }),
{
    let next = partial.reload_one(source, key);
    match key {
        RecordKey::User(name) => {
            if source.users.dom().contains(name) {
                let user = source.users[name];
                lemma_user_round_trip(user);
                if !partial.users.dom().contains(name) {
                    if partial.id_in_use(user.user_id) {
                        let other = choose|n: Seq<char>| #[trigger]
                            partial.users.dom().contains(n) && partial.users[n].user_id
                                == user.user_id;
                        assert(source.users.dom().contains(other));
                        assert(source.users.dom().contains(name));
                    }
                    assert(next.users == partial.users.insert(name, user));
                }
            }
        },
        RecordKey::Deck(owner, deck_id) => {
            if source.decks.dom().contains((owner, deck_id)) {
                let deck = source.decks[(owner, deck_id)];
                lemma_deck_round_trip(deck);
                if !partial.decks.dom().contains((owner, deck_id)) {
                    assert(next.decks == partial.decks.insert((owner, deck_id), deck));
                }
            }
        },
        RecordKey::Session(token) => {
            if source.sessions.dom().contains(token) {
                let session = source.sessions[token];
                lemma_session_round_trip(session);
                assert(next.sessions == partial.sessions.insert(token, session));
            }
        },
    }
    assert forall|other: RecordKey|
        #[trigger] next.holds_record(other) <==> partial.holds_record(other) || (other == key
            && source.holds_record(key)) by {
        match other {
            RecordKey::User(n) => {},
            RecordKey::Deck(o, d) => {},
            RecordKey::Session(t) => {},
        }
    }
}

/// Loading what a store keeps under a run of keys into a part of that store
/// gives a part of that store, with every record that was asked for and
/// every record that was there.
pub proof fn lemma_reload(source: StoreState, partial: StoreState, keys: Seq<RecordKey>)
    requires
        source.wf(),
        source.fits(),
        partial.part_of(source),
    ensures
        ({
            let next = partial.reload(source, keys);
            &&& next.part_of(source)
            &&& forall|other: RecordKey|
                #[trigger] next.holds_record(other) <==> partial.holds_record(other) || (
                keys.contains(other) && source.holds_record(other))
        }),
    decreases keys.len(),
{
    let next = partial.reload(source, keys);
    if keys.len() == 0 {
        assert forall|other: RecordKey| !keys.contains(other) by {}
    } else {
        let init = keys.drop_last();
        let before = partial.reload(source, init);
        lemma_reload(source, partial, init);
        lemma_reload_one(source, before, keys.last());
        assert forall|other: RecordKey|
            #[trigger] next.holds_record(other) <==> partial.holds_record(other) || (
            keys.contains(other) && source.holds_record(other)) by {
            assert(keys.contains(other) <==> init.contains(other) || other == keys.last()) by {
                if init.contains(other) {
                    let i = choose|i: int| 0 <= i < init.len() && init[i] == other;
                    assert(keys[i] == other);
                }
                if other == keys.last() {
                    assert(keys[keys.len() - 1] == other);
                }
                if keys.contains(other) {
                    let i = choose|i: int| 0 <= i < keys.len() && keys[i] == other;
                    if i < init.len() {
                        assert(init[i] == other);
                    }
                }
            }
        }
    }
}

/// Loading into the empty store what a store keeps under its keys, in any
/// order and however often each, rebuilds that store.
pub proof fn lemma_reload_rebuilds(source: StoreState, keys: Seq<RecordKey>)
    requires
        source.wf(),
        source.fits(),
        forall|key: RecordKey| #[trigger] source.holds_record(key) ==> keys.contains(key),
    ensures
        StoreState::empty().reload(source, keys) == source,
{
    let next = StoreState::empty().reload(source, keys);
    lemma_reload(source, StoreState::empty(), keys);
    assert forall|n: Seq<char>| #[trigger] source.users.dom().contains(n) implies next.users.dom().contains(
        n,
    ) by {
        assert(source.holds_record(RecordKey::User(n)));
        assert(next.holds_record(RecordKey::User(n)));
    }
    assert forall|k: (u64, u64)| #[trigger] source.decks.dom().contains(k) implies next.decks.dom().contains(
        k,
    ) by {
        assert(source.holds_record(RecordKey::Deck(k.0, k.1)));
        assert(next.holds_record(RecordKey::Deck(k.0, k.1)));
    }
    assert forall|t: Seq<char>| #[trigger] source.sessions.dom().contains(t) implies next.sessions.dom().contains(
        t,
    ) by {
        assert(source.holds_record(RecordKey::Session(t)));
        assert(next.holds_record(RecordKey::Session(t)));
    }
    assert(next.users =~= source.users);
    assert(next.decks =~= source.decks);
    assert(next.sessions =~= source.sessions);
}

} // verus!
