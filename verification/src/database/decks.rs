//! Decks and their cards.

use super::answer_view;
use super::deck_key;
use super::deck_val;
use super::key_before;
use super::lemma_decks_distinct;
use super::lemma_decks_sorted_insert;
use super::lemma_decks_sorted_remove;
use super::lemma_decks_sorted_update;
use super::row_key;
use super::Database;
use super::DeckRow;
use crate::clock::get_current_unix_time_seconds;
use crate::codec::deck_fits;
use crate::error::AndyError;
use crate::keys::hash;
use crate::keys::spec_hash;
use crate::model::summary_of;
use crate::model::StoreState;
use crate::records::card_views;
use crate::records::duplicate_cards;
use crate::records::Card;
use crate::records::CardDeck;
use crate::records::CardView;
use crate::records::DeckSummary;
use crate::records::ListCardDecksResponse;
use crate::records::ListCardsResponse;
use crate::table::distinct_keys;
use crate::table::lemma_rows_absent;
use crate::table::lemma_rows_insert;
use crate::table::lemma_rows_key;
use crate::table::lemma_rows_remove;
use crate::table::lemma_rows_row;
use crate::table::lemma_rows_update;
use vstd::prelude::*;

verus! {

impl Database {
    /// Where the deck `(owner, deck_id)` stands, or would stand, and whether
    /// it is there.
    fn locate_deck(&self, owner: u64, deck_id: u64) -> (r: (usize, bool))
        requires
            self.wf(),
        ensures
            r.1 == self@.decks.dom().contains((owner, deck_id)),
            r.1 ==> {
                &&& r.0 < self.decks.len()
                &&& row_key(self.decks[r.0 as int]) == (owner, deck_id)
                &&& self@.decks[(owner, deck_id)] == self.decks[r.0 as int].deck@
            },
            !r.1 ==> {
                &&& r.0 <= self.decks.len()
                &&& forall|j: int|
                    0 <= j < r.0 ==> key_before(row_key(self.decks[j]), (owner, deck_id))
                &&& forall|j: int|
                    r.0 <= j < self.decks.len() ==> key_before(
                        (owner, deck_id),
                        row_key(self.decks[j]),
                    )
            },
    {
        let mut low: usize = 0;
        let mut high: usize = self.decks.len();
        while low < high
            invariant
                self.wf(),
                low <= high <= self.decks.len(),
                forall|j: int| 0 <= j < low ==> key_before(row_key(self.decks[j]), (owner, deck_id)),
                forall|j: int|
                    high <= j < self.decks.len() ==> !key_before(
                        row_key(self.decks[j]),
                        (owner, deck_id),
                    ),
            decreases high - low,
        {
            let mid = low + (high - low) / 2;
            let row = &self.decks[mid];
            if row.user_id < owner || (row.user_id == owner && row.deck_id < deck_id) {
                proof {
                    assert forall|j: int| 0 <= j < mid + 1 implies key_before(
                        row_key(self.decks[j]),
                        (owner, deck_id),
                    ) by {
                        if j < mid {
                            assert(key_before(
                                (self.decks@[j].user_id, self.decks@[j].deck_id),
                                (self.decks@[mid as int].user_id, self.decks@[mid as int].deck_id),
                            ));
                        }
                    }
                }
                low = mid + 1;
            } else {
                proof {
                    assert forall|j: int| mid <= j < self.decks.len() implies !key_before(
                        row_key(self.decks[j]),
                        (owner, deck_id),
                    ) by {
                        if mid < j {
                            assert(key_before(
                                (self.decks@[mid as int].user_id, self.decks@[mid as int].deck_id),
                                (self.decks@[j].user_id, self.decks@[j].deck_id),
                            ));
                        }
                    }
                }
                high = mid;
            }
        }
        let at = low;
        let found = at < self.decks.len() && self.decks[at].user_id == owner
            && self.decks[at].deck_id == deck_id;
        proof {
            let rows = self.decks@;
            lemma_decks_distinct(rows);
            if found {
                lemma_rows_row(rows, deck_key(), deck_val(), at as int);
            } else {
                assert forall|j: int| at <= j < rows.len() implies key_before(
                    (owner, deck_id),
                    row_key(rows[j]),
                ) by {
                    assert(!key_before(row_key(rows[j]), (owner, deck_id)));
                    if at < j {
                        assert(key_before(
                            (rows[at as int].user_id, rows[at as int].deck_id),
                            (rows[j].user_id, rows[j].deck_id),
                        ));
                    }
                }
                assert forall|j: int| 0 <= j < rows.len() implies deck_key()(#[trigger] rows[j]) != (
                    owner,
                    deck_id,
                ) by {
                    if j < at {
                        assert(key_before(row_key(rows[j]), (owner, deck_id)));
                    } else {
                        assert(key_before((owner, deck_id), row_key(rows[j])));
                    }
                }
                lemma_rows_absent(rows, deck_key(), deck_val(), (owner, deck_id));
            }
        }
        (at, found)
    }

    /// Files `deck` under `(user_id, deck_id)` unless a deck stands there.
    fn file_deck(&mut self, user_id: u64, deck_id: u64, deck: CardDeck) -> (r: Result<
        u64,
        AndyError,
    >)
        requires
            old(self).wf(),
            deck_id == spec_hash(deck.name@),
        ensures
            final(self).wf(),
            (final(self)@, r) == old(self)@.file_deck(user_id, deck_id, deck@),
    {
        let (at, found) = self.locate_deck(user_id, deck_id);
        if found {
            if self.decks[at].deck.name == deck.name {
                Err(AndyError::Conflict)
            } else {
                Err(AndyError::IdentifierCollision)
            }
        } else {
            let row = DeckRow { user_id, deck_id, deck };
            proof {
                let rows = self.decks@;
                lemma_decks_distinct(rows);
                assert forall|i: int| 0 <= i < rows.len() implies deck_key()(#[trigger] rows[i])
                    != deck_key()(row) by {
                    lemma_rows_row(rows, deck_key(), deck_val(), i);
                }
                lemma_rows_insert(rows, deck_key(), deck_val(), at as int, row);
                lemma_decks_sorted_insert(rows, at as int, row);
            }
            self.decks.insert(at, row);
            Ok(deck_id)
        }
    }

    /// Stores an empty deck called `deck_name` for `user_id`, created at the
    /// time `now`, and hands back the deck's id.
    ///
    /// Fails with `Conflict` where the owner has a deck of that name, with
    /// `IdentifierCollision` where another of the owner's deck names has the
    /// same id, and leaves the store unchanged then.
    pub fn new_card_deck_at(&mut self, user_id: u64, deck_name: String, now: u64) -> (r: Result<
        u64,
        AndyError,
    >)
        requires
            old(self).wf(),
        ensures
            final(self).wf(),
            (final(self)@, r) == old(self)@.new_card_deck(user_id, deck_name@, now),
    {
        let deck_id = hash(deck_name.as_str());
        let deck = CardDeck { creation_time: now, cards: Vec::new(), name: deck_name };
        assert(deck@.cards =~= Seq::<CardView>::empty());
        self.file_deck(user_id, deck_id, deck)
    }

    /// Files the deck that `data` encode under `(user_id, deck_id)`, as it
    /// was stored by an earlier run.
    ///
    /// Fails with `EncodingCorruption` where `data` encode no deck or one
    /// whose name does not give `deck_id`, with `Conflict` or
    /// `IdentifierCollision` where a deck stands there already, and leaves
    /// the store unchanged then.
    pub fn load_deck(&mut self, user_id: u64, deck_id: u64, data: &[u8]) -> (r: Result<
        (),
        AndyError,
    >)
        requires
            old(self).wf(),
        ensures
            final(self).wf(),
            (final(self)@, r) == old(self)@.load_deck(user_id, deck_id, data@),
    {
        match CardDeck::from_bytes(data) {
            Err(e) => Err(e),
            Ok(deck) => {
                if deck_id != hash(deck.name.as_str()) {
                    return Err(AndyError::EncodingCorruption);
                }
                match self.file_deck(user_id, deck_id, deck) {
                    Ok(_) => Ok(()),
                    Err(e) => Err(e),
                }
            },
        }
    }

    /// The bytes under which the deck `(user_id, deck_id)` is to be kept;
    /// `None` where there is no such deck.
    pub fn stored_deck(&self, user_id: u64, deck_id: u64) -> (r: Option<Vec<u8>>)
        requires
            self.wf(),
        ensures
            r.is_some() == self@.decks.dom().contains((user_id, deck_id)),
            r matches Some(bytes) ==> self@.stored_deck(user_id, deck_id) == Some(bytes@)
                && deck_fits(self@.decks[(user_id, deck_id)]),
            r is None ==> self@.stored_deck(user_id, deck_id) is None,
    {
        let (at, found) = self.locate_deck(user_id, deck_id);
        if found {
            Some(self.decks[at].deck.as_bytes())
        } else {
            None
        }
    }

    /// Stores an empty deck at the time the clock shows; see
    /// `new_card_deck_at`.
    pub fn new_card_deck(&mut self, user_id: u64, deck_name: String) -> (r: Result<u64, AndyError>)
        requires
            old(self).wf(),
        ensures
            final(self).wf(),
            exists|now: u64|
                (final(self)@, r) == #[trigger] old(self)@.new_card_deck(user_id, deck_name@, now),
    {
        let now = get_current_unix_time_seconds();
        self.new_card_deck_at(user_id, deck_name, now)
    }

    /// Removes a deck with its cards; `DeckDoesNotExist` where there is none.
    pub fn delete_card_deck(&mut self, user_id: u64, deck_id: u64) -> (r: Result<(), AndyError>)
        requires
            old(self).wf(),
        ensures
            final(self).wf(),
            (final(self)@, r) == old(self)@.delete_card_deck(user_id, deck_id),
    {
        let (at, found) = self.locate_deck(user_id, deck_id);
        if !found {
            return Err(AndyError::DeckDoesNotExist);
        }
        proof {
            lemma_decks_distinct(self.decks@);
            lemma_rows_remove(self.decks@, deck_key(), deck_val(), at as int);
            lemma_decks_sorted_remove(self.decks@, at as int);
        }
        self.decks.remove(at);
        Ok(())
    }

    /// Puts `row` back where a row with the same key and deck name was taken
    /// out.
    fn restore_row(&mut self, at: usize, row: DeckRow, Ghost(before): Ghost<Database>)
        requires
            before.wf(),
            at < before.decks.len(),
            old(self).users == before.users,
            old(self).sessions == before.sessions,
            old(self).decks@ == before.decks@.remove(at as int),
            row_key(row) == row_key(before.decks[at as int]),
            row.deck.name@ == before.decks[at as int].deck.name@,
        ensures
            final(self).wf(),
            final(self)@ == (StoreState {
                decks: before@.decks.insert(row_key(row), row.deck@),
                ..before@
            }),
    {
        proof {
            let rows = before.decks@;
            assert(rows.remove(at as int).insert(at as int, row) =~= rows.update(at as int, row));
            lemma_decks_distinct(rows);
            lemma_rows_update(rows, deck_key(), deck_val(), at as int, row);
            lemma_decks_sorted_update(rows, at as int, row);
        }
        self.decks.insert(at, row);
    }

    /// Appends a card to a deck; `DeckDoesNotExist` where there is no such
    /// deck.
    pub fn new_card(&mut self, user_id: u64, deck_id: u64, question: String, answer: String) -> (r:
        Result<(), AndyError>)
        requires
            old(self).wf(),
        ensures
            final(self).wf(),
            (final(self)@, r) == old(self)@.new_card(
                user_id,
                deck_id,
                (CardView { question: question@, answer: answer@ }),
            ),
    {
        let (at, found) = self.locate_deck(user_id, deck_id);
        if !found {
            return Err(AndyError::DeckDoesNotExist);
        }
        let ghost before = *self;
        let mut row = self.decks.remove(at);
        let ghost cards = row.deck.cards@;
        row.deck.cards.push(Card { question, answer });
        proof {
            assert(card_views(row.deck.cards@) =~= card_views(cards).push(
                CardView { question: question@, answer: answer@ },
            ));
        }
        self.restore_row(at, row, Ghost(before));
        Ok(())
    }

    /// Replaces the card at `card_index` of a deck.
    ///
    /// Fails with `DeckDoesNotExist` where there is no such deck, with
    /// `CardIndexOutOfRange` where the deck has no card at that position,
    /// and leaves the store unchanged then.
    pub fn edit_card(
        &mut self,
        user_id: u64,
        deck_id: u64,
        card_index: u64,
        new_question: String,
        new_answer: String,
    ) -> (r: Result<(), AndyError>)
        requires
            old(self).wf(),
        ensures
            final(self).wf(),
            (final(self)@, r) == old(self)@.edit_card(
                user_id,
                deck_id,
                card_index,
                (CardView { question: new_question@, answer: new_answer@ }),
            ),
    {
        let (at, found) = self.locate_deck(user_id, deck_id);
        if !found {
            return Err(AndyError::DeckDoesNotExist);
        }
        if card_index >= self.decks[at].deck.cards.len() as u64 {
            return Err(AndyError::CardIndexOutOfRange);
        }
        let ghost before = *self;
        let mut row = self.decks.remove(at);
        let ghost cards = row.deck.cards@;
        row.deck.cards.set(card_index as usize, Card { question: new_question, answer: new_answer });
        proof {
            assert(card_views(row.deck.cards@) =~= card_views(cards).update(
                card_index as int,
                CardView { question: new_question@, answer: new_answer@ },
            ));
        }
        self.restore_row(at, row, Ghost(before));
        Ok(())
    }

    /// Removes the card at `card_index` of a deck; the cards behind it move
    /// up by one.
    ///
    /// Fails with `DeckDoesNotExist` where there is no such deck, with
    /// `CardIndexOutOfRange` where the deck has no card at that position,
    /// and leaves the store unchanged then.
    pub fn delete_card(&mut self, user_id: u64, deck_id: u64, card_index: u64) -> (r: Result<
        (),
        AndyError,
    >)
        requires
            old(self).wf(),
        ensures
            final(self).wf(),
            (final(self)@, r) == old(self)@.delete_card(user_id, deck_id, card_index),
    {
        let (at, found) = self.locate_deck(user_id, deck_id);
        if !found {
            return Err(AndyError::DeckDoesNotExist);
        }
        if card_index >= self.decks[at].deck.cards.len() as u64 {
            return Err(AndyError::CardIndexOutOfRange);
        }
        let ghost before = *self;
        let mut row = self.decks.remove(at);
        let ghost cards = row.deck.cards@;
        row.deck.cards.remove(card_index as usize);
        proof {
            assert(card_views(row.deck.cards@) =~= card_views(cards).remove(card_index as int));
        }
        self.restore_row(at, row, Ghost(before));
        Ok(())
    }

    /// The cards of a deck, in order; `DeckDoesNotExist` where there is no
    /// such deck.
    pub fn list_cards(&self, user_id: u64, deck_id: u64) -> (r: Result<ListCardsResponse, AndyError>)
        requires
            self.wf(),
        ensures
            answer_view(r) == self@.list_cards(user_id, deck_id),
    {
        let (at, found) = self.locate_deck(user_id, deck_id);
        if !found {
            return Err(AndyError::DeckDoesNotExist);
        }
        Ok(ListCardsResponse { cards: duplicate_cards(&self.decks[at].deck.cards) })
    }

    /// The listing line of one deck: its name and number of cards.
    ///
    /// Fails with `DeckDoesNotExist` where there is no such deck, with
    /// `IntCast` where the deck holds more cards than a line can count.
    pub fn get_deck_info(&self, user_id: u64, deck_id: u64) -> (r: Result<DeckSummary, AndyError>)
        requires
            self.wf(),
        ensures
            answer_view(r) == self@.deck_info(user_id, deck_id),
    {
        let (at, found) = self.locate_deck(user_id, deck_id);
        if !found {
            return Err(AndyError::DeckDoesNotExist);
        }
        let count = self.decks[at].deck.cards.len();
        if count > u32::MAX as usize {
            return Err(AndyError::IntCast);
        }
        Ok(
            DeckSummary {
                deck_id,
                name: self.decks[at].deck.name.clone(),
                num_cards: count as u32,
            },
        )
    }

    /// The decks of `user_id`, one line each with name and number of cards,
    /// in ascending order of deck id; an owner without decks gets an empty
    /// listing.
    ///
    /// Fails with `IntCast` where one of the decks holds more cards than a
    /// line can count.
    pub fn list_card_decks(&self, user_id: u64) -> (r: Result<ListCardDecksResponse, AndyError>)
        requires
            self.wf(),
        ensures
            match r {
                Ok(listing) => !self@.has_oversized_deck(user_id) && self@.is_deck_listing(
                    user_id,
                    listing@,
                ),
                Err(e) => e == AndyError::IntCast && self@.has_oversized_deck(user_id),
            },
    {
        let mut lines: Vec<DeckSummary> = Vec::new();
        let ghost mut source: Seq<int> = Seq::empty();
        let mut i: usize = 0;
        proof {
            lemma_decks_distinct(self.decks@);
        }
        while i < self.decks.len()
            invariant
                self.wf(),
                distinct_keys(self.decks@, deck_key()),
                i <= self.decks.len(),
                source.len() == lines.len(),
                forall|k: int|
                    0 <= k < source.len() ==> {
                        &&& 0 <= #[trigger] source[k] < i
                        &&& self.decks[source[k]].user_id == user_id
                        &&& lines[k]@ == summary_of(
                            self.decks[source[k]].deck_id,
                            self.decks[source[k]].deck@,
                        )
                    },
                forall|k: int, l: int| 0 <= k < l < source.len() ==> source[k] < source[l],
                forall|j: int|
                    0 <= j < i && (#[trigger] self.decks[j]).user_id == user_id ==> {
                        &&& self.decks[j].deck.cards.len() <= u32::MAX
                        &&& exists|k: int| 0 <= k < source.len() && source[k] == j
                    },
            decreases self.decks.len() - i,
        {
            if self.decks[i].user_id == user_id {
                let count = self.decks[i].deck.cards.len();
                if count > u32::MAX as usize {
                    proof {
                        lemma_rows_row(self.decks@, deck_key(), deck_val(), i as int);
                        assert(self@.decks.dom().contains((user_id, self.decks[i as int].deck_id)));
                    }
                    return Err(AndyError::IntCast);
                }
                let line = DeckSummary {
                    deck_id: self.decks[i].deck_id,
                    name: self.decks[i].deck.name.clone(),
                    num_cards: count as u32,
                };
                lines.push(line);
                proof {
                    let ghost longer = source.push(i as int);
                    assert forall|j: int|
                        0 <= j < i + 1 && (#[trigger] self.decks[j]).user_id == user_id implies exists|
                        k: int,
                    | 0 <= k < longer.len() && longer[k] == j by {
                        if j < i {
                            let k = choose|k: int| 0 <= k < source.len() && source[k] == j;
                            assert(longer[k] == j);
                        } else {
                            assert(longer[source.len() as int] == j);
                        }
                    }
                    source = longer;
                }
            }
            i += 1;
        }
        let listing = ListCardDecksResponse { decks: lines };
        proof {
            let rows = self.decks@;
            let view = self@;
            let shown = listing@;
            assert forall|k: int| 0 <= k < shown.len() implies {
                &&& view.decks.dom().contains((user_id, (#[trigger] shown[k]).deck_id))
                &&& shown[k] == summary_of(shown[k].deck_id, view.decks[(user_id, shown[k].deck_id)])
            } by {
                lemma_rows_row(rows, deck_key(), deck_val(), source[k]);
            }
            assert forall|k: int, l: int| 0 <= k < l < shown.len() implies shown[k].deck_id
                < shown[l].deck_id by {
                assert(source[k] < source[l]);
                assert(key_before(
                    (rows[source[k]].user_id, rows[source[k]].deck_id),
                    (rows[source[l]].user_id, rows[source[l]].deck_id),
                ));
            }
            assert forall|deck_id: u64| #[trigger]
                view.decks.dom().contains((user_id, deck_id)) implies exists|k: int|
                0 <= k < shown.len() && (#[trigger] shown[k]).deck_id == deck_id by {
                let j = lemma_rows_key(rows, deck_key(), deck_val(), (user_id, deck_id));
                assert(rows[j].user_id == user_id);
                let k = choose|k: int| 0 <= k < source.len() && source[k] == j;
                assert(shown[k].deck_id == deck_id);
            }
            if view.has_oversized_deck(user_id) {
                let deck_id = choose|deck_id: u64| #[trigger]
                    view.decks.dom().contains((user_id, deck_id)) && view.decks[(
                        user_id,
                        deck_id,
                    )].cards.len() > u32::MAX;
                let j = lemma_rows_key(rows, deck_key(), deck_val(), (user_id, deck_id));
                assert(rows[j].user_id == user_id);
            }
        }
        Ok(listing)
    }
}

} // verus!
