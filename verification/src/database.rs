use crate::error::AndyError;
use crate::keys::hash;
use crate::keys::spec_hash;
use crate::model::StoreState;
use crate::records::CardDeck;
use crate::records::DeckView;
use crate::records::Session;
use crate::records::SessionView;
use crate::records::UserEntry;
use crate::records::UserView;
use crate::table::distinct_keys;
use crate::table::lemma_rows_absent;
use crate::table::lemma_rows_count;
use crate::table::lemma_rows_empty;
use crate::table::lemma_rows_key;
use crate::table::lemma_rows_row;
use crate::table::rows_map;
use vstd::prelude::*;

mod accounts;
mod decks;
mod sessions;

verus! {

/// A deck filed under its owner's id and its own.
struct DeckRow {
    user_id: u64,
    deck_id: u64,
    deck: CardDeck,
}

/// The record store. Accounts are kept in ascending order of id, decks in
/// ascending order of owner id and then deck id, sessions in no order.
pub struct Database {
    users: Vec<UserEntry>,
    decks: Vec<DeckRow>,
    sessions: Vec<Session>,
}

spec fn user_key() -> spec_fn(UserEntry) -> Seq<char> {
    |u: UserEntry| u.username@
}

spec fn user_val() -> spec_fn(UserEntry) -> UserView {
    |u: UserEntry| u@
}

spec fn deck_key() -> spec_fn(DeckRow) -> (u64, u64) {
    |r: DeckRow| (r.user_id, r.deck_id)
}

spec fn deck_val() -> spec_fn(DeckRow) -> DeckView {
    |r: DeckRow| r.deck@
}

spec fn session_key() -> spec_fn(Session) -> Seq<char> {
    |s: Session| s.token@
}

spec fn session_val() -> spec_fn(Session) -> SessionView {
    |s: Session| s@
}

/// Accounts stand in strictly ascending order of id, each id derived from
/// the account's name.
spec fn users_sorted(rows: Seq<UserEntry>) -> bool {
    &&& forall|i: int, j: int| 0 <= i < j < rows.len() ==> rows[i].user_id < rows[j].user_id
    &&& forall|i: int|
        0 <= i < rows.len() ==> (#[trigger] rows[i]).user_id == spec_hash(rows[i].username@)
}

/// The order of deck keys: by owner, then by deck id.
pub open spec fn key_before(a: (u64, u64), b: (u64, u64)) -> bool {
    a.0 < b.0 || (a.0 == b.0 && a.1 < b.1)
}

/// Decks stand in strictly ascending order of key, each deck id derived
/// from the deck's name.
spec fn decks_sorted(rows: Seq<DeckRow>) -> bool {
    &&& forall|i: int, j: int|
        0 <= i < j < rows.len() ==> key_before(
            (rows[i].user_id, rows[i].deck_id),
            (rows[j].user_id, rows[j].deck_id),
        )
    &&& forall|i: int|
        0 <= i < rows.len() ==> (#[trigger] rows[i]).deck_id == spec_hash(rows[i].deck.name@)
}

proof fn lemma_users_distinct(rows: Seq<UserEntry>)
    requires
        users_sorted(rows),
    ensures
        distinct_keys(rows, user_key()),
{
    assert forall|i: int, j: int|
        0 <= i < rows.len() && 0 <= j < rows.len() && i != j implies user_key()(rows[i])
        != user_key()(rows[j]) by {
        if i < j {
            assert(rows[i].user_id < rows[j].user_id);
        } else {
            assert(rows[j].user_id < rows[i].user_id);
        }
    }
}

proof fn lemma_decks_distinct(rows: Seq<DeckRow>)
    requires
        decks_sorted(rows),
    ensures
        distinct_keys(rows, deck_key()),
{
    assert forall|i: int, j: int|
        0 <= i < rows.len() && 0 <= j < rows.len() && i != j implies deck_key()(rows[i])
        != deck_key()(rows[j]) by {
        if i < j {
            assert(key_before(
                (rows[i].user_id, rows[i].deck_id),
                (rows[j].user_id, rows[j].deck_id),
            ));
        } else {
            assert(key_before(
                (rows[j].user_id, rows[j].deck_id),
                (rows[i].user_id, rows[i].deck_id),
            ));
        }
    }
}

proof fn lemma_users_sorted_insert(rows: Seq<UserEntry>, at: int, entry: UserEntry)
    requires
        users_sorted(rows),
        0 <= at <= rows.len(),
        forall|j: int| 0 <= j < at ==> rows[j].user_id < entry.user_id,
        forall|j: int| at <= j < rows.len() ==> rows[j].user_id > entry.user_id,
        entry.user_id == spec_hash(entry.username@),
    ensures
        users_sorted(rows.insert(at, entry)),
{
    let rows2 = rows.insert(at, entry);
    assert forall|i: int, j: int| 0 <= i < j < rows2.len() implies rows2[i].user_id
        < rows2[j].user_id by {
        let oi = if i < at { i } else { i - 1 };
        let oj = if j < at { j } else { j - 1 };
        if i == at {
            assert(rows2[j] == rows[oj]);
        } else if j == at {
            assert(rows2[i] == rows[oi]);
        } else {
            assert(rows2[i] == rows[oi] && rows2[j] == rows[oj]);
        }
    }
    assert forall|i: int| 0 <= i < rows2.len() implies (#[trigger] rows2[i]).user_id == spec_hash(
        rows2[i].username@,
    ) by {
        if i != at {
            let oi = if i < at { i } else { i - 1 };
            assert(rows2[i] == rows[oi]);
        }
    }
}

proof fn lemma_users_sorted_remove(rows: Seq<UserEntry>, at: int)
    requires
        users_sorted(rows),
        0 <= at < rows.len(),
    ensures
        users_sorted(rows.remove(at)),
{
    let rows2 = rows.remove(at);
    assert forall|i: int, j: int| 0 <= i < j < rows2.len() implies rows2[i].user_id
        < rows2[j].user_id by {
        let oi = if i < at { i } else { i + 1 };
        let oj = if j < at { j } else { j + 1 };
        assert(rows2[i] == rows[oi] && rows2[j] == rows[oj]);
    }
    assert forall|i: int| 0 <= i < rows2.len() implies (#[trigger] rows2[i]).user_id == spec_hash(
        rows2[i].username@,
    ) by {
        let oi = if i < at { i } else { i + 1 };
        assert(rows2[i] == rows[oi]);
    }
}

proof fn lemma_users_sorted_update(rows: Seq<UserEntry>, at: int, entry: UserEntry)
    requires
        users_sorted(rows),
        0 <= at < rows.len(),
        entry.user_id == rows[at].user_id,
        entry.username@ == rows[at].username@,
    ensures
        users_sorted(rows.update(at, entry)),
{
    let rows2 = rows.update(at, entry);
    assert forall|i: int, j: int| 0 <= i < j < rows2.len() implies rows2[i].user_id
        < rows2[j].user_id by {
        assert(rows2[i].user_id == rows[i].user_id && rows2[j].user_id == rows[j].user_id);
    }
    assert forall|i: int| 0 <= i < rows2.len() implies (#[trigger] rows2[i]).user_id == spec_hash(
        rows2[i].username@,
    ) by {
        assert(rows2[i].user_id == rows[i].user_id && rows2[i].username@ == rows[i].username@);
    }
}

/// The key under which a deck row is filed.
spec fn row_key(row: DeckRow) -> (u64, u64) {
    (row.user_id, row.deck_id)
}

proof fn lemma_decks_sorted_insert(rows: Seq<DeckRow>, at: int, row: DeckRow)
    requires
        decks_sorted(rows),
        0 <= at <= rows.len(),
        forall|j: int| 0 <= j < at ==> key_before(row_key(rows[j]), row_key(row)),
        forall|j: int| at <= j < rows.len() ==> key_before(row_key(row), row_key(rows[j])),
        row.deck_id == spec_hash(row.deck.name@),
    ensures
        decks_sorted(rows.insert(at, row)),
{
    let rows2 = rows.insert(at, row);
    assert forall|i: int, j: int| 0 <= i < j < rows2.len() implies key_before(
        (rows2[i].user_id, rows2[i].deck_id),
        (rows2[j].user_id, rows2[j].deck_id),
    ) by {
        let oi = if i < at { i } else { i - 1 };
        let oj = if j < at { j } else { j - 1 };
        if i == at {
            assert(rows2[j] == rows[oj]);
            assert(key_before(row_key(row), row_key(rows[oj])));
        } else if j == at {
            assert(rows2[i] == rows[oi]);
            assert(key_before(row_key(rows[oi]), row_key(row)));
        } else {
            assert(rows2[i] == rows[oi] && rows2[j] == rows[oj]);
        }
    }
    assert forall|i: int| 0 <= i < rows2.len() implies (#[trigger] rows2[i]).deck_id == spec_hash(
        rows2[i].deck.name@,
    ) by {
        if i != at {
            let oi = if i < at { i } else { i - 1 };
            assert(rows2[i] == rows[oi]);
        }
    }
}

proof fn lemma_decks_sorted_remove(rows: Seq<DeckRow>, at: int)
    requires
        decks_sorted(rows),
        0 <= at < rows.len(),
    ensures
        decks_sorted(rows.remove(at)),
{
    let rows2 = rows.remove(at);
    assert forall|i: int, j: int| 0 <= i < j < rows2.len() implies key_before(
        (rows2[i].user_id, rows2[i].deck_id),
        (rows2[j].user_id, rows2[j].deck_id),
    ) by {
        let oi = if i < at { i } else { i + 1 };
        let oj = if j < at { j } else { j + 1 };
        assert(rows2[i] == rows[oi] && rows2[j] == rows[oj]);
    }
    assert forall|i: int| 0 <= i < rows2.len() implies (#[trigger] rows2[i]).deck_id == spec_hash(
        rows2[i].deck.name@,
    ) by {
        let oi = if i < at { i } else { i + 1 };
        assert(rows2[i] == rows[oi]);
    }
}

proof fn lemma_decks_sorted_update(rows: Seq<DeckRow>, at: int, row: DeckRow)
    requires
        decks_sorted(rows),
        0 <= at < rows.len(),
        row_key(row) == row_key(rows[at]),
        row.deck.name@ == rows[at].deck.name@,
    ensures
        decks_sorted(rows.update(at, row)),
{
    let rows2 = rows.update(at, row);
    assert forall|i: int, j: int| 0 <= i < j < rows2.len() implies key_before(
        (rows2[i].user_id, rows2[i].deck_id),
        (rows2[j].user_id, rows2[j].deck_id),
    ) by {
        assert(row_key(rows2[i]) == row_key(rows[i]) && row_key(rows2[j]) == row_key(rows[j]));
        assert(key_before(
            (rows[i].user_id, rows[i].deck_id),
            (rows[j].user_id, rows[j].deck_id),
        ));
    }
    assert forall|i: int| 0 <= i < rows2.len() implies (#[trigger] rows2[i]).deck_id == spec_hash(
        rows2[i].deck.name@,
    ) by {
        assert(rows2[i].deck_id == rows[i].deck_id && rows2[i].deck.name@ == rows[i].deck.name@);
    }
}

/// What an operation answers, with the value it hands back read by its view.
pub open spec fn answer_view<T: View>(answer: Result<T, AndyError>) -> Result<T::V, AndyError> {
    match answer {
        Ok(value) => Ok(value@),
        Err(e) => Err(e),
    }
}

impl View for Database {
    type V = StoreState;

    closed spec fn view(&self) -> StoreState {
        StoreState {
            users: rows_map(self.users@, user_key(), user_val()),
            decks: rows_map(self.decks@, deck_key(), deck_val()),
            sessions: rows_map(self.sessions@, session_key(), session_val()),
        }
    }
}

/// Where an account name stands in the table.
enum UserSlot {
    /// The account is row `0`.
    Found(usize),
    /// Row `0` holds another name with the same id.
    Taken(usize),
    /// The name is absent; its row would stand at `0`.
    Free(usize),
}

impl Database {
    /// The representation is in order: what every operation expects and keeps.
    pub closed spec fn wf(&self) -> bool {
        &&& users_sorted(self.users@)
        &&& decks_sorted(self.decks@)
        &&& distinct_keys(self.sessions@, session_key())
    }

    /// A well-formed store has a well-formed view.
    pub proof fn lemma_view_wf(&self)
        requires
            self.wf(),
        ensures
            self@.wf(),
    {
        let view = self@;
        lemma_users_distinct(self.users@);
        lemma_decks_distinct(self.decks@);
        assert forall|n: Seq<char>| #[trigger] view.users.dom().contains(n) implies {
            &&& view.users[n].username == n
            &&& view.users[n].user_id == spec_hash(n)
        } by {
            let i = lemma_rows_key(self.users@, user_key(), user_val(), n);
            assert(self.users@[i].user_id == spec_hash(self.users@[i].username@));
        }
        assert forall|a: Seq<char>, b: Seq<char>|
            view.users.dom().contains(a) && view.users.dom().contains(b) && spec_hash(a)
                == spec_hash(b) implies a == b by {
            let i = lemma_rows_key(self.users@, user_key(), user_val(), a);
            let j = lemma_rows_key(self.users@, user_key(), user_val(), b);
            assert(self.users@[i].user_id == spec_hash(self.users@[i].username@));
            assert(self.users@[j].user_id == spec_hash(self.users@[j].username@));
            if i < j {
                assert(self.users@[i].user_id < self.users@[j].user_id);
            } else if j < i {
                assert(self.users@[j].user_id < self.users@[i].user_id);
            }
        }
        assert forall|k: (u64, u64)| #[trigger] view.decks.dom().contains(k) implies k.1
            == spec_hash(view.decks[k].name) by {
            let i = lemma_rows_key(self.decks@, deck_key(), deck_val(), k);
            assert(self.decks@[i].deck_id == spec_hash(self.decks@[i].deck.name@));
        }
        assert forall|t: Seq<char>| #[trigger] view.sessions.dom().contains(t) implies view.sessions[t].token
            == t by {
            let i = lemma_rows_key(self.sessions@, session_key(), session_val(), t);
        }
    }

    /// The store holds as many sessions as its session table has rows.
    proof fn lemma_sessions_counted(&self)
        requires
            self.wf(),
        ensures
            self@.sessions.dom().finite(),
            self@.sessions.dom().len() == self.sessions.len(),
    {
        lemma_rows_count(self.sessions@, session_key(), session_val());
    }

    /// An empty store.
    pub fn new() -> (db: Database)
        ensures
            db.wf(),
            db@ == StoreState::empty(),
    {
        let db = Database { users: Vec::new(), decks: Vec::new(), sessions: Vec::new() };
        proof {
            lemma_rows_empty::<UserEntry, Seq<char>, UserView>(user_key(), user_val());
            lemma_rows_empty::<DeckRow, (u64, u64), DeckView>(deck_key(), deck_val());
            lemma_rows_empty::<Session, Seq<char>, SessionView>(session_key(), session_val());
            assert(db.users@ =~= Seq::<UserEntry>::empty());
            assert(db.decks@ =~= Seq::<DeckRow>::empty());
            assert(db.sessions@ =~= Seq::<Session>::empty());
        }
        db
    }

    /// The first row whose id is not below `id`.
    fn user_rank(&self, id: u64) -> (at: usize)
        requires
            self.wf(),
        ensures
            at <= self.users.len(),
            forall|j: int| 0 <= j < at ==> self.users[j].user_id < id,
            forall|j: int| at <= j < self.users.len() ==> self.users[j].user_id >= id,
    {
        let mut low: usize = 0;
        let mut high: usize = self.users.len();
        while low < high
            invariant
                self.wf(),
                low <= high <= self.users.len(),
                forall|j: int| 0 <= j < low ==> self.users[j].user_id < id,
                forall|j: int| high <= j < self.users.len() ==> self.users[j].user_id >= id,
            decreases high - low,
        {
            let mid = low + (high - low) / 2;
            if self.users[mid].user_id < id {
                proof {
                    assert forall|j: int| 0 <= j < mid + 1 implies self.users[j].user_id < id by {
                        if j < mid {
                            assert(self.users@[j].user_id < self.users@[mid as int].user_id);
                        }
                    }
                }
                low = mid + 1;
            } else {
                proof {
                    assert forall|j: int| mid <= j < self.users.len() implies self.users[j].user_id
                        >= id by {
                        if mid < j {
                            assert(self.users@[mid as int].user_id < self.users@[j].user_id);
                        }
                    }
                }
                high = mid;
            }
        }
        low
    }

    /// Finds where `name` stands among the accounts.
    fn locate_user(&self, name: &String) -> (slot: UserSlot)
        requires
            self.wf(),
        ensures
            match slot {
                UserSlot::Found(i) => {
                    &&& i < self.users.len()
                    &&& self.users[i as int].username@ == name@
                    &&& self@.users.dom().contains(name@)
                    &&& self@.users[name@] == self.users[i as int]@
                },
                UserSlot::Taken(i) => {
                    &&& i < self.users.len()
                    &&& !self@.users.dom().contains(name@)
                    &&& self@.id_in_use(spec_hash(name@))
                },
                UserSlot::Free(i) => {
                    &&& i <= self.users.len()
                    &&& forall|j: int| 0 <= j < i ==> self.users[j].user_id < spec_hash(name@)
                    &&& forall|j: int|
                        i <= j < self.users.len() ==> self.users[j].user_id > spec_hash(name@)
                    &&& !self@.users.dom().contains(name@)
                    &&& !self@.id_in_use(spec_hash(name@))
                },
            },
    {
        let id = hash(name.as_str());
        let at = self.user_rank(id);
        proof {
            lemma_users_distinct(self.users@);
        }
        if at < self.users.len() && self.users[at].user_id == id {
            if self.users[at].username == *name {
                proof {
                    lemma_rows_row(self.users@, user_key(), user_val(), at as int);
                }
                UserSlot::Found(at)
            } else {
                proof {
                    lemma_rows_row(self.users@, user_key(), user_val(), at as int);
                    let other = self.users@[at as int].username@;
                    assert(self@.users.dom().contains(other) && self@.users[other].user_id == id);
                    assert forall|i: int| 0 <= i < self.users@.len() implies user_key()(
                        #[trigger] self.users@[i],
                    ) != name@ by {
                        if self.users@[i].username@ == name@ {
                            assert(self.users@[i].user_id == id);
                            if i < at {
                                assert(self.users@[i].user_id < self.users@[at as int].user_id);
                            } else if at < i {
                                assert(self.users@[at as int].user_id < self.users@[i].user_id);
                            }
                        }
                    }
                    lemma_rows_absent(self.users@, user_key(), user_val(), name@);
                }
                UserSlot::Taken(at)
            }
        } else {
            proof {
                assert forall|i: int| 0 <= i < self.users@.len() implies user_key()(
                    #[trigger] self.users@[i],
                ) != name@ by {
                    if self.users@[i].username@ == name@ {
                        assert(self.users@[i].user_id == id);
                    }
                }
                lemma_rows_absent(self.users@, user_key(), user_val(), name@);
                if self@.id_in_use(id) {
                    let n = choose|n: Seq<char>| #[trigger]
                        self@.users.dom().contains(n) && self@.users[n].user_id == id;
                    let i = lemma_rows_key(self.users@, user_key(), user_val(), n);
                    assert(self.users@[i].user_id == id);
                }
            }
            UserSlot::Free(at)
        }
    }

    /// The account registered under `username`, if there is one.
    pub fn find_user(&self, username: &String) -> (found: Option<UserEntry>)
        requires
            self.wf(),
        ensures
            match found {
                Some(user) => self@.users.dom().contains(username@) && user@
                    == self@.users[username@],
                None => !self@.users.dom().contains(username@),
            },
    {
        match self.locate_user(username) {
            UserSlot::Found(i) => Some(self.users[i].duplicate()),
            UserSlot::Taken(_) => None,
            UserSlot::Free(_) => None,
        }
    }
}

} // verus!
