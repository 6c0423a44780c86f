use vstd::prelude::*;

verus! {

/// One question with its answer.
#[derive(Debug, Clone, PartialEq, Eq)]
pub struct Card {
    pub question: String,
    pub answer: String,
}

/// What a card holds.
pub struct CardView {
    pub question: Seq<char>,
    pub answer: Seq<char>,
}

impl View for Card {
    type V = CardView;

    open spec fn view(&self) -> CardView {
        CardView { question: self.question@, answer: self.answer@ }
    }
}

/// A named deck: its cards in order. A card has no identity but its position.
#[derive(Debug, Clone, PartialEq, Eq)]
pub struct CardDeck {
    pub creation_time: u64,
    pub cards: Vec<Card>,
    pub name: String,
}

/// What a deck holds.
pub struct DeckView {
    pub creation_time: u64,
    pub cards: Seq<CardView>,
    pub name: Seq<char>,
}

/// The views of a run of cards, in order.
pub open spec fn card_views(cards: Seq<Card>) -> Seq<CardView> {
    Seq::new(cards.len(), |i: int| cards[i]@)
}

impl View for CardDeck {
    type V = DeckView;

    open spec fn view(&self) -> DeckView {
        DeckView {
            creation_time: self.creation_time,
            cards: card_views(self.cards@),
            name: self.name@,
        }
    }
}

/// A registered account.
#[derive(Debug, Clone, PartialEq, Eq)]
pub struct UserEntry {
    pub username: String,
    pub user_id: u64,
    pub email: String,
    pub password_hash: [u8; 32],
    pub signup_time: u64,
}

/// What an account record holds.
pub struct UserView {
    pub username: Seq<char>,
    pub user_id: u64,
    pub email: Seq<char>,
    pub password_hash: Seq<u8>,
    pub signup_time: u64,
}

impl View for UserEntry {
    type V = UserView;

    open spec fn view(&self) -> UserView {
        UserView {
            username: self.username@,
            user_id: self.user_id,
            email: self.email@,
            password_hash: self.password_hash@,
            signup_time: self.signup_time,
        }
    }
}

/// An issued access token and the account it speaks for.
#[derive(Debug, Clone, PartialEq, Eq)]
pub struct Session {
    pub token: String,
    pub user_id: u64,
    pub issued_at: u64,
    pub expires_at: u64,
}

/// What a session record holds.
pub struct SessionView {
    pub token: Seq<char>,
    pub user_id: u64,
    pub issued_at: u64,
    pub expires_at: u64,
}

impl View for Session {
    type V = SessionView;

    open spec fn view(&self) -> SessionView {
        SessionView {
            token: self.token@,
            user_id: self.user_id,
            issued_at: self.issued_at,
            expires_at: self.expires_at,
        }
    }
}

impl Card {
    /// A copy of this card.
    pub fn duplicate(&self) -> (copy: Card)
        ensures
            copy@ == self@,
    {
        Card { question: self.question.clone(), answer: self.answer.clone() }
    }
}

/// A copy of a run of cards, in the same order.
pub fn duplicate_cards(cards: &Vec<Card>) -> (copy: Vec<Card>)
    ensures
        card_views(copy@) == card_views(cards@),
{
    let mut copy: Vec<Card> = Vec::new();
    let mut i: usize = 0;
    while i < cards.len()
        invariant
            i <= cards.len(),
            copy.len() == i,
            forall|j: int| 0 <= j < i ==> copy@[j]@ == cards@[j]@,
        decreases cards.len() - i,
    {
        copy.push(cards[i].duplicate());
        i += 1;
    }
    assert(card_views(copy@) =~= card_views(cards@));
    copy
}

impl CardDeck {
    /// A copy of this deck.
    pub fn duplicate(&self) -> (copy: CardDeck)
        ensures
            copy@ == self@,
    {
        CardDeck {
            creation_time: self.creation_time,
            cards: duplicate_cards(&self.cards),
            name: self.name.clone(),
        }
    }
}

impl UserEntry {
    /// A copy of this account record.
    pub fn duplicate(&self) -> (copy: UserEntry)
        ensures
            copy@ == self@,
    {
        UserEntry {
            username: self.username.clone(),
            user_id: self.user_id,
            email: self.email.clone(),
            password_hash: self.password_hash,
            signup_time: self.signup_time,
        }
    }
}

impl Session {
    /// A copy of this session record.
    pub fn duplicate(&self) -> (copy: Session)
        ensures
            copy@ == self@,
    {
        Session {
            token: self.token.clone(),
            user_id: self.user_id,
            issued_at: self.issued_at,
            expires_at: self.expires_at,
        }
    }
}

} // verus!

verus! {

/// One line of a deck listing.
#[derive(Debug, Clone, PartialEq, Eq)]
pub struct DeckSummary {
    pub deck_id: u64,
    pub name: String,
    pub num_cards: u32,
}

/// What a line of a deck listing holds.
pub struct DeckSummaryView {
    pub deck_id: u64,
    pub name: Seq<char>,
    pub num_cards: u32,
}

impl View for DeckSummary {
    type V = DeckSummaryView;

    open spec fn view(&self) -> DeckSummaryView {
        DeckSummaryView { deck_id: self.deck_id, name: self.name@, num_cards: self.num_cards }
    }
}

/// The decks of one owner.
#[derive(Debug, Clone, PartialEq, Eq)]
pub struct ListCardDecksResponse {
    pub decks: Vec<DeckSummary>,
}

impl View for ListCardDecksResponse {
    type V = Seq<DeckSummaryView>;

    open spec fn view(&self) -> Seq<DeckSummaryView> {
        Seq::new(self.decks@.len(), |i: int| self.decks@[i]@)
    }
}

/// The cards of one deck, in order.
#[derive(Debug, Clone, PartialEq, Eq)]
pub struct ListCardsResponse {
    pub cards: Vec<Card>,
}

impl View for ListCardsResponse {
    type V = Seq<CardView>;

    open spec fn view(&self) -> Seq<CardView> {
        card_views(self.cards@)
    }
}

/// What a successful login hands back.
#[derive(Debug, Clone, PartialEq, Eq)]
pub struct LoginResponse {
    pub access_token: String,
    pub user_id: u64,
}

/// What a login answer holds.
pub struct LoginView {
    pub access_token: Seq<char>,
    pub user_id: u64,
}

impl View for LoginResponse {
    type V = LoginView;

    open spec fn view(&self) -> LoginView {
        LoginView { access_token: self.access_token@, user_id: self.user_id }
    }
}

} // verus!
