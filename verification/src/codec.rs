//! The byte encoding of the stored records.
//!
//! A number is eight bytes, least significant first. A text is the number
//! of its UTF-8 bytes, then those bytes. A record is its fields one after
//! another; a run of cards is preceded by the number of cards. Nothing may
//! follow the last field.

use crate::error::AndyError;
use crate::records::card_views;
use crate::records::Card;
use crate::records::CardDeck;
use crate::records::CardView;
use crate::records::DeckView;
use crate::records::Session;
use crate::records::SessionView;
use crate::records::UserEntry;
use crate::records::UserView;
use vstd::bytes::lemma_auto_spec_u64_to_from_le_bytes;
use vstd::bytes::spec_u64_from_le_bytes;
use vstd::bytes::spec_u64_to_le_bytes;
use vstd::bytes::u64_from_le_bytes;
use vstd::bytes::u64_to_le_bytes;
use vstd::prelude::*;
use vstd::slice::slice_subrange;
use vstd::utf8::decode_utf8;
use vstd::utf8::decode_utf8_encode_utf8;
use vstd::utf8::encode_utf8;
use vstd::utf8::encode_utf8_decode_utf8;
use vstd::utf8::encode_utf8_valid_utf8;
use vstd::utf8::valid_utf8;

verus! {

/// The encoding of a number.
pub open spec fn enc_u64(x: u64) -> Seq<u8> {
    spec_u64_to_le_bytes(x)
}

/// A text is short enough for its length to be written down.
pub open spec fn text_fits(text: Seq<char>) -> bool {
    encode_utf8(text).len() <= u64::MAX
}

/// The encoding of a text.
pub open spec fn enc_text(text: Seq<char>) -> Seq<u8> {
    enc_u64(encode_utf8(text).len() as u64) + encode_utf8(text)
}

/// The encoding of a card.
pub open spec fn enc_card(card: CardView) -> Seq<u8> {
    enc_text(card.question) + enc_text(card.answer)
}

/// The encoding of a run of cards, without their number.
pub open spec fn enc_cards(cards: Seq<CardView>) -> Seq<u8>
    decreases cards.len(),
{
    if cards.len() == 0 {
        Seq::empty()
    } else {
        enc_cards(cards.drop_last()) + enc_card(cards.last())
    }
}

/// The encoding of a deck.
pub open spec fn enc_deck(deck: DeckView) -> Seq<u8> {
    enc_u64(deck.creation_time) + enc_text(deck.name) + enc_u64(deck.cards.len() as u64)
        + enc_cards(deck.cards)
}

/// The encoding of an account.
pub open spec fn enc_user(user: UserView) -> Seq<u8> {
    enc_text(user.username) + enc_u64(user.user_id) + enc_text(user.email) + user.password_hash
        + enc_u64(user.signup_time)
}

/// The encoding of a session.
pub open spec fn enc_session(session: SessionView) -> Seq<u8> {
    enc_text(session.token) + enc_u64(session.user_id) + enc_u64(session.issued_at) + enc_u64(
        session.expires_at,
    )
}

/// A card whose texts can be encoded.
pub open spec fn card_fits(card: CardView) -> bool {
    text_fits(card.question) && text_fits(card.answer)
}

/// A deck that can be encoded.
pub open spec fn deck_fits(deck: DeckView) -> bool {
    &&& text_fits(deck.name)
    &&& deck.cards.len() <= u64::MAX
    &&& forall|i: int| 0 <= i < deck.cards.len() ==> card_fits(#[trigger] deck.cards[i])
}

/// An account that can be encoded.
pub open spec fn user_fits(user: UserView) -> bool {
    text_fits(user.username) && text_fits(user.email) && user.password_hash.len() == 32
}

/// A session that can be encoded.
pub open spec fn session_fits(session: SessionView) -> bool {
    text_fits(session.token)
}

/// Reads a number at `at`: the number and where the next field starts.
pub open spec fn dec_u64(bytes: Seq<u8>, at: int) -> Option<(u64, int)> {
    if 0 <= at && at + 8 <= bytes.len() {
        Some((spec_u64_from_le_bytes(bytes.subrange(at, at + 8)), at + 8))
    } else {
        None
    }
}

/// Reads a text at `at`.
pub open spec fn dec_text(bytes: Seq<u8>, at: int) -> Option<(Seq<char>, int)> {
    match dec_u64(bytes, at) {
        Some((len, start)) => if start + len <= bytes.len() && valid_utf8(
            bytes.subrange(start, start + len),
        ) {
            Some((decode_utf8(bytes.subrange(start, start + len)), start + len))
        } else {
            None
        },
        None => None,
    }
}

/// Reads a card at `at`.
pub open spec fn dec_card(bytes: Seq<u8>, at: int) -> Option<(CardView, int)> {
    match dec_text(bytes, at) {
        Some((question, mid)) => match dec_text(bytes, mid) {
            Some((answer, end)) => Some((CardView { question, answer }, end)),
            None => None,
        },
        None => None,
    }
}

/// Reads `count` cards at `at`.
pub open spec fn dec_cards(bytes: Seq<u8>, at: int, count: nat) -> Option<(Seq<CardView>, int)>
    decreases count,
{
    if count == 0 {
        Some((Seq::empty(), at))
    } else {
        match dec_cards(bytes, at, (count - 1) as nat) {
            Some((init, mid)) => match dec_card(bytes, mid) {
                Some((card, end)) => Some((init.push(card), end)),
                None => None,
            },
            None => None,
        }
    }
}

/// Reads a password digest at `at`.
pub open spec fn dec_digest(bytes: Seq<u8>, at: int) -> Option<(Seq<u8>, int)> {
    if 0 <= at && at + 32 <= bytes.len() {
        Some((bytes.subrange(at, at + 32), at + 32))
    } else {
        None
    }
}

/// The deck that `bytes` encode, if they encode one.
pub open spec fn dec_deck(bytes: Seq<u8>) -> Option<DeckView> {
    match dec_u64(bytes, 0) {
        Some((creation_time, p1)) => match dec_text(bytes, p1) {
            Some((name, p2)) => match dec_u64(bytes, p2) {
                Some((count, p3)) => match dec_cards(bytes, p3, count as nat) {
                    Some((cards, p4)) => if p4 == bytes.len() {
                        Some(DeckView { creation_time, cards, name })
                    } else {
                        None
                    },
                    None => None,
                },
                None => None,
            },
            None => None,
        },
        None => None,
    }
}

/// The account that `bytes` encode, if they encode one.
pub open spec fn dec_user(bytes: Seq<u8>) -> Option<UserView> {
    match dec_text(bytes, 0) {
        Some((username, p1)) => match dec_u64(bytes, p1) {
            Some((user_id, p2)) => match dec_text(bytes, p2) {
                Some((email, p3)) => match dec_digest(bytes, p3) {
                    Some((password_hash, p4)) => match dec_u64(bytes, p4) {
                        Some((signup_time, p5)) => if p5 == bytes.len() {
                            Some(UserView { username, user_id, email, password_hash, signup_time })
                        } else {
                            None
                        },
                        None => None,
                    },
                    None => None,
                },
                None => None,
            },
            None => None,
        },
        None => None,
    }
}

/// The session that `bytes` encode, if they encode one.
pub open spec fn dec_session(bytes: Seq<u8>) -> Option<SessionView> {
    match dec_text(bytes, 0) {
        Some((token, p1)) => match dec_u64(bytes, p1) {
            Some((user_id, p2)) => match dec_u64(bytes, p2) {
                Some((issued_at, p3)) => match dec_u64(bytes, p3) {
                    Some((expires_at, p4)) => if p4 == bytes.len() {
                        Some(SessionView { token, user_id, issued_at, expires_at })
                    } else {
                        None
                    },
                    None => None,
                },
                None => None,
            },
            None => None,
        },
        None => None,
    }
}

/// The bytes `part` stand in `bytes` from position `at` on.
pub open spec fn holds_at(bytes: Seq<u8>, at: int, part: Seq<u8>) -> bool {
    0 <= at && at + part.len() <= bytes.len() && bytes.subrange(at, at + part.len()) == part
}

proof fn lemma_holds_split(bytes: Seq<u8>, at: int, first: Seq<u8>, second: Seq<u8>)
    requires
        holds_at(bytes, at, first + second),
    ensures
        holds_at(bytes, at, first),
        holds_at(bytes, at + first.len(), second),
{
    let whole = bytes.subrange(at, at + (first + second).len());
    assert forall|i: int| 0 <= i < first.len() implies bytes.subrange(at, at + first.len())[i]
        == first[i] by {
        assert(whole[i] == (first + second)[i]);
    }
    assert(bytes.subrange(at, at + first.len()) =~= first);
    assert forall|i: int| 0 <= i < second.len() implies bytes.subrange(
        at + first.len(),
        at + first.len() + second.len(),
    )[i] == second[i] by {
        assert(whole[first.len() + i] == (first + second)[first.len() + i]);
    }
    assert(bytes.subrange(at + first.len(), at + first.len() + second.len()) =~= second);
}

proof fn lemma_holds_join(bytes: Seq<u8>, at: int, first: Seq<u8>, second: Seq<u8>)
    requires
        holds_at(bytes, at, first),
        holds_at(bytes, at + first.len(), second),
    ensures
        holds_at(bytes, at, first + second),
{
    let a = bytes.subrange(at, at + first.len());
    let b = bytes.subrange(at + first.len(), at + first.len() + second.len());
    let whole = bytes.subrange(at, at + (first + second).len());
    assert forall|i: int| 0 <= i < whole.len() implies whole[i] == (first + second)[i] by {
        if i < first.len() {
            assert(a[i] == first[i]);
        } else {
            assert(b[i - first.len()] == second[i - first.len()]);
        }
    }
    assert(whole =~= first + second);
}

proof fn lemma_read_u64(bytes: Seq<u8>, at: int, x: u64)
    requires
        holds_at(bytes, at, enc_u64(x)),
    ensures
        enc_u64(x).len() == 8,
        dec_u64(bytes, at) == Some((x, at + 8)),
{
    lemma_auto_spec_u64_to_from_le_bytes();
}

proof fn lemma_u64_read(bytes: Seq<u8>, at: int)
    requires
        dec_u64(bytes, at) is Some,
    ensures
        holds_at(bytes, at, enc_u64(dec_u64(bytes, at)->Some_0.0)),
        dec_u64(bytes, at)->Some_0.1 == at + 8,
        enc_u64(dec_u64(bytes, at)->Some_0.0).len() == 8,
{
    lemma_auto_spec_u64_to_from_le_bytes();
    let chunk = bytes.subrange(at, at + 8);
    assert(spec_u64_to_le_bytes(spec_u64_from_le_bytes(chunk)) == chunk);
}

proof fn lemma_read_text(bytes: Seq<u8>, at: int, text: Seq<char>)
    requires
        text_fits(text),
        holds_at(bytes, at, enc_text(text)),
    ensures
        dec_text(bytes, at) == Some((text, at + enc_text(text).len())),
{
    let body = encode_utf8(text);
    let head = enc_u64(body.len() as u64);
    lemma_holds_split(bytes, at, head, body);
    lemma_read_u64(bytes, at, body.len() as u64);
    encode_utf8_valid_utf8(text);
    encode_utf8_decode_utf8(text);
}

proof fn lemma_text_read(bytes: Seq<u8>, at: int)
    requires
        dec_text(bytes, at) is Some,
    ensures
        text_fits(dec_text(bytes, at)->Some_0.0),
        holds_at(bytes, at, enc_text(dec_text(bytes, at)->Some_0.0)),
        dec_text(bytes, at)->Some_0.1 == at + enc_text(dec_text(bytes, at)->Some_0.0).len(),
{
    lemma_u64_read(bytes, at);
    let len = dec_u64(bytes, at)->Some_0.0;
    let start = at + 8;
    let body = bytes.subrange(start, start + len);
    decode_utf8_encode_utf8(body);
    let text = decode_utf8(body);
    assert(encode_utf8(text) == body);
    assert(body.len() == len);
    lemma_holds_join(bytes, at, enc_u64(len), body);
}

proof fn lemma_read_card(bytes: Seq<u8>, at: int, card: CardView)
    requires
        card_fits(card),
        holds_at(bytes, at, enc_card(card)),
    ensures
        dec_card(bytes, at) == Some((card, at + enc_card(card).len())),
{
    lemma_holds_split(bytes, at, enc_text(card.question), enc_text(card.answer));
    lemma_read_text(bytes, at, card.question);
    lemma_read_text(bytes, at + enc_text(card.question).len(), card.answer);
}

proof fn lemma_card_read(bytes: Seq<u8>, at: int)
    requires
        dec_card(bytes, at) is Some,
    ensures
        card_fits(dec_card(bytes, at)->Some_0.0),
        holds_at(bytes, at, enc_card(dec_card(bytes, at)->Some_0.0)),
        dec_card(bytes, at)->Some_0.1 == at + enc_card(dec_card(bytes, at)->Some_0.0).len(),
{
    lemma_text_read(bytes, at);
    let (question, mid) = dec_text(bytes, at)->Some_0;
    lemma_text_read(bytes, mid);
    let (answer, end) = dec_text(bytes, mid)->Some_0;
    lemma_holds_join(bytes, at, enc_text(question), enc_text(answer));
}

proof fn lemma_read_cards(bytes: Seq<u8>, at: int, cards: Seq<CardView>)
    requires
        forall|i: int| 0 <= i < cards.len() ==> card_fits(#[trigger] cards[i]),
        holds_at(bytes, at, enc_cards(cards)),
    ensures
        dec_cards(bytes, at, cards.len()) == Some((cards, at + enc_cards(cards).len())),
    decreases cards.len(),
{
    if cards.len() == 0 {
        assert(cards =~= Seq::<CardView>::empty());
    } else {
        let init = cards.drop_last();
        lemma_holds_split(bytes, at, enc_cards(init), enc_card(cards.last()));
        lemma_read_cards(bytes, at, init);
        lemma_read_card(bytes, at + enc_cards(init).len(), cards.last());
        assert(init.push(cards.last()) =~= cards);
    }
}

proof fn lemma_cards_read(bytes: Seq<u8>, at: int, count: nat)
    requires
        0 <= at <= bytes.len(),
        dec_cards(bytes, at, count) is Some,
    ensures
        ({
            let (cards, end) = dec_cards(bytes, at, count)->Some_0;
            &&& cards.len() == count
            &&& forall|i: int| 0 <= i < cards.len() ==> card_fits(#[trigger] cards[i])
            &&& holds_at(bytes, at, enc_cards(cards))
            &&& end == at + enc_cards(cards).len()
        }),
    decreases count,
{
    if count == 0 {
        assert(bytes.subrange(at, at) =~= Seq::<u8>::empty());
    } else {
        lemma_cards_read(bytes, at, (count - 1) as nat);
        let (init, mid) = dec_cards(bytes, at, (count - 1) as nat)->Some_0;
        lemma_card_read(bytes, mid);
        let (card, end) = dec_card(bytes, mid)->Some_0;
        let cards = init.push(card);
        assert(cards.drop_last() =~= init);
        lemma_holds_join(bytes, at, enc_cards(init), enc_card(card));
    }
}

/// Once a card cannot be read, no longer run can.
proof fn lemma_cards_cut_short(bytes: Seq<u8>, at: int, read: nat, count: nat)
    requires
        read <= count,
        dec_cards(bytes, at, read) is None,
    ensures
        dec_cards(bytes, at, count) is None,
    decreases count,
{
    if read < count {
        lemma_cards_cut_short(bytes, at, read, (count - 1) as nat);
    }
}

/// Decoding undoes encoding: the bytes of a deck are read back as that deck.
pub proof fn lemma_deck_round_trip(deck: DeckView)
    requires
        deck_fits(deck),
    ensures
        dec_deck(enc_deck(deck)) == Some(deck),
{
    let bytes = enc_deck(deck);
    let a = enc_u64(deck.creation_time);
    let b = enc_text(deck.name);
    let c = enc_u64(deck.cards.len() as u64);
    let d = enc_cards(deck.cards);
    assert(bytes.subrange(0, bytes.len() as int) =~= bytes);
    assert(holds_at(bytes, 0, a + b + c + d));
    lemma_holds_split(bytes, 0, a + b + c, d);
    lemma_holds_split(bytes, 0, a + b, c);
    lemma_holds_split(bytes, 0, a, b);
    lemma_read_u64(bytes, 0, deck.creation_time);
    lemma_read_text(bytes, a.len() as int, deck.name);
    lemma_read_u64(bytes, (a + b).len() as int, deck.cards.len() as u64);
    lemma_read_cards(bytes, (a + b + c).len() as int, deck.cards);
}

/// Only encodings are decoded: bytes that are read as a deck are that
/// deck's encoding.
pub proof fn lemma_deck_bytes_are_canonical(bytes: Seq<u8>)
    requires
        dec_deck(bytes) is Some,
    ensures
        deck_fits(dec_deck(bytes)->Some_0),
        enc_deck(dec_deck(bytes)->Some_0) == bytes,
{
    lemma_u64_read(bytes, 0);
    let (creation_time, p1) = dec_u64(bytes, 0)->Some_0;
    lemma_text_read(bytes, p1);
    let (name, p2) = dec_text(bytes, p1)->Some_0;
    lemma_u64_read(bytes, p2);
    let (count, p3) = dec_u64(bytes, p2)->Some_0;
    lemma_cards_read(bytes, p3, count as nat);
    let (cards, p4) = dec_cards(bytes, p3, count as nat)->Some_0;
    let a = enc_u64(creation_time);
    let b = enc_text(name);
    let c = enc_u64(count);
    let d = enc_cards(cards);
    lemma_holds_join(bytes, 0, a, b);
    lemma_holds_join(bytes, 0, a + b, c);
    lemma_holds_join(bytes, 0, a + b + c, d);
    assert(bytes.subrange(0, bytes.len() as int) =~= bytes);
}

/// Decoding undoes encoding: the bytes of an account are read back as that
/// account.
pub proof fn lemma_user_round_trip(user: UserView)
    requires
        user_fits(user),
    ensures
        dec_user(enc_user(user)) == Some(user),
{
    let bytes = enc_user(user);
    let a = enc_text(user.username);
    let b = enc_u64(user.user_id);
    let c = enc_text(user.email);
    let d = user.password_hash;
    let e = enc_u64(user.signup_time);
    assert(bytes.subrange(0, bytes.len() as int) =~= bytes);
    assert(holds_at(bytes, 0, a + b + c + d + e));
    lemma_holds_split(bytes, 0, a + b + c + d, e);
    lemma_holds_split(bytes, 0, a + b + c, d);
    lemma_holds_split(bytes, 0, a + b, c);
    lemma_holds_split(bytes, 0, a, b);
    lemma_read_text(bytes, 0, user.username);
    lemma_read_u64(bytes, a.len() as int, user.user_id);
    lemma_read_text(bytes, (a + b).len() as int, user.email);
    lemma_read_u64(bytes, (a + b + c + d).len() as int, user.signup_time);
}

/// Only encodings are decoded: bytes that are read as an account are that
/// account's encoding.
pub proof fn lemma_user_bytes_are_canonical(bytes: Seq<u8>)
    requires
        dec_user(bytes) is Some,
    ensures
        user_fits(dec_user(bytes)->Some_0),
        enc_user(dec_user(bytes)->Some_0) == bytes,
{
    lemma_text_read(bytes, 0);
    let (username, p1) = dec_text(bytes, 0)->Some_0;
    lemma_u64_read(bytes, p1);
    let (user_id, p2) = dec_u64(bytes, p1)->Some_0;
    lemma_text_read(bytes, p2);
    let (email, p3) = dec_text(bytes, p2)->Some_0;
    let (password_hash, p4) = dec_digest(bytes, p3)->Some_0;
    lemma_u64_read(bytes, p4);
    let (signup_time, p5) = dec_u64(bytes, p4)->Some_0;
    let a = enc_text(username);
    let b = enc_u64(user_id);
    let c = enc_text(email);
    let e = enc_u64(signup_time);
    lemma_holds_join(bytes, 0, a, b);
    lemma_holds_join(bytes, 0, a + b, c);
    lemma_holds_join(bytes, 0, a + b + c, password_hash);
    lemma_holds_join(bytes, 0, a + b + c + password_hash, e);
    assert(bytes.subrange(0, bytes.len() as int) =~= bytes);
}

/// Decoding undoes encoding: the bytes of a session are read back as that
/// session.
pub proof fn lemma_session_round_trip(session: SessionView)
    requires
        session_fits(session),
    ensures
        dec_session(enc_session(session)) == Some(session),
{
    let bytes = enc_session(session);
    let a = enc_text(session.token);
    let b = enc_u64(session.user_id);
    let c = enc_u64(session.issued_at);
    let d = enc_u64(session.expires_at);
    assert(bytes.subrange(0, bytes.len() as int) =~= bytes);
    assert(holds_at(bytes, 0, a + b + c + d));
    lemma_holds_split(bytes, 0, a + b + c, d);
    lemma_holds_split(bytes, 0, a + b, c);
    lemma_holds_split(bytes, 0, a, b);
    lemma_read_text(bytes, 0, session.token);
    lemma_read_u64(bytes, a.len() as int, session.user_id);
    lemma_read_u64(bytes, (a + b).len() as int, session.issued_at);
    lemma_read_u64(bytes, (a + b + c).len() as int, session.expires_at);
}

/// Only encodings are decoded: bytes that are read as a session are that
/// session's encoding.
pub proof fn lemma_session_bytes_are_canonical(bytes: Seq<u8>)
    requires
        dec_session(bytes) is Some,
    ensures
        session_fits(dec_session(bytes)->Some_0),
        enc_session(dec_session(bytes)->Some_0) == bytes,
{
    lemma_text_read(bytes, 0);
    let (token, p1) = dec_text(bytes, 0)->Some_0;
    lemma_u64_read(bytes, p1);
    let (user_id, p2) = dec_u64(bytes, p1)->Some_0;
    lemma_u64_read(bytes, p2);
    let (issued_at, p3) = dec_u64(bytes, p2)->Some_0;
    lemma_u64_read(bytes, p3);
    let (expires_at, p4) = dec_u64(bytes, p3)->Some_0;
    let a = enc_text(token);
    let b = enc_u64(user_id);
    let c = enc_u64(issued_at);
    let d = enc_u64(expires_at);
    lemma_holds_join(bytes, 0, a, b);
    lemma_holds_join(bytes, 0, a + b, c);
    lemma_holds_join(bytes, 0, a + b + c, d);
    assert(bytes.subrange(0, bytes.len() as int) =~= bytes);
}

/// Calls `core::str::from_utf8`. Trusted: the call succeeds exactly on
/// well-formed UTF-8, and the text it hands back has `bytes` as its UTF-8
/// bytes.
#[verifier::external_body]
fn utf8_text(bytes: &[u8]) -> (text: Option<&str>)
    ensures
        text is Some <==> valid_utf8(bytes@),
        text matches Some(s) ==> encode_utf8(s@) == bytes@,
{
    match core::str::from_utf8(bytes) {
        Ok(text) => Some(text),
        Err(_) => None,
    }
}

fn put_u64(out: &mut Vec<u8>, x: u64)
    ensures
        final(out)@ == old(out)@ + enc_u64(x),
{
    let bytes = u64_to_le_bytes(x);
    out.extend_from_slice(bytes.as_slice());
    assert(out@ =~= old(out)@ + enc_u64(x));
}

fn put_text(out: &mut Vec<u8>, text: &str)
    ensures
        final(out)@ == old(out)@ + enc_text(text@),
        text_fits(text@),
{
    let body = text.as_bytes();
    put_u64(out, body.len() as u64);
    out.extend_from_slice(body);
    assert(out@ =~= old(out)@ + enc_text(text@));
}

fn put_card(out: &mut Vec<u8>, card: &Card)
    ensures
        final(out)@ == old(out)@ + enc_card(card@),
        card_fits(card@),
{
    put_text(out, card.question.as_str());
    put_text(out, card.answer.as_str());
    assert(out@ =~= old(out)@ + enc_card(card@));
}

fn get_u64(bytes: &[u8], at: usize) -> (r: Option<(u64, usize)>)
    requires
        at <= bytes.len(),
    ensures
        match r {
            Some((x, next)) => next <= bytes.len() && dec_u64(bytes@, at as int) == Some(
                (x, next as int),
            ),
            None => dec_u64(bytes@, at as int) is None,
        },
{
    if bytes.len() - at < 8 {
        return None;
    }
    let chunk = slice_subrange(bytes, at, at + 8);
    Some((u64_from_le_bytes(chunk), at + 8))
}

fn get_text(bytes: &[u8], at: usize) -> (r: Option<(String, usize)>)
    requires
        at <= bytes.len(),
    ensures
        match r {
            Some((text, next)) => next <= bytes.len() && dec_text(bytes@, at as int) == Some(
                (text@, next as int),
            ),
            None => dec_text(bytes@, at as int) is None,
        },
{
    match get_u64(bytes, at) {
        None => None,
        Some((len, start)) => {
            if len > (bytes.len() - start) as u64 {
                return None;
            }
            let end = start + len as usize;
            let chunk = slice_subrange(bytes, start, end);
            match utf8_text(chunk) {
                None => None,
                Some(text) => {
                    proof {
                        encode_utf8_decode_utf8(text@);
                    }
                    Some((text.to_owned(), end))
                },
            }
        },
    }
}

fn get_card(bytes: &[u8], at: usize) -> (r: Option<(Card, usize)>)
    requires
        at <= bytes.len(),
    ensures
        match r {
            Some((card, next)) => next <= bytes.len() && dec_card(bytes@, at as int) == Some(
                (card@, next as int),
            ),
            None => dec_card(bytes@, at as int) is None,
        },
{
    match get_text(bytes, at) {
        None => None,
        Some((question, mid)) => match get_text(bytes, mid) {
            None => None,
            Some((answer, end)) => Some((Card { question, answer }, end)),
        },
    }
}

fn get_digest(bytes: &[u8], at: usize) -> (r: Option<([u8; 32], usize)>)
    requires
        at <= bytes.len(),
    ensures
        match r {
            Some((digest, next)) => next <= bytes.len() && dec_digest(bytes@, at as int) == Some(
                (digest@, next as int),
            ),
            None => dec_digest(bytes@, at as int) is None,
        },
{
    if bytes.len() - at < 32 {
        return None;
    }
    let mut digest = [0u8; 32];
    let mut i: usize = 0;
    while i < 32
        invariant
            i <= 32,
            at + 32 <= bytes.len(),
            forall|j: int| 0 <= j < i ==> digest@[j] == bytes@[at + j],
        decreases 32 - i,
    {
        digest[i] = bytes[at + i];
        i += 1;
    }
    assert(digest@ =~= bytes@.subrange(at as int, at + 32));
    Some((digest, at + 32))
}

impl CardDeck {
    /// The name that tells stored decks from records of other kinds.
    pub fn record_type() -> (name: &'static str)
        ensures
            name@ == "andy_card_deck"@,
    {
        "andy_card_deck"
    }

    /// The width of an encoded deck where all decks have one: they do not.
    pub fn fixed_width() -> (width: Option<usize>)
        ensures
            width is None,
    {
        None
    }

    /// Encodes the deck.
    pub fn as_bytes(&self) -> (bytes: Vec<u8>)
        ensures
            bytes@ == enc_deck(self@),
            deck_fits(self@),
    {
        let mut out: Vec<u8> = Vec::new();
        put_u64(&mut out, self.creation_time);
        put_text(&mut out, self.name.as_str());
        put_u64(&mut out, self.cards.len() as u64);
        let ghost head = out@;
        let ghost all = card_views(self.cards@);
        let mut i: usize = 0;
        while i < self.cards.len()
            invariant
                i <= self.cards.len(),
                all == card_views(self.cards@),
                out@ == head + enc_cards(all.take(i as int)),
                forall|j: int| 0 <= j < i ==> card_fits(#[trigger] all[j]),
            decreases self.cards.len() - i,
        {
            put_card(&mut out, &self.cards[i]);
            proof {
                let longer = all.take(i as int + 1);
                assert(longer.drop_last() =~= all.take(i as int));
                assert(longer.last() == self.cards@[i as int]@);
                assert(out@ =~= head + enc_cards(longer));
            }
            i += 1;
        }
        proof {
            assert(all.take(self.cards.len() as int) =~= all);
            assert(out@ =~= enc_deck(self@));
        }
        out
    }

    /// Decodes a deck; `EncodingCorruption` where `data` is no deck's
    /// encoding.
    pub fn from_bytes(data: &[u8]) -> (r: Result<CardDeck, AndyError>)
        ensures
            match r {
                Ok(deck) => dec_deck(data@) == Some(deck@),
                Err(e) => e == AndyError::EncodingCorruption && dec_deck(data@) is None,
            },
    {
        let (creation_time, p1) = match get_u64(data, 0) {
            Some(read) => read,
            None => return Err(AndyError::EncodingCorruption),
        };
        let (name, p2) = match get_text(data, p1) {
            Some(read) => read,
            None => return Err(AndyError::EncodingCorruption),
        };
        let (count, p3) = match get_u64(data, p2) {
            Some(read) => read,
            None => return Err(AndyError::EncodingCorruption),
        };
        let mut cards: Vec<Card> = Vec::new();
        let mut at = p3;
        let mut i: u64 = 0;
        while i < count
            invariant
                i <= count,
                at <= data.len(),
                dec_u64(data@, 0) == Some((creation_time, p1 as int)),
                dec_text(data@, p1 as int) == Some((name@, p2 as int)),
                dec_u64(data@, p2 as int) == Some((count, p3 as int)),
                dec_cards(data@, p3 as int, i as nat) == Some((card_views(cards@), at as int)),
            decreases count - i,
        {
            match get_card(data, at) {
                None => {
                    proof {
                        lemma_cards_cut_short(data@, p3 as int, (i + 1) as nat, count as nat);
                    }
                    return Err(AndyError::EncodingCorruption);
                },
                Some((card, next)) => {
                    let ghost before = card_views(cards@);
                    cards.push(card);
                    proof {
                        assert(card_views(cards@) =~= before.push(card@));
                    }
                    at = next;
                },
            }
            i += 1;
        }
        if at != data.len() {
            return Err(AndyError::EncodingCorruption);
        }
        Ok(CardDeck { creation_time, cards, name })
    }
}

impl UserEntry {
    /// The name that tells stored accounts from records of other kinds.
    pub fn record_type() -> (name: &'static str)
        ensures
            name@ == "andy_user_entry"@,
    {
        "andy_user_entry"
    }

    /// The width of an encoded account where all accounts have one: they
    /// do not.
    pub fn fixed_width() -> (width: Option<usize>)
        ensures
            width is None,
    {
        None
    }

    /// Encodes the account.
    pub fn as_bytes(&self) -> (bytes: Vec<u8>)
        ensures
            bytes@ == enc_user(self@),
            user_fits(self@),
    {
        let mut out: Vec<u8> = Vec::new();
        put_text(&mut out, self.username.as_str());
        put_u64(&mut out, self.user_id);
        put_text(&mut out, self.email.as_str());
        let ghost head = out@;
        out.extend_from_slice(self.password_hash.as_slice());
        assert(out@ =~= head + self.password_hash@);
        put_u64(&mut out, self.signup_time);
        out
    }

    /// Decodes an account; `EncodingCorruption` where `data` is no
    /// account's encoding.
    pub fn from_bytes(data: &[u8]) -> (r: Result<UserEntry, AndyError>)
        ensures
            match r {
                Ok(user) => dec_user(data@) == Some(user@),
                Err(e) => e == AndyError::EncodingCorruption && dec_user(data@) is None,
            },
    {
        let (username, p1) = match get_text(data, 0) {
            Some(read) => read,
            None => return Err(AndyError::EncodingCorruption),
        };
        let (user_id, p2) = match get_u64(data, p1) {
            Some(read) => read,
            None => return Err(AndyError::EncodingCorruption),
        };
        let (email, p3) = match get_text(data, p2) {
            Some(read) => read,
            None => return Err(AndyError::EncodingCorruption),
        };
        let (password_hash, p4) = match get_digest(data, p3) {
            Some(read) => read,
            None => return Err(AndyError::EncodingCorruption),
        };
        let (signup_time, p5) = match get_u64(data, p4) {
            Some(read) => read,
            None => return Err(AndyError::EncodingCorruption),
        };
        if p5 != data.len() {
            return Err(AndyError::EncodingCorruption);
        }
        Ok(UserEntry { username, user_id, email, password_hash, signup_time })
    }
}

impl Session {
    /// The name that tells stored sessions from records of other kinds.
    pub fn record_type() -> (name: &'static str)
        ensures
            name@ == "andy_session"@,
    {
        "andy_session"
    }

    /// The width of an encoded session where all sessions have one: they
    /// do not.
    pub fn fixed_width() -> (width: Option<usize>)
        ensures
            width is None,
    {
        None
    }

    /// Encodes the session.
    pub fn as_bytes(&self) -> (bytes: Vec<u8>)
        ensures
            bytes@ == enc_session(self@),
            session_fits(self@),
    {
        let mut out: Vec<u8> = Vec::new();
        put_text(&mut out, self.token.as_str());
        put_u64(&mut out, self.user_id);
        put_u64(&mut out, self.issued_at);
        put_u64(&mut out, self.expires_at);
        out
    }

    /// Decodes a session; `EncodingCorruption` where `data` is no session's
    /// encoding.
    pub fn from_bytes(data: &[u8]) -> (r: Result<Session, AndyError>)
        ensures
            match r {
                Ok(session) => dec_session(data@) == Some(session@),
                Err(e) => e == AndyError::EncodingCorruption && dec_session(data@) is None,
            },
    {
        let (token, p1) = match get_text(data, 0) {
            Some(read) => read,
            None => return Err(AndyError::EncodingCorruption),
        };
        let (user_id, p2) = match get_u64(data, p1) {
            Some(read) => read,
            None => return Err(AndyError::EncodingCorruption),
        };
        let (issued_at, p3) = match get_u64(data, p2) {
            Some(read) => read,
            None => return Err(AndyError::EncodingCorruption),
        };
        let (expires_at, p4) = match get_u64(data, p3) {
            Some(read) => read,
            None => return Err(AndyError::EncodingCorruption),
        };
        if p4 != data.len() {
            return Err(AndyError::EncodingCorruption);
        }
        Ok(Session { token, user_id, issued_at, expires_at })
    }
}

/// The three kinds of record carry three different names.
pub proof fn lemma_record_types_differ()
    ensures
        "andy_card_deck"@ != "andy_user_entry"@,
        "andy_card_deck"@ != "andy_session"@,
        "andy_user_entry"@ != "andy_session"@,
{
    reveal_strlit("andy_card_deck");
    reveal_strlit("andy_user_entry");
    reveal_strlit("andy_session");
    assert("andy_card_deck"@.len() == 14);
    assert("andy_user_entry"@.len() == 15);
    assert("andy_session"@.len() == 12);
}

} // verus!
