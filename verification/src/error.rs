use vstd::prelude::*;

verus! {

/// Why the store refused an operation.
#[derive(Debug, Clone, Copy, PartialEq, Eq, Structural)]
pub enum AndyError {
    /// No account is registered under the given email.
    UserDoesNotExist,
    /// The password does not match the stored digest.
    WrongPassword,
    /// The access token is unknown or has expired.
    BadAccessToken,
    /// No deck is stored under the given owner and deck id.
    DeckDoesNotExist,
    /// The deck has no card at the given position.
    CardIndexOutOfRange,
    /// The username, or the deck name for this owner, is already in use.
    Conflict,
    /// The derived identifier already belongs to a different name.
    IdentifierCollision,
    /// Stored bytes are not the encoding of any record.
    EncodingCorruption,
    /// A card count does not fit the width of the listing.
    IntCast,
}

impl AndyError {
    /// The words for this kind of failure, as a caller may show them. They
    /// name the kind only and carry no detail of the store.
    pub open spec fn spec_describe(self) -> Seq<char> {
        match self {
            AndyError::UserDoesNotExist => "nonexistant user"@,
            AndyError::WrongPassword => "wrong password"@,
            AndyError::BadAccessToken => "bad access token"@,
            AndyError::DeckDoesNotExist => "nonexistant deck"@,
            AndyError::CardIndexOutOfRange => "card index out of range"@,
            AndyError::Conflict => "name already in use"@,
            AndyError::IdentifierCollision => "identifier collision"@,
            AndyError::EncodingCorruption => "corrupt record"@,
            AndyError::IntCast => "int cast err"@,
        }
    }

    /// The words for this kind of failure.
    pub fn describe(&self) -> (words: &'static str)
        ensures
            words@ == self.spec_describe(),
    {
        match self {
            AndyError::UserDoesNotExist => "nonexistant user",
            AndyError::WrongPassword => "wrong password",
            AndyError::BadAccessToken => "bad access token",
            AndyError::DeckDoesNotExist => "nonexistant deck",
            AndyError::CardIndexOutOfRange => "card index out of range",
            AndyError::Conflict => "name already in use",
            AndyError::IdentifierCollision => "identifier collision",
            AndyError::EncodingCorruption => "corrupt record",
            AndyError::IntCast => "int cast err",
        }
    }
}

} // verus!
