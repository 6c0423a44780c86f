use crate::digest::sha256;
use crate::digest::sha256_hash;
use crate::records::UserEntry;
use crate::records::UserView;
use vstd::bytes::lemma_auto_spec_u64_to_from_le_bytes;
use vstd::bytes::spec_u64_from_le_bytes;
use vstd::bytes::spec_u64_to_le_bytes;
use vstd::bytes::u64_to_le_bytes;
use vstd::prelude::*;
use vstd::string::StringExecFns;

verus! {

/// The lower-case hexadecimal digit of a value below 16.
pub open spec fn hex_digit(n: int) -> char {
    if n == 0 {
        '0'
    } else if n == 1 {
        '1'
    } else if n == 2 {
        '2'
    } else if n == 3 {
        '3'
    } else if n == 4 {
        '4'
    } else if n == 5 {
        '5'
    } else if n == 6 {
        '6'
    } else if n == 7 {
        '7'
    } else if n == 8 {
        '8'
    } else if n == 9 {
        '9'
    } else if n == 10 {
        'a'
    } else if n == 11 {
        'b'
    } else if n == 12 {
        'c'
    } else if n == 13 {
        'd'
    } else if n == 14 {
        'e'
    } else {
        'f'
    }
}

/// Two hexadecimal digits for each byte, the high half first.
pub open spec fn hex_string(bytes: Seq<u8>) -> Seq<char> {
    Seq::new(
        2 * bytes.len(),
        |i: int| hex_digit(if i % 2 == 0 { bytes[i / 2] as int / 16 } else { bytes[i / 2] as int % 16 }),
    )
}

/// The bytes that are digested into the access token of a login: the
/// account's password digest, its id, the time, and a serial number that
/// tells apart the logins of one account within one second.
pub open spec fn token_seed(user: UserView, now: u64, serial: u64) -> Seq<u8> {
    user.password_hash + spec_u64_to_le_bytes(user.user_id) + spec_u64_to_le_bytes(now)
        + spec_u64_to_le_bytes(serial)
}

/// The serial number as it stands at the head of a token.
pub open spec fn serial_text(serial: u64) -> Seq<char> {
    hex_string(spec_u64_to_le_bytes(serial))
}

/// The access token with serial number `serial` for a login of `user` at
/// time `now`: the serial number, then the digest of the seed, both in
/// hexadecimal.
pub open spec fn token_for(user: UserView, now: u64, serial: u64) -> Seq<char> {
    serial_text(serial) + hex_string(sha256(token_seed(user, now, serial)))
}

/// Different bytes are written as different hexadecimal text.
pub proof fn lemma_hex_string_is_injective(a: Seq<u8>, b: Seq<u8>)
    requires
        hex_string(a) == hex_string(b),
    ensures
        a == b,
{
    assert(hex_string(a).len() == 2 * a.len());
    assert(hex_string(b).len() == 2 * b.len());
    assert forall|i: int| 0 <= i < a.len() implies a[i] == b[i] by {
        let high = hex_string(a)[2 * i];
        let low = hex_string(a)[2 * i + 1];
        assert(high == hex_string(b)[2 * i]);
        assert(low == hex_string(b)[2 * i + 1]);
        assert((2 * i) / 2 == i && (2 * i) % 2 == 0);
        assert((2 * i + 1) / 2 == i && (2 * i + 1) % 2 == 1);
        assert(a[i] as int / 16 == b[i] as int / 16);
        assert(a[i] as int % 16 == b[i] as int % 16);
    }
    assert(a =~= b);
}

/// Tokens with different serial numbers differ, whatever their digests.
pub proof fn lemma_tokens_differ(user: UserView, now: u64, first: u64, second: u64)
    requires
        first != second,
    ensures
        token_for(user, now, first) != token_for(user, now, second),
{
    lemma_auto_spec_u64_to_from_le_bytes();
    let a = serial_text(first);
    let b = serial_text(second);
    if token_for(user, now, first) == token_for(user, now, second) {
        assert(a.len() == 16 && b.len() == 16);
        assert(token_for(user, now, first).subrange(0, 16) =~= a);
        assert(token_for(user, now, second).subrange(0, 16) =~= b);
        lemma_hex_string_is_injective(spec_u64_to_le_bytes(first), spec_u64_to_le_bytes(second));
        assert(spec_u64_from_le_bytes(spec_u64_to_le_bytes(first)) == first);
        assert(spec_u64_from_le_bytes(spec_u64_to_le_bytes(second)) == second);
    }
}

fn hex_digit_text(n: u8) -> (text: &'static str)
    requires
        n < 16,
    ensures
        text@ == seq![hex_digit(n as int)],
{
    proof {
        reveal_strlit("0");
        reveal_strlit("1");
        reveal_strlit("2");
        reveal_strlit("3");
        reveal_strlit("4");
        reveal_strlit("5");
        reveal_strlit("6");
        reveal_strlit("7");
        reveal_strlit("8");
        reveal_strlit("9");
        reveal_strlit("a");
        reveal_strlit("b");
        reveal_strlit("c");
        reveal_strlit("d");
        reveal_strlit("e");
        reveal_strlit("f");
    }
    let text = match n {
        0 => "0",
        1 => "1",
        2 => "2",
        3 => "3",
        4 => "4",
        5 => "5",
        6 => "6",
        7 => "7",
        8 => "8",
        9 => "9",
        10 => "a",
        11 => "b",
        12 => "c",
        13 => "d",
        14 => "e",
        _ => "f",
    };
    assert(text@ =~= seq![hex_digit(n as int)]);
    text
}

/// Writes bytes as lower-case hexadecimal text, two digits for each byte.
pub fn to_hex(bytes: &[u8]) -> (text: String)
    ensures
        text@ == hex_string(bytes@),
{
    let mut text = String::new();
    let mut i: usize = 0;
    while i < bytes.len()
        invariant
            i <= bytes.len(),
            text@ == hex_string(bytes@.take(i as int)),
        decreases bytes.len() - i,
    {
        let byte = bytes[i];
        let ghost before = text@;
        text.append(hex_digit_text(byte / 16));
        text.append(hex_digit_text(byte % 16));
        proof {
            let shorter = bytes@.take(i as int);
            let longer = bytes@.take(i as int + 1);
            assert(longer[i as int] == byte);
            assert forall|j: int| 0 <= j < 2 * i implies hex_string(longer)[j] == hex_string(shorter)[j] by {
                assert(longer[j / 2] == shorter[j / 2]);
            }
            assert(text@ =~= hex_string(longer));
        }
        i += 1;
    }
    assert(bytes@.take(bytes.len() as int) =~= bytes@);
    text
}

/// The access token with serial number `serial` for a login by `user` at
/// time `now`.
pub fn session_token(user: &UserEntry, now: u64, serial: u64) -> (token: String)
    ensures
        token@ == token_for(user@, now, serial),
{
    let mut seed: Vec<u8> = Vec::new();
    seed.extend_from_slice(user.password_hash.as_slice());
    let id_bytes = u64_to_le_bytes(user.user_id);
    seed.extend_from_slice(id_bytes.as_slice());
    let time_bytes = u64_to_le_bytes(now);
    seed.extend_from_slice(time_bytes.as_slice());
    let serial_bytes = u64_to_le_bytes(serial);
    seed.extend_from_slice(serial_bytes.as_slice());
    assert(seed@ =~= token_seed(user@, now, serial));
    let digest = sha256_hash(seed.as_slice());
    let mut token = to_hex(serial_bytes.as_slice());
    let body = to_hex(digest.as_slice());
    token.append(body.as_str());
    token
}

} // verus!
