use std::collections::hash_map::DefaultHasher;
use std::hash::Hasher;
use vstd::prelude::*;
use vstd::std_specs::hash::DefaultHasherAdditionalSpecFns;
use vstd::utf8::encode_utf8;

verus! {

/// The identifier derived from a name: the default hasher's digest of the
/// name's UTF-8 bytes followed by the terminator byte `0xff`.
pub open spec fn spec_hash(name: Seq<char>) -> u64 {
    DefaultHasher::spec_finish(seq![encode_utf8(name), seq![0xffu8]])
}

/// Derives the 64-bit identifier of a username or deck name.
///
/// The result is a function of the name alone, so equal names always get
/// equal identifiers. Distinct names may collide; the store detects that
/// when a record is written.
pub fn hash(name: &str) -> (id: u64)
    ensures
        id == spec_hash(name@),
{
    let mut hasher = DefaultHasher::new();
    hasher.write(name.as_bytes());
    let terminator: [u8; 1] = [0xff];
    hasher.write(terminator.as_slice());
    proof {
        assert(terminator@ =~= seq![0xffu8]);
        assert(hasher@ =~= seq![encode_utf8(name@), seq![0xffu8]]);
    }
    hasher.finish()
}

} // verus!
