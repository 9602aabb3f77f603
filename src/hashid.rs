//! Outing ids as users see them: hashids over a fixed salt and alphabet.
//!
//! The ids are encoded and decoded by the `harsh` crate; this module keeps
//! the one hasher this library uses and decides which decoded values are
//! outing ids.
use vstd::prelude::*;
use vstd::string::StringSliceAdditionalSpecFns;

use crate::models::{IdParseError, OutingId};

verus! {

#[verifier::external_type_specification]
#[verifier::external_body]
pub struct ExHarsh(harsh::Harsh);

#[verifier::external_type_specification]
#[verifier::external_body]
pub struct ExHarshError(harsh::Error);

#[verifier::external_type_specification]
#[verifier::external_body]
pub struct ExBuildError(harsh::BuildError);

/// The salt of this library's hashids.
pub const HASHID_SALT: &'static str = "birdie hashids";

/// The characters this library's hashids are written in.
pub const HASHID_ALPHABET: &'static str = "abcdefghijklmnopqrstuvwxyz1234567890";

/// The shortest hashid this library writes.
pub const HASHID_MIN_LENGTH: usize = 4;

/// The longest string, in bytes, that is handed to the hasher to decode.
/// The hasher adds up a value's digits without an overflow check; with this
/// library's settings a value has 24 possible digits, so 13 digits after the
/// leading character always fit in a `u64`. The hashid of an outing id is
/// far shorter.
pub const HASHID_MAX_BYTES: usize = 14;

/// The hashid of `values` under this library's settings.
pub uninterp spec fn hashid_encode(values: Seq<u64>) -> Seq<char>;

/// The values the hashid `s` stands for under this library's settings, or
/// `None` when `s` is not such a hashid.
pub uninterp spec fn hashid_decode(s: Seq<char>) -> Option<Seq<u64>>;

/// `bytes` are at least 16 distinct bytes, none of them a space.
pub open spec fn distinct_letters(bytes: Seq<u8>) -> bool {
    &&& bytes.len() >= 16
    &&& forall|i: int| 0 <= i < bytes.len() ==> bytes[i] != 32u8
    &&& forall|i: int, j: int| 0 <= i < j < bytes.len() ==> bytes[i] != bytes[j]
}

/// The hasher of this library's hashids, built once and passed to whatever
/// reads or writes outing ids. `new` is its only constructor, so every codec
/// hashes with the settings that `hashid_encode` and `hashid_decode` are
/// about.
pub struct IdCodec {
    harsh: harsh::Harsh,
}

/// Relies on `harsh::HarshBuilder` (`salt`, `alphabet`, `length`, `build`):
/// a hasher with these settings, or the reason they were refused. The
/// builder refuses an alphabet only when it holds a space or fewer than 16
/// distinct bytes.
#[verifier::external_body]
fn build_harsh(salt: &str, alphabet: &str, min_length: usize) -> (r: Result<
    harsh::Harsh,
    harsh::BuildError,
>)
    ensures
        distinct_letters(alphabet.spec_bytes()) ==> r is Ok,
{
    harsh::Harsh::builder().salt(salt).alphabet(alphabet).length(min_length).build()
}

/// Relies on `harsh::Harsh::encode`: the hashid of `values`, the empty
/// string for no values; otherwise padded to the minimum length, and written
/// only in letters of the alphabet (the separators and guards are taken from
/// it).
#[verifier::external_body]
fn encode_values(codec: &IdCodec, values: &Vec<u64>) -> (r: String)
    ensures
        r@ == hashid_encode(values@),
        values@.len() == 0 ==> r@.len() == 0,
        values@.len() > 0 ==> r@.len() >= HASHID_MIN_LENGTH,
        forall|i: int| 0 <= i < r@.len() ==> HASHID_ALPHABET@.contains(#[trigger] r@[i]),
{
    codec.harsh.encode(values.as_slice())
}

/// Relies on `harsh::Harsh::decode`: the values `s` stands for; it succeeds
/// only when encoding those values gives `s` back.
#[verifier::external_body]
fn decode_values(codec: &IdCodec, s: &str) -> (r: Result<Vec<u64>, harsh::Error>)
    requires
        s.len() <= HASHID_MAX_BYTES,
    ensures
        r matches Ok(v) ==> hashid_decode(s@) == Some(v@) && hashid_encode(v@) == s@,
        r is Err ==> hashid_decode(s@) is None,
{
    codec.harsh.decode(s)
}

impl IdCodec {
    /// The hasher with this library's salt, alphabet and minimum length.
    pub fn new() -> (r: Result<IdCodec, harsh::BuildError>)
        ensures
            r is Ok,
    {
        proof {
            broadcast use vstd::string::is_ascii_spec_bytes;

            reveal_strlit("abcdefghijklmnopqrstuvwxyz1234567890");
            let b = HASHID_ALPHABET.spec_bytes();
            assert(vstd::string::is_ascii(HASHID_ALPHABET));
            assert(b.len() == 36);
            assert forall|i: int, j: int| 0 <= i < j < b.len() implies b[i] != b[j] by {
                assert(b[i] == HASHID_ALPHABET@[i] as u8);
                assert(b[j] == HASHID_ALPHABET@[j] as u8);
            }
        }
        match build_harsh(HASHID_SALT, HASHID_ALPHABET, HASHID_MIN_LENGTH) {
            Ok(harsh) => Ok(IdCodec { harsh }),
            Err(e) => Err(e),
        }
    }
}

impl OutingId {
    /// The outing id that the decoded values `values` stand for: exactly
    /// one value, small enough for a database id.
    pub fn from_decoded(values: &Vec<u64>) -> (r: Result<OutingId, IdParseError>)
        ensures
            r is Ok <==> values@.len() == 1 && values@[0] <= i32::MAX,
            r matches Ok(id) ==> id@ == values@[0],
            r matches Err(e) ==> e matches IdParseError::User(m) && m@
                == "Invalid outing ID provided"@,
    {
        if values.len() != 1 || values[0] > i32::MAX as u64 {
            Err(IdParseError::User("Invalid outing ID provided"))
        } else {
            OutingId::try_from_i32(values[0] as i32)
        }
    }

    /// The outing id written as the hashid `s`. A string longer than any
    /// hashid this library decodes is refused before it is decoded.
    pub fn parse(codec: &IdCodec, s: &str) -> (r: Result<OutingId, IdParseError>)
        ensures
            s.len() > HASHID_MAX_BYTES ==> (r matches Err(IdParseError::User(m)) && m@
                == "Invalid ID string provided"@),
            s.len() <= HASHID_MAX_BYTES ==> (match hashid_decode(s@) {
                None => r matches Err(IdParseError::Harsh(_)),
                Some(v) => if v.len() == 1 && v[0] <= i32::MAX {
                    r matches Ok(id) && id@ == v[0]
                } else {
                    r matches Err(IdParseError::User(m)) && m@ == "Invalid outing ID provided"@
                },
            }),
            r matches Ok(id) ==> hashid_encode(seq![id@ as u64]) == s@,
    {
        if s.len() > HASHID_MAX_BYTES {
            return Err(IdParseError::User("Invalid ID string provided"));
        }
        match decode_values(codec, s) {
            Ok(values) => {
                let r = OutingId::from_decoded(&values);
                proof {
                    if r is Ok {
                        assert(values@ =~= seq![values@[0]]);
                    }
                }
                r
            },
            Err(e) => Err(IdParseError::from(e)),
        }
    }

    /// This outing id written as a hashid.
    pub fn to_hashid(&self, codec: &IdCodec) -> (r: String)
        ensures
            r@ == hashid_encode(seq![self@ as u64]),
            r@.len() >= HASHID_MIN_LENGTH,
            forall|i: int| 0 <= i < r@.len() ==> HASHID_ALPHABET@.contains(#[trigger] r@[i]),
    {
        let id = self.id();
        let values: Vec<u64> = vec![id as u64];
        assert(values@ =~= seq![self@ as u64]);
        encode_values(codec, &values)
    }
}

} // verus!
