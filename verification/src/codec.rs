//! The binary record encoding. A record is a key-value pair of byte strings;
//! its serialized form is the length-delimited encoding that `bincode`
//! produces for the pair, used identically inside table files and log
//! entries. The encoding itself is opaque: the two spec names below stand
//! for what `bincode` produces and recovers, and every contract in the
//! crate speaks through them.

use vstd::prelude::*;

verus! {

/// The byte string `bincode::serialize` produces for a key-value pair.
pub uninterp spec fn record_encoding(key: Seq<u8>, value: Seq<u8>) -> Seq<u8>;

/// What `bincode::deserialize` recovers from a byte string: the key and
/// value views on success, `None` where the bytes decode to no record.
pub uninterp spec fn record_decoding(bytes: Seq<u8>) -> Option<(Seq<u8>, Seq<u8>)>;

/// Relies on `bincode::serialize` for `(Vec<u8>, Vec<u8>)`: the encoding is a
/// deterministic function of the pair alone, serializing an in-memory pair of
/// byte vectors cannot fail, and `bincode::deserialize` recovers the pair
/// exactly (the encoding round-trips).
#[verifier::external_body]
pub(crate) fn encode_record(key: &Vec<u8>, value: &Vec<u8>) -> (bytes: Vec<u8>)
    ensures
        bytes@ == record_encoding(key@, value@),
        record_decoding(bytes@) == Some((key@, value@)),
{
    bincode::serialize(&(key, value)).unwrap()
}

/// Relies on `bincode::deserialize` for `(Vec<u8>, Vec<u8>)`: the outcome,
/// success or failure, is a deterministic function of the input bytes alone.
#[verifier::external_body]
pub(crate) fn decode_record(bytes: &Vec<u8>) -> (r: Option<(Vec<u8>, Vec<u8>)>)
    ensures
        match r {
            Some(p) => record_decoding(bytes@) == Some((p.0@, p.1@)),
            None => record_decoding(bytes@) is None,
        },
{
    bincode::deserialize::<(Vec<u8>, Vec<u8>)>(bytes.as_slice()).ok()
}

/// Encoding a record and decoding the result yields the original key and
/// value again.
pub fn encode_then_decode(key: &Vec<u8>, value: &Vec<u8>) -> (r: (Vec<u8>, Vec<u8>))
    ensures
        r.0@ == key@,
        r.1@ == value@,
{
    let bytes = encode_record(key, value);
    match decode_record(&bytes) {
        Some(p) => p,
        None => {
            proof {
                assert(false);
            }
            (Vec::new(), Vec::new())
        },
    }
}

} // verus!
