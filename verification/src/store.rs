//! What a node makes of a lookup in its persistent store: the stored bytes
//! read as text, the empty text for an absent key, and the store's own error
//! handed on unchanged.

use vstd::prelude::*;
use vstd::utf8::decode_utf8;
use vstd::utf8::valid_utf8;

verus! {

/// `String::from_utf8` of std: the bytes as a string where they are valid
/// UTF-8, `None` where they are not. The string's characters are the ones
/// that the bytes encode.
#[verifier::external_body]
fn string_from_utf8(bytes: Vec<u8>) -> (r: Option<String>)
    ensures
        r is Some <==> valid_utf8(bytes@),
        r matches Some(s) ==> s@ == decode_utf8(bytes@),
{
    String::from_utf8(bytes).ok()
}

/// The text that a lookup of a key yields: the value that was found, decoded
/// from UTF-8; the empty text where the key was absent; the store's error
/// unchanged where the lookup failed. A found value must be valid UTF-8.
pub fn value_text<E>(lookup: Result<Option<Vec<u8>>, E>) -> (r: Result<String, E>)
    requires
        lookup matches Ok(Some(v)) ==> valid_utf8(v@),
    ensures
        match lookup {
            Ok(Some(v)) => r matches Ok(s) && s@ == decode_utf8(v@),
            Ok(None) => r matches Ok(s) && s@ == Seq::<char>::empty(),
            Err(e) => r == Err::<String, E>(e),
        },
{
    match lookup {
        Ok(Some(v)) => match string_from_utf8(v) {
            Some(s) => Ok(s),
            None => {
                proof { assert(false); }
                Ok(String::new())
            },
        },
        Ok(None) => Ok(String::new()),
        Err(e) => Err(e),
    }
}

} // verus!
