//! Text from bytes.

use vstd::prelude::*;
use vstd::utf8::*;

verus! {

/// `String::from_utf8`: the string that `bytes` encode in UTF-8, and `None`
/// where they encode none.
#[verifier::external_body]
pub(crate) fn string_from_utf8(bytes: Vec<u8>) -> (res: Option<String>)
    ensures
        match res {
            Some(s) => valid_utf8(bytes@) && s@ == decode_utf8(bytes@),
            None => !valid_utf8(bytes@),
        },
{
    String::from_utf8(bytes).ok()
}

} // verus!
