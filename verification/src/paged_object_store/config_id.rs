//! The id that a store is configured with, as it is kept in object 0.

use vstd::prelude::*;

use crate::error::ErrorKind;
use crate::num;
use crate::paged_object_store::ObjID;

verus! {

/// Bytes that a config id takes.
pub const CONFIG_ID_LEN: usize = 16;

/// Whether some byte is not zero.
pub open spec fn any_set(bytes: Seq<u8>) -> bool {
    exists|i: int| 0 <= i < bytes.len() && #[trigger] bytes[i] != 0
}

/// The bytes that a config id is kept as.
pub fn encode_config_id(id: ObjID) -> (bytes: Vec<u8>)
    ensures
        bytes@ == num::le_bytes(id as nat, 16),
        bytes@.len() == CONFIG_ID_LEN,
{
    proof {
        num::lemma_le_len(id as nat, 16);
    }
    num::to_le_bytes(id, CONFIG_ID_LEN)
}

/// The config id that the bytes in `buf` stand for, of which `len` were read. Too few bytes, or
/// nothing but zeros, stand for none.
pub fn decode_config_id(buf: &[u8], len: usize) -> (id: Result<ObjID, ErrorKind>)
    requires
        buf@.len() == CONFIG_ID_LEN,
    ensures
        id is Ok <==> len == CONFIG_ID_LEN && any_set(buf@),
        id matches Ok(i) ==> i == num::le_value(buf@),
        id matches Err(e) ==> e == ErrorKind::InvalidData,
{
    if len != CONFIG_ID_LEN {
        return Err(ErrorKind::InvalidData);
    }
    let mut i: usize = 0;
    while i < buf.len()
        invariant
            i <= buf@.len(),
            buf@.len() == CONFIG_ID_LEN,
            len == CONFIG_ID_LEN,
            forall|j: int| 0 <= j < i ==> #[trigger] buf@[j] == 0,
        decreases buf.len() - i,
    {
        if buf[i] != 0 {
            assert(buf@[i as int] != 0);
            return Ok(num::from_le_bytes(buf));
        }
        i = i + 1;
    }
    Err(ErrorKind::InvalidData)
}

proof fn lemma_zeros_are_zero(bytes: Seq<u8>)
    requires
        !any_set(bytes),
    ensures
        num::le_value(bytes) == 0,
    decreases bytes.len(),
{
    if bytes.len() > 0 {
        assert(bytes[0] == 0);
        assert forall|i: int| 0 <= i < bytes.drop_first().len() implies #[trigger] bytes.drop_first()[i]
            == 0 by {
            assert(bytes[i + 1] == 0);
        }
        lemma_zeros_are_zero(bytes.drop_first());
    }
}

/// A config id reads back as it was set, unless it is zero, which reads as none.
pub proof fn lemma_config_id_round_trip(id: ObjID)
    ensures
        ({
            let bytes = num::le_bytes(id as nat, 16);
            &&& bytes.len() == CONFIG_ID_LEN
            &&& num::le_value(bytes) == id
            &&& id != 0 ==> any_set(bytes)
        }),
{
    num::lemma_u128_fits(id);
    num::lemma_le_round_trip(id as nat, 16);
    if id != 0 && !any_set(num::le_bytes(id as nat, 16)) {
        lemma_zeros_are_zero(num::le_bytes(id as nat, 16));
    }
}

/// Some byte is set exactly where the bytes stand for a number other than zero.
pub proof fn lemma_set_bytes_are_not_zero(bytes: Seq<u8>)
    ensures
        any_set(bytes) <==> num::le_value(bytes) != 0,
    decreases bytes.len(),
{
    if any_set(bytes) {
        let i = choose|i: int| 0 <= i < bytes.len() && #[trigger] bytes[i] != 0;
        if i > 0 {
            assert(bytes.drop_first()[i - 1] == bytes[i]);
            lemma_set_bytes_are_not_zero(bytes.drop_first());
        }
    } else {
        lemma_zeros_are_zero(bytes);
    }
}

/// A config id is kept in 16 bytes, the least significant one first.
pub proof fn lemma_config_id_bytes(id: ObjID, i: int)
    requires
        0 <= i < 16,
    ensures
        CONFIG_ID_LEN == 16,
        num::le_bytes(id as nat, 16)[i] == (id as int / vstd::arithmetic::power::pow(256, i as nat))
            % 256,
{
    num::lemma_le_byte(id as nat, 16, i);
}

} // verus!
