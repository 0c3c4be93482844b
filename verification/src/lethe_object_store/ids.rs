//! Object ids as file names.

use vstd::prelude::*;

use crate::error::ErrorKind;
use crate::text;

verus! {

/// Characters in the name of an object's file.
pub const NAME_LEN: usize = 32;

/// The name of an object's file: its id in hexadecimal, in 32 digits.
pub open spec fn encoded(obj_id: u128) -> Seq<char> {
    text::padded(text::hex(obj_id as nat), '0', 32)
}

/// The name of an object's file is 32 hexadecimal digits that stand for its id.
pub proof fn lemma_encoded(obj_id: u128)
    ensures
        encoded(obj_id).len() == 32,
        text::all_hex(encoded(obj_id)),
        text::hex_value(encoded(obj_id)) == obj_id,
        vstd::utf8::is_ascii_chars(encoded(obj_id)),
{
    text::lemma_hex_value(obj_id as nat);
    text::lemma_hex_fits(obj_id);
    text::lemma_padded_value(text::hex(obj_id as nat), 32);
    assert forall|i: int| 0 <= i < encoded(obj_id).len() implies (encoded(obj_id)[i] as int) < 128 by {
        assert(text::digit_value(encoded(obj_id)[i]) is Some);
    }
}

/// Different objects have different file names.
pub proof fn lemma_encoded_is_injective(a: u128, b: u128)
    requires
        encoded(a) == encoded(b),
    ensures
        a == b,
{
    lemma_encoded(a);
    lemma_encoded(b);
}

/// The name of an object's file.
pub fn encode_obj_id(obj_id: u128) -> (name: String)
    ensures
        name@ == encoded(obj_id),
        name@.len() == NAME_LEN,
{
    proof {
        lemma_encoded(obj_id);
    }
    let mut name = String::new();
    text::append_hex_zero_padded(&mut name, obj_id, NAME_LEN);
    assert(name@ =~= encoded(obj_id));
    name
}

/// The name of the directory that an object's file is in: the first digit of the file's name.
pub fn encode_obj_dir(obj_id: u128) -> (name: String)
    ensures
        name@ == encoded(obj_id).take(1),
{
    proof {
        lemma_encoded(obj_id);
    }
    let file = encode_obj_id(obj_id);
    let name = file.as_str().substring_ascii(0, 1).to_owned();
    assert(name@ =~= encoded(obj_id).take(1));
    name
}

/// The value of a hexadecimal digit, in either case.
fn byte_digit(byte: u8) -> (value: Option<u8>)
    ensures
        value is Some <==> text::digit_value(byte as char) is Some,
        value matches Some(v) ==> v < 16 && text::digit_value(byte as char) == Some(v as int),
{
    if 48 <= byte && byte <= 57 {
        Some(byte - 48)
    } else if 97 <= byte && byte <= 102 {
        Some(byte - 87)
    } else if 65 <= byte && byte <= 70 {
        Some(byte - 55)
    } else {
        None
    }
}

/// Bytes as the characters with the same numbers.
pub open spec fn latin(bytes: Seq<u8>) -> Seq<char> {
    Seq::new(bytes.len(), |i: int| bytes[i] as char)
}

/// The digits of a file name: what follows a leading `+`, if there is one.
pub open spec fn digits_of(name: Seq<u8>) -> Seq<char> {
    if name.len() > 0 && name[0] == 43 {
        latin(name).drop_first()
    } else {
        latin(name)
    }
}

/// The object that a file name stands for: one of 32 characters, all hexadecimal digits, but that
/// a `+` may come first. Other names, such as `.` and `..`, stand for none.
pub open spec fn decoded(name: Seq<u8>) -> Option<int> {
    if name.len() == 32 && text::all_hex(digits_of(name)) {
        Some(text::hex_value(digits_of(name)))
    } else {
        None
    }
}

/// The object that a file name stands for, if it stands for one.
pub fn decode_obj_id(name: &[u8]) -> (obj_id: Option<u128>)
    ensures
        obj_id is Some <==> decoded(name@) is Some,
        obj_id matches Some(id) ==> decoded(name@) == Some(id as int),
{
    if name.len() != NAME_LEN {
        return None;
    }
    let first: usize = if name[0] == 43 {
        1
    } else {
        0
    };
    let ghost digits = digits_of(name@);
    assert(digits =~= latin(name@).skip(first as int));
    let mut id: u128 = 0;
    let mut i: usize = first;
    proof {
        assert(digits.take(0) =~= Seq::empty());
    }
    while i < name.len()
        invariant
            first <= i <= name.len(),
            first <= 1,
            name@.len() == 32,
            digits == digits_of(name@),
            digits == latin(name@).skip(first as int),
            text::all_hex(digits.take(i - first)),
            id == text::hex_value(digits.take(i - first)),
            id < text::pow16((i - first) as nat),
        decreases name.len() - i,
    {
        let ghost done = digits.take(i - first);
        proof {
            assert(digits.take(i + 1 - first).drop_last() =~= done);
            assert(digits.take(i + 1 - first).last() == name@[i as int] as char);
            assert(digits[i - first] == name@[i as int] as char);
            text::lemma_pow16_bound((i - first) as nat);
        }
        match byte_digit(name[i]) {
            Some(d) => {
                proof {
                    assert forall|j: int| 0 <= j < i + 1 - first implies text::digit_value(
                        #[trigger] digits.take(i + 1 - first)[j],
                    ) is Some by {
                        if j < i - first {
                            assert(done[j] == digits.take(i + 1 - first)[j]);
                        }
                    }
                }
                id = id * 16 + d as u128;
            },
            None => {
                assert(text::digit_value(digits[i - first]) is None);
                return None;
            },
        }
        i = i + 1;
    }
    assert(digits.take(i - first) =~= digits);
    Some(id)
}

/// A file name that was made for an object stands for that object.
pub proof fn lemma_ids_round_trip(obj_id: u128, name: Seq<u8>)
    requires
        latin(name) == encoded(obj_id),
    ensures
        decoded(name) == Some(obj_id as int),
{
    lemma_encoded(obj_id);
    assert(name.len() == latin(name).len());
    assert(text::digit_value(encoded(obj_id)[0]) is Some);
    assert(latin(name)[0] == name[0] as char);
    assert(name[0] != 43);
}

/// The objects that the first `n` file names stand for.
pub open spec fn decoded_all(names: Seq<Vec<u8>>, n: int) -> Seq<int>
    decreases n,
{
    if n <= 0 {
        Seq::empty()
    } else {
        match decoded(names[n - 1]@) {
            Some(id) => decoded_all(names, n - 1).push(id),
            None => decoded_all(names, n - 1),
        }
    }
}

/// The objects that file names stand for, in order; names that stand for none are passed over.
pub fn decode_obj_ids(names: &[Vec<u8>]) -> (ids: Vec<u128>)
    ensures
        ids@.len() == decoded_all(names@, names@.len() as int).len(),
        forall|i: int|
            0 <= i < ids@.len() ==> #[trigger] ids@[i] == decoded_all(
                names@,
                names@.len() as int,
            )[i],
{
    let mut ids: Vec<u128> = Vec::new();
    let mut i: usize = 0;
    while i < names.len()
        invariant
            i <= names.len(),
            ids@.len() == decoded_all(names@, i as int).len(),
            forall|j: int|
                0 <= j < ids@.len() ==> #[trigger] ids@[j] == decoded_all(names@, i as int)[j],
        decreases names.len() - i,
    {
        if let Some(id) = decode_obj_id(names[i].as_slice()) {
            ids.push(id);
        }
        i = i + 1;
    }
    ids
}

/// Whether an object's file has to be created, when opening it ended like this. An error other than
/// that it is not there is an error.
pub fn create_needed(opened: Result<(), ErrorKind>) -> (create: Result<bool, ErrorKind>)
    ensures
        create == (match opened {
            Ok(_) => Ok::<bool, ErrorKind>(false),
            Err(e) => if e == ErrorKind::NotFound {
                Ok(true)
            } else {
                Err(e)
            },
        }),
{
    match opened {
        Ok(_) => Ok(false),
        Err(e) => {
            if e == ErrorKind::NotFound {
                Ok(true)
            } else {
                Err(e)
            }
        },
    }
}

/// The name of an object's file has digits of lower case only.
pub proof fn lemma_encoded_is_lower_case(obj_id: u128, i: int)
    requires
        0 <= i < 32,
    ensures
        encoded(obj_id).len() == 32,
        48 <= encoded(obj_id)[i] as int <= 57 || 97 <= encoded(obj_id)[i] as int <= 102,
{
    lemma_encoded(obj_id);
    text::lemma_hex_is_plain(obj_id as nat);
    let hex = text::hex(obj_id as nat);
    text::lemma_padded(hex, '0', 32);
    text::lemma_hex_fits(obj_id);
    if i >= 32 - hex.len() {
        assert(encoded(obj_id)[i] == hex[i - (32 - hex.len())]);
    }
}

/// Whether a byte is a hexadecimal digit, in either case.
pub open spec fn hex_byte(byte: u8) -> bool {
    48 <= byte <= 57 || 97 <= byte <= 102 || 65 <= byte <= 70
}

/// A name stands for an object exactly where it has 32 bytes, each of them a hexadecimal digit in
/// either case, but that the first may be a plus; and the object is the one that the digits read as.
pub proof fn lemma_names_that_stand_for_objects(name: Seq<u8>)
    ensures
        decoded(name) is Some <==> name.len() == 32 && (hex_byte(name[0]) || name[0] == 43) && (
        forall|i: int| 1 <= i < 32 ==> hex_byte(#[trigger] name[i])),
        decoded(name) is Some && name[0] != 43 ==> decoded(name) == Some(
            text::hex_value(Seq::new(32, |i: int| name[i] as char)),
        ),
        decoded(name) is Some && name[0] == 43 ==> decoded(name) == Some(
            text::hex_value(Seq::new(31, |i: int| name[i + 1] as char)),
        ),
{
    if name.len() == 32 {
        let digits = digits_of(name);
        if name[0] == 43 {
            assert(digits =~= Seq::new(31, |i: int| name[i + 1] as char));
            if text::all_hex(digits) {
                assert forall|i: int| 1 <= i < 32 implies hex_byte(#[trigger] name[i]) by {
                    assert(text::digit_value(digits[i - 1]) is Some);
                }
            }
        } else {
            assert(digits =~= Seq::new(32, |i: int| name[i] as char));
            if text::all_hex(digits) {
                assert(text::digit_value(digits[0]) is Some);
                assert forall|i: int| 1 <= i < 32 implies hex_byte(#[trigger] name[i]) by {
                    assert(text::digit_value(digits[i]) is Some);
                }
            }
        }
        if (hex_byte(name[0]) || name[0] == 43) && (forall|i: int|
            1 <= i < 32 ==> hex_byte(#[trigger] name[i])) {
            let shift: int = if name[0] == 43 {
                1
            } else {
                0
            };
            assert forall|i: int| 0 <= i < digits.len() implies text::digit_value(
                #[trigger] digits[i],
            ) is Some by {
                assert(digits[i] == name[i + shift] as char);
                assert(hex_byte(name[i + shift]));
            }
        }
    }
}

/// The objects of a list of names are those of the names that stand for one, in the order of the
/// names.
pub proof fn lemma_objects_of_names(names: Seq<Vec<u8>>)
    ensures
        decoded_all(names, names.len() as int) == names.filter_map(
            |name: Vec<u8>| decoded(name@),
        ),
{
    lemma_objects_of_first_names(names, names.len() as int);
    assert(names.take(names.len() as int) =~= names);
}

proof fn lemma_objects_of_first_names(names: Seq<Vec<u8>>, n: int)
    requires
        0 <= n <= names.len(),
    ensures
        decoded_all(names, n) == names.take(n).filter_map(|name: Vec<u8>| decoded(name@)),
    decreases n,
{
    if n > 0 {
        lemma_objects_of_first_names(names, n - 1);
        assert(names.take(n).drop_last() =~= names.take(n - 1));
        assert(names.take(n).last() == names[n - 1]);
        assert(decoded_all(names, n) =~= names.take(n).filter_map(
            |name: Vec<u8>| decoded(name@),
        ));
    } else {
        assert(names.take(n) =~= Seq::empty());
        assert(names.take(n).filter_map(|name: Vec<u8>| decoded(name@)) =~= Seq::empty());
    }
}

} // verus!
