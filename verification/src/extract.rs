//! Two transforms of a line that holds a JSON object: the string that
//! stands under a key, and the SHA-256 digest of the values that stand
//! under some keys. Parsing and hashing are done by `serde_json` and `sha2`;
//! what is claimed of them here is believed, not proved.

use sha2::Digest;
use vstd::prelude::*;
use vstd::slice::slice_to_vec;
use vstd::utf8::encode_utf8;

verus! {

/// A JSON value of `serde_json`, of which nothing is seen here.
#[verifier::external_type_specification]
#[verifier::external_body]
pub struct ExJsonValue(serde_json::Value);

/// A JSON object of `serde_json`. What it holds is spoken of through
/// [`object_fields`].
#[verifier::external_type_specification]
#[verifier::external_body]
#[verifier::reject_recursive_types(K)]
#[verifier::reject_recursive_types(V)]
pub struct ExJsonObject<K, V>(serde_json::Map<K, V>);

/// What a JSON object holds: under each of its keys, the string that the
/// value is, if it is a string, and the JSON text of the value.
pub uninterp spec fn object_fields(object: serde_json::Map<String, serde_json::Value>) -> Map<
    Seq<char>,
    (Option<Seq<char>>, Seq<char>),
>;

/// What `serde_json` reads from a line: the fields of the object that the
/// line holds, or `None` if the line is not one JSON object.
pub uninterp spec fn json_object(line: Seq<char>) -> Option<
    Map<Seq<char>, (Option<Seq<char>>, Seq<char>)>,
>;

/// The SHA-256 digest of `data`.
pub uninterp spec fn sha256_of(data: Seq<u8>) -> Seq<u8>;

/// Parses a line with `serde_json::from_str` and keeps the result if it is
/// an object. Claimed: whether an object comes out, and which fields it
/// holds, depends on the line alone.
#[verifier::external_body]
fn parse_object(line: &str) -> (object: Option<serde_json::Map<String, serde_json::Value>>)
    ensures
        match object {
            Some(fields) => json_object(line@) == Some(object_fields(fields)),
            None => json_object(line@) is None,
        },
{
    match serde_json::from_str::<serde_json::Value>(line) {
        Ok(serde_json::Value::Object(fields)) => Some(fields),
        _ => None,
    }
}

/// What a string that may be absent holds.
pub open spec fn shown(text: Option<String>) -> Option<Seq<char>> {
    match text {
        Some(t) => Some(t@),
        None => None,
    }
}

/// Looks a key up with `serde_json::Map::get` and gives what stands under
/// it as plain values: the string that the value is, if it is a JSON string
/// (`serde_json::Value::as_str`), and the JSON text of the value, as
/// `to_string` of `serde_json::Value` writes it. Claimed: something comes
/// out exactly when the object has the key, and it is what the object holds
/// under that key.
#[verifier::external_body]
fn field_at(object: &serde_json::Map<String, serde_json::Value>, key: &str) -> (field: Option<
    (Option<String>, String),
>)
    ensures
        match field {
            Some((text, json)) => object_fields(*object).contains_key(key@) && object_fields(
                *object,
            )[key@] == (shown(text), json@),
            None => !object_fields(*object).contains_key(key@),
        },
{
    match object.get(key) {
        Some(value) => Some((value.as_str().map(str::to_owned), value.to_string())),
        None => None,
    }
}

/// Hashes bytes with `sha2::Sha256::digest`. Claimed: the digest depends on
/// the bytes alone and is 32 bytes long.
#[verifier::external_body]
fn sha256(data: &Vec<u8>) -> (digest: Vec<u8>)
    ensures
        digest@ == sha256_of(data@),
        digest@.len() == 32,
{
    sha2::Sha256::digest(data.as_slice()).to_vec()
}

/// The string that stands under `key` in the object, if there is an object,
/// it has the key, and the value under it is a string.
pub open spec fn string_under(
    object: Option<Map<Seq<char>, (Option<Seq<char>>, Seq<char>)>>,
    key: Seq<char>,
) -> Option<Seq<char>> {
    match object {
        Some(fields) => if fields.contains_key(key) {
            fields[key].0
        } else {
            None
        },
        None => None,
    }
}

/// What a vector of strings holds.
pub open spec fn texts(keys: Seq<String>) -> Seq<Seq<char>> {
    Seq::new(keys.len(), |i: int| keys[i]@)
}

/// The bytes of the JSON texts of the values under the given keys, one
/// after another in the order of the keys; `None` if a key is missing.
pub open spec fn joined_texts(
    fields: Map<Seq<char>, (Option<Seq<char>>, Seq<char>)>,
    keys: Seq<Seq<char>>,
) -> Option<Seq<u8>>
    decreases keys.len(),
{
    if keys.len() == 0 {
        Some(Seq::empty())
    } else if !fields.contains_key(keys[0]) {
        None
    } else {
        match joined_texts(fields, keys.drop_first()) {
            Some(rest) => Some(encode_utf8(fields[keys[0]].1) + rest),
            None => None,
        }
    }
}

/// The digit that stands for a number below 16.
pub open spec fn hex_digit(nibble: u8) -> u8 {
    if nibble < 10 {
        (48 + nibble) as u8
    } else {
        (87 + nibble) as u8
    }
}

/// Bytes in hexadecimal digits with small letters, two for each byte, the
/// higher first.
pub open spec fn hex(bytes: Seq<u8>) -> Seq<u8> {
    Seq::new(
        2 * bytes.len(),
        |i: int|
            hex_digit(
                if i % 2 == 0 {
                    bytes[i / 2] / 16
                } else {
                    bytes[i / 2] % 16
                },
            ),
    )
}

/// The line that is put out for a digest: `0x` and the digest in hexadecimal digits.
pub open spec fn digest_line(digest: Seq<u8>) -> Seq<u8> {
    seq![48u8, 120u8] + hex(digest)
}

/// The line of the digest of the values under the given keys, if the line
/// holds an object that has them all.
pub open spec fn digest_of_line(
    object: Option<Map<Seq<char>, (Option<Seq<char>>, Seq<char>)>>,
    keys: Seq<Seq<char>>,
) -> Option<Seq<u8>> {
    match object {
        Some(fields) => match joined_texts(fields, keys) {
            Some(data) => Some(digest_line(sha256_of(data))),
            None => None,
        },
        None => None,
    }
}

/// The string that stands under `key` in the JSON object that the line
/// holds. `None` if the line is not one JSON object, if the object lacks the
/// key, or if the value under the key is no string.
pub fn extract_key(line: &str, key: &str) -> (text: Option<String>)
    ensures
        match text {
            Some(t) => string_under(json_object(line@), key@) == Some(t@),
            None => string_under(json_object(line@), key@) is None,
        },
{
    match parse_object(line) {
        Some(object) => match field_at(&object, key) {
            Some((text, _)) => text,
            None => None,
        },
        None => None,
    }
}

/// The bytes that are hashed for an object: the JSON texts of the values
/// under the given keys, one after another. `None` if a key is missing.
pub fn digest_input(object: &serde_json::Map<String, serde_json::Value>, keys: &Vec<String>) -> (data:
    Option<Vec<u8>>)
    ensures
        match data {
            Some(bytes) => joined_texts(object_fields(*object), texts(keys@)) == Some(bytes@),
            None => joined_texts(object_fields(*object), texts(keys@)) is None,
        },
{
    let ghost fields = object_fields(*object);
    let ghost names = texts(keys@);
    let mut data: Vec<u8> = Vec::new();
    let mut i: usize = 0;
    proof {
        assert(names.skip(0) =~= names);
    }
    while i < keys.len()
        invariant
            i <= keys.len(),
            fields == object_fields(*object),
            names == texts(keys@),
            joined_texts(fields, names) == match joined_texts(fields, names.skip(i as int)) {
                Some(rest) => Some(data@ + rest),
                None => None,
            },
        decreases keys.len() - i,
    {
        proof {
            assert(names.skip(i as int).drop_first() =~= names.skip(i + 1));
            assert(names.skip(i as int)[0] == keys[i as int]@);
        }
        match field_at(object, keys[i].as_str()) {
            Some((_, json)) => {
                let mut bytes = slice_to_vec(json.as_str().as_bytes());
                proof {
                    let rest = joined_texts(fields, names.skip(i + 1));
                    if rest is Some {
                        assert(data@ + (bytes@ + rest->0) =~= (data@ + bytes@) + rest->0);
                    }
                }
                data.append(&mut bytes);
            },
            None => {
                return None;
            },
        }
        i = i + 1;
    }
    proof {
        assert(data@ + Seq::<u8>::empty() =~= data@);
    }
    Some(data)
}

/// The hexadecimal digit, with small letters, of a number below 16.
fn digit(nibble: u8) -> (d: u8)
    requires
        nibble < 16,
    ensures
        d == hex_digit(nibble),
{
    if nibble < 10 {
        48 + nibble
    } else {
        87 + nibble
    }
}

/// The line that is put out for a digest.
pub fn hex_line(digest: &Vec<u8>) -> (line: Vec<u8>)
    ensures
        line@ == digest_line(digest@),
{
    let mut line: Vec<u8> = Vec::new();
    line.push(48u8);
    line.push(120u8);
    let mut i: usize = 0;
    while i < digest.len()
        invariant
            i <= digest.len(),
            line@ == seq![48u8, 120u8] + hex(digest@.take(i as int)),
        decreases digest.len() - i,
    {
        let byte = digest[i];
        proof {
            let before = digest@.take(i as int);
            let after = digest@.take(i + 1);
            assert(hex(after) =~= hex(before).push(hex_digit(byte / 16)).push(
                hex_digit(byte % 16),
            )) by {
                assert forall|k: int| 0 <= k < 2 * before.len() implies hex(after)[k] == hex(
                    before,
                )[k] by {
                    assert(after[k / 2] == before[k / 2]);
                }
            }
        }
        line.push(digit(byte / 16));
        line.push(digit(byte % 16));
        i = i + 1;
    }
    proof {
        assert(digest@.take(i as int) =~= digest@);
    }
    line
}

/// The line that is put out for a line of input: `0x` and, in hexadecimal
/// digits, the SHA-256 digest of the JSON texts of the values under the
/// given keys. `None` if the line is not one JSON object or lacks a key.
pub fn extract_sha256(line: &str, keys: &Vec<String>) -> (out: Option<Vec<u8>>)
    ensures
        match out {
            Some(bytes) => digest_of_line(json_object(line@), texts(keys@)) == Some(bytes@),
            None => digest_of_line(json_object(line@), texts(keys@)) is None,
        },
{
    match parse_object(line) {
        Some(object) => match digest_input(&object, keys) {
            Some(data) => {
                let digest = sha256(&data);
                Some(hex_line(&digest))
            },
            None => None,
        },
        None => None,
    }
}

} // verus!
