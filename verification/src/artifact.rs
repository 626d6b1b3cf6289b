//! The two serialized forms of a vocabulary: a model description in the protocol buffers wire
//! format, decoded by `protobuf`, and a JSON object from tokens to ids, decoded by `serde_json`.
//!
//! What the two decoders return is not proved here. This file gives each result a name and says
//! what the library takes for granted about it.

use crate::error::TokenizerError;
use crate::token_map::{entry_ids, lemma_entry_ids, lemma_entry_ids_last, token_seq};
use std::collections::HashMap;
use vstd::prelude::*;
use vstd::utf8::{decode_utf8, valid_utf8};

verus! {

/// The error of `serde_json`.
#[verifier::external_type_specification]
#[verifier::external_body]
pub struct ExJsonError(serde_json::Error);

/// The error of `protobuf`.
#[verifier::external_type_specification]
#[verifier::external_body]
pub struct ExProtobufError(protobuf::ProtobufError);

/// The error of `String::from_utf8`.
#[verifier::external_type_specification]
#[verifier::external_body]
pub struct ExFromUtf8Error(std::string::FromUtf8Error);

/// The map from tokens to ids that `serde_json` reads from `bytes`, or `None` where it reports
/// an error, as it does for bytes that are not a JSON object from strings to integers.
pub uninterp spec fn json_token_ids(bytes: Seq<u8>) -> Option<Map<Seq<char>, i64>>;

/// `entries` holds the pairs of `ids`, each once, in some order.
pub open spec fn lists_entries(entries: Seq<(String, i64)>, ids: Map<Seq<char>, i64>) -> bool {
    &&& forall|i: int|
        0 <= i < entries.len() ==> ids.contains_key(#[trigger] entries[i].0@) && ids[entries[i].0@]
            == entries[i].1
    &&& forall|t: Seq<char>| #[trigger]
        ids.contains_key(t) ==> exists|i: int| 0 <= i < entries.len() && #[trigger] entries[i].0@ == t
    &&& forall|i: int, j: int|
        0 <= i < j < entries.len() ==> #[trigger] entries[i].0@ != #[trigger] entries[j].0@
}

/// The entries of a list that `lists_entries` of a map describe that map.
pub proof fn lemma_listed_entries(entries: Seq<(String, i64)>, ids: Map<Seq<char>, i64>)
    requires
        lists_entries(entries, ids),
    ensures
        entry_ids(entries) == ids,
{
    lemma_entry_ids(entries);
    assert(entry_ids(entries) =~= ids) by {
        assert forall|t: Seq<char>| ids.contains_key(t) implies entry_ids(entries).contains_key(t)
            && entry_ids(entries)[t] == ids[t] by {
            let i = choose|i: int| 0 <= i < entries.len() && #[trigger] entries[i].0@ == t;
            assert forall|j: int| i < j < entries.len() implies #[trigger] entries[j].0@ != t by {}
            lemma_entry_ids_last(entries, i);
        }
        assert forall|t: Seq<char>| entry_ids(entries).contains_key(t) implies ids.contains_key(
            t,
        ) by {
            let i = choose|i: int| 0 <= i < entries.len() && #[trigger] entries[i].0@ == t;
        }
    }
}

/// Calls `serde_json::from_slice` to read a `HashMap<String, i64>` from `bytes`, and hands out
/// the entries of that map.
///
/// Taken for granted: whether the call succeeds, and which map it returns, depends on the bytes
/// alone; the entries come out each once. Nothing is said of the order in which they come: the
/// map is walked as its hasher laid it out.
#[verifier::external_body]
pub(crate) fn parse_token_ids(bytes: &[u8]) -> (parsed: Result<
    Vec<(String, i64)>,
    serde_json::Error,
>)
    ensures
        match parsed {
            Ok(entries) => json_token_ids(bytes@) matches Some(ids) && lists_entries(entries@, ids),
            Err(_) => json_token_ids(bytes@) is None,
        },
{
    let ids: HashMap<String, i64> = serde_json::from_slice(bytes)?;
    Ok(ids.into_iter().collect())
}

/// The payloads of the length-delimited fields with the given number that `protobuf` finds in
/// the message `bytes`, in the order in which they stand there, or `None` where it reports an
/// error, as it does for bytes that are not a message in the wire format.
pub uninterp spec fn wire_fields(bytes: Seq<u8>, number: u32) -> Option<Seq<Seq<u8>>>;

/// The views of the byte vectors of `fields`, in the same order.
pub open spec fn byte_seqs(fields: Seq<Vec<u8>>) -> Seq<Seq<u8>> {
    Seq::new(fields.len(), |i: int| fields[i]@)
}

/// Calls `protobuf::parse_from_bytes` to decode `bytes` as a message of which no field is known
/// in advance, and hands out what the decoder kept under the field `number` as length-delimited
/// payloads; none where the message has no such field.
///
/// Taken for granted: whether the call succeeds, and what it keeps under a field number,
/// depends on the bytes alone.
#[verifier::external_body]
#[allow(deprecated)]
pub(crate) fn length_delimited_fields(bytes: &[u8], number: u32) -> (parsed: Result<
    Vec<Vec<u8>>,
    protobuf::ProtobufError,
>)
    ensures
        match parsed {
            Ok(fields) => wire_fields(bytes@, number) == Some(byte_seqs(fields@)),
            Err(_) => wire_fields(bytes@, number) is None,
        },
{
    let message = protobuf::parse_from_bytes::<protobuf::well_known_types::Empty>(bytes)?;
    let kept = protobuf::Message::get_unknown_fields(&message).get(number);
    Ok(kept.map(|values| values.length_delimited.clone()).unwrap_or_default())
}

/// Calls `String::from_utf8`: the string whose UTF-8 encoding is `bytes`, or an error where
/// `bytes` is not valid UTF-8.
#[verifier::external_body]
pub(crate) fn string_from_utf8(bytes: Vec<u8>) -> (text: Result<String, std::string::FromUtf8Error>)
    ensures
        match text {
            Ok(s) => valid_utf8(bytes@) && s@ == decode_utf8(bytes@),
            Err(_) => !valid_utf8(bytes@),
        },
{
    String::from_utf8(bytes)
}

/// The token of one piece record of a model description: the text of its field 1, the last one
/// where the field is repeated, and the empty token where the record has none. `None` where
/// the record is not a message or the text is not UTF-8.
pub open spec fn piece_of(record: Seq<u8>) -> Option<Seq<char>> {
    match wire_fields(record, 1) {
        None => None,
        Some(texts) => if texts.len() == 0 {
            Some(Seq::empty())
        } else if valid_utf8(texts.last()) {
            Some(decode_utf8(texts.last()))
        } else {
            None
        },
    }
}

/// The tokens of the piece records of a model description, in the order of the records: the
/// records are the fields 1 of the message. `None` where the bytes are not a message or a
/// record has no token.
pub open spec fn model_pieces(bytes: Seq<u8>) -> Option<Seq<Seq<char>>> {
    match wire_fields(bytes, 1) {
        None => None,
        Some(records) => if forall|i: int|
            0 <= i < records.len() ==> piece_of(#[trigger] records[i]) is Some {
            Some(Seq::new(records.len(), |i: int| piece_of(records[i]).unwrap()))
        } else {
            None
        },
    }
}

/// Reads the token of one piece record.
pub fn read_piece(record: &[u8]) -> (piece: Result<String, TokenizerError>)
    ensures
        match piece {
            Ok(token) => piece_of(record@) == Some(token@),
            Err(TokenizerError::VocabularyParsingError(_)) => piece_of(record@) is None,
            Err(_) => false,
        },
{
    match length_delimited_fields(record, 1) {
        Err(error) => Err(TokenizerError::VocabularyParsingError(error.to_string())),
        Ok(texts) => {
            let mut texts = texts;
            match texts.pop() {
                None => Ok(String::new()),
                Some(text) => match string_from_utf8(text) {
                    Ok(token) => Ok(token),
                    Err(error) => Err(TokenizerError::VocabularyParsingError(error.to_string())),
                },
            }
        },
    }
}

/// Reads the tokens of a model description, in the order of its piece records.
pub fn read_pieces(bytes: &[u8]) -> (pieces: Result<Vec<String>, TokenizerError>)
    ensures
        match pieces {
            Ok(tokens) => model_pieces(bytes@) == Some(token_seq(tokens@)),
            Err(TokenizerError::VocabularyParsingError(_)) => model_pieces(bytes@) is None,
            Err(_) => false,
        },
{
    match length_delimited_fields(bytes, 1) {
        Err(error) => Err(TokenizerError::VocabularyParsingError(error.to_string())),
        Ok(records) => {
            let mut tokens: Vec<String> = Vec::new();
            let mut i: usize = 0;
            while i < records.len()
                invariant
                    i <= records.len(),
                    wire_fields(bytes@, 1) == Some(byte_seqs(records@)),
                    tokens@.len() == i,
                    forall|j: int|
                        0 <= j < i ==> piece_of(#[trigger] byte_seqs(records@)[j]) == Some(
                            tokens@[j]@,
                        ),
                decreases records.len() - i,
            {
                assert(byte_seqs(records@)[i as int] == records@[i as int]@);
                match read_piece(records[i].as_slice()) {
                    Ok(token) => {
                        tokens.push(token);
                    },
                    Err(error) => {
                        return Err(error);
                    },
                }
                i += 1;
            }
            assert(Seq::new(
                byte_seqs(records@).len(),
                |i: int| piece_of(byte_seqs(records@)[i]).unwrap(),
            ) =~= token_seq(tokens@));
            Ok(tokens)
        },
    }
}

} // verus!
