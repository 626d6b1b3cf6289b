//! What every vocabulary shares: the inverse of a token map, the registration of reserved
//! tokens, and the two lookups with their fallback to the unknown token.

use crate::error::TokenizerError;
use crate::token_map::{first_occurrences, lists_keys, order_after_insert, token_seq, TokenMap};
use crate::vocab_view::{
    holds_all, inverse_in_order, is_first_missing, lookup_id, lookup_token, reserved_entries,
    VocabView,
};
use std::collections::HashMap;
use vstd::prelude::*;
use vstd::string::*;

verus! {

broadcast use vstd::std_specs::hash::group_hash_axioms;

/// A map from ids to strings, seen as a map from ids to tokens.
pub open spec fn token_views(indices: Map<i64, String>) -> Map<i64, Seq<char>> {
    Map::new(|id: i64| indices.contains_key(id), |id: i64| indices[id]@)
}

/// Builds the map from ids to tokens that inverts `forward`.
///
/// The tokens are walked in the order of `forward`. Where two tokens share an id, the one that
/// comes later in that order is the one found under the id; the other is not reachable from it.
pub fn swap_key_values(forward: &TokenMap) -> (backward: HashMap<i64, String>)
    ensures
        token_views(backward@) == inverse_in_order(forward.order(), forward@),
{
    let tokens = forward.tokens();
    let mut backward: HashMap<i64, String> = HashMap::new();
    assert(token_views(backward@) =~= inverse_in_order(forward.order().take(0), forward@));
    let mut i: usize = 0;
    while i < tokens.len()
        invariant
            i <= tokens.len(),
            token_seq(tokens@) == forward.order(),
            lists_keys(forward.order(), forward@),
            token_views(backward@) == inverse_in_order(forward.order().take(i as int), forward@),
        decreases tokens.len() - i,
    {
        let token = &tokens[i];
        assert(forward.order()[i as int] == token@);
        assert(forward.order().contains(token@));
        let id = forward.get(token.as_str()).unwrap();
        let ghost before = backward@;
        backward.insert(id, token.clone());
        proof {
            let next = forward.order().take(i + 1);
            assert(next.drop_last() =~= forward.order().take(i as int));
            assert(next.last() == token@);
            assert(token_views(backward@) =~= token_views(before).insert(id, token@));
        }
        i += 1;
    }
    assert(forward.order().take(tokens.len() as int) =~= forward.order());
    backward
}

/// Marks `token` as reserved: copies its entry from `values` into `special_values`.
///
/// Fails, and leaves `special_values` as it was, where `values` does not hold the token.
pub fn register_as_special_value(
    token: &str,
    values: &TokenMap,
    special_values: &mut TokenMap,
) -> (outcome: Result<(), TokenizerError>)
    ensures
        match outcome {
            Ok(()) => {
                &&& values@.contains_key(token@)
                &&& final(special_values)@ == old(special_values)@.insert(token@, values@[token@])
                &&& final(special_values).order() == order_after_insert(
                    old(special_values).order(),
                    old(special_values)@,
                    token@,
                )
            },
            Err(TokenizerError::TokenNotFound(missing)) => {
                &&& !values@.contains_key(token@)
                &&& missing@ == token@
                &&& *final(special_values) == *old(special_values)
            },
            Err(_) => false,
        },
{
    match values.get(token) {
        Some(id) => {
            special_values.insert(String::from_str(token), id);
            Ok(())
        },
        None => Err(TokenizerError::TokenNotFound(String::from_str(token))),
    }
}

/// Marks `token` as reserved in a vocabulary whose file need not hold the token: where `values`
/// lacks it, the token is first added under the next free id, the size of the map. Cannot fail.
pub fn synthesize_special_value(token: &str, values: &mut TokenMap, special_values: &mut TokenMap)
    ensures
        final(values)@ == if old(values)@.contains_key(token@) {
            old(values)@
        } else {
            old(values)@.insert(token@, old(values)@.len() as i64)
        },
        final(values).order() == order_after_insert(old(values).order(), old(values)@, token@),
        final(special_values)@ == old(special_values)@.insert(token@, final(values)@[token@]),
        final(special_values).order() == order_after_insert(
            old(special_values).order(),
            old(special_values)@,
            token@,
        ),
{
    if !values.contains_key(token) {
        let next_id = values.len() as i64;
        values.insert(String::from_str(token), next_id);
    }
    let outcome = register_as_special_value(token, values, special_values);
    assert(outcome is Ok);
}

/// The views of the string slices of `tokens`, in the same order.
pub open spec fn str_seq(tokens: Seq<&'static str>) -> Seq<Seq<char>> {
    Seq::new(tokens.len(), |i: int| tokens[i]@)
}

/// Marks each of `tokens` as reserved, in their order, and returns the reserved part of the
/// vocabulary.
///
/// Fails with the first token that `values` does not hold.
pub fn register_special_values(tokens: &[&'static str], values: &TokenMap) -> (outcome: Result<
    TokenMap,
    TokenizerError,
>)
    ensures
        match outcome {
            Ok(special_values) => {
                &&& holds_all(values@, str_seq(tokens@))
                &&& special_values@ == reserved_entries(values@, str_seq(tokens@))
                &&& special_values.order() == first_occurrences(str_seq(tokens@))
            },
            Err(TokenizerError::TokenNotFound(missing)) => is_first_missing(
                values@,
                str_seq(tokens@),
                missing@,
            ),
            Err(_) => false,
        },
{
    let ghost all = str_seq(tokens@);
    let mut special_values = TokenMap::new();
    let mut i: usize = 0;
    assert(all.take(0) =~= Seq::<Seq<char>>::empty());
    assert(special_values@ =~= reserved_entries(values@, all.take(0)));
    while i < tokens.len()
        invariant
            i <= tokens.len(),
            all == str_seq(tokens@),
            holds_all(values@, all.take(i as int)),
            special_values@ == reserved_entries(values@, all.take(i as int)),
            special_values.order() == first_occurrences(all.take(i as int)),
        decreases tokens.len() - i,
    {
        let token = tokens[i];
        assert(all[i as int] == token@);
        match register_as_special_value(token, values, &mut special_values) {
            Ok(()) => {},
            Err(error) => {
                return Err(error);
            },
        }
        proof {
            let next = all.take(i + 1);
            assert(next.drop_last() =~= all.take(i as int));
            assert(next.last() == token@);
            crate::token_map::lemma_first_occurrences(all.take(i as int));
            assert forall|t: Seq<char>| next.contains(t) <==> (all.take(i as int).contains(t) || t
                == token@) by {
                if next.contains(t) {
                    let j = choose|j: int| 0 <= j < next.len() && next[j] == t;
                    if j < i {
                        assert(all.take(i as int)[j] == t);
                    }
                }
                if all.take(i as int).contains(t) {
                    let j = choose|j: int| 0 <= j < i && all.take(i as int)[j] == t;
                    assert(next[j] == t);
                }
                if t == token@ {
                    assert(next[i as int] == t);
                }
            }
            assert(special_values@ =~= reserved_entries(values@, next));
            assert forall|j: int| 0 <= j < next.len() implies values@.contains_key(
                #[trigger] next[j],
            ) by {
                if j < i {
                    assert(all.take(i as int)[j] == next[j]);
                }
            }
        }
        i += 1;
    }
    assert(all.take(tokens.len() as int) =~= all);
    Ok(special_values)
}

/// The id of `token`, with the id of the unknown token for a token that is not in `values`.
pub fn token_to_id(
    token: &str,
    values: &TokenMap,
    special_values: &TokenMap,
    unknown_value: &str,
) -> (id: i64)
    requires
        values@.contains_key(unknown_value@),
    ensures
        id == lookup_id(values@, special_values@, unknown_value@, token@),
{
    match special_values.get(token) {
        Some(id) => id,
        None => match values.get(token) {
            Some(id) => id,
            None => values.get(unknown_value).unwrap(),
        },
    }
}

/// The token of `id`, with the unknown token for an id that is not in `indices`.
pub fn id_to_token(
    id: &i64,
    indices: &HashMap<i64, String>,
    special_indices: &HashMap<i64, String>,
    unknown_value: &str,
) -> (token: String)
    ensures
        token@ == lookup_token(
            token_views(indices@),
            token_views(special_indices@),
            unknown_value@,
            *id,
        ),
{
    match special_indices.get(id) {
        Some(token) => token.clone(),
        None => match indices.get(id) {
            Some(token) => token.clone(),
            None => String::from_str(unknown_value),
        },
    }
}

/// What every vocabulary offers: its four maps, its unknown token, and the two lookups, which
/// never fail.
pub trait Vocab: View<V = VocabView> + Sized {
    /// The unknown token of this kind of vocabulary.
    spec fn unknown_token() -> Seq<char>;

    /// Returns the token that stands for every token the vocabulary does not hold.
    fn unknown_value() -> (token: &'static str)
        ensures
            token@ == Self::unknown_token(),
    ;

    /// Returns the token that stands for every token the vocabulary does not hold.
    fn get_unknown_value(&self) -> (token: &'static str)
        ensures
            token@ == self@.unknown,
            self@.unknown == Self::unknown_token(),
            self@.wf(),
    ;

    /// Builds the vocabulary from the bytes of its file.
    ///
    /// Fails where the bytes are not in the format of this kind of vocabulary, or lack one of
    /// its reserved tokens.
    fn from_bytes(bytes: &[u8]) -> (outcome: Result<Self, TokenizerError>)
        ensures
            match outcome {
                Ok(vocab) => vocab@.wf() && vocab@.unknown == Self::unknown_token(),
                Err(error) => error is VocabularyParsingError || error is TokenNotFound,
            },
    ;

    /// The map from tokens to ids.
    fn values(&self) -> (values: &TokenMap)
        ensures
            values@ == self@.values,
            values.order() == self@.order,
            self@.wf(),
    ;

    /// The map from ids to tokens.
    fn indices(&self) -> (indices: &HashMap<i64, String>)
        ensures
            token_views(indices@) == self@.indices,
            self@.wf(),
    ;

    /// The map from reserved tokens to ids.
    fn special_values(&self) -> (special_values: &TokenMap)
        ensures
            special_values@ == self@.special_values,
            special_values.order() == self@.special_order,
            self@.wf(),
    ;

    /// The map from reserved ids to tokens.
    fn special_indices(&self) -> (special_indices: &HashMap<i64, String>)
        ensures
            token_views(special_indices@) == self@.special_indices,
            self@.wf(),
    ;

    /// The id of `token`; the id of the unknown token where the vocabulary does not hold
    /// `token`.
    fn token_to_id(&self, token: &str) -> (id: i64)
        ensures
            id == self@.token_to_id(token@),
            self@.wf(),
    ;

    /// The token of `id`; the unknown token where the vocabulary does not hold `id`.
    fn id_to_token(&self, id: &i64) -> (token: String)
        ensures
            token@ == self@.id_to_token(*id),
            self@.wf(),
    ;
}

} // verus!
