//! The vocabulary of the ALBERT models: the pieces of a SentencePiece model description, each
//! under its place in the description.

use crate::artifact::{model_pieces, read_pieces};
use crate::base_vocab::{
    id_to_token, register_special_values, str_seq, swap_key_values, token_to_id, token_views,
    Vocab,
};
use crate::error::TokenizerError;
use crate::token_map::{first_occurrences, lemma_first_occurrences, token_seq, TokenMap};
use crate::vocab_view::{holds_all, is_first_missing, reserved_entries, VocabView};
use std::collections::HashMap;
use vstd::prelude::*;

verus! {

/// The reserved tokens of the vocabulary, in the order in which they are registered: unknown,
/// begin of sequence, end of sequence, class, mask, padding. The separator is the token that
/// ends a sequence.
pub open spec fn reserved_tokens() -> Seq<Seq<char>> {
    seq!["<unk>"@, "[CLS]"@, "[SEP]"@, "[CLS]"@, "[MASK]"@, "<pad>"@]
}

/// The map that gives each piece its place in `pieces`; the last place, where a piece stands
/// at several.
pub open spec fn piece_ids(pieces: Seq<Seq<char>>) -> Map<Seq<char>, i64>
    decreases pieces.len(),
{
    if pieces.len() == 0 {
        Map::empty()
    } else {
        piece_ids(pieces.drop_last()).insert(pieces.last(), (pieces.len() - 1) as i64)
    }
}

/// The ids of the pieces are places: a piece of the list is in the map, and stands at the place
/// that the map gives for it, and at no later one. So no two pieces share an id.
pub proof fn lemma_piece_ids(pieces: Seq<Seq<char>>)
    requires
        pieces.len() <= i64::MAX,
    ensures
        forall|t: Seq<char>| #[trigger] piece_ids(pieces).contains_key(t) <==> pieces.contains(t),
        forall|t: Seq<char>| #[trigger]
            piece_ids(pieces).contains_key(t) ==> 0 <= piece_ids(pieces)[t] < pieces.len()
                && pieces[piece_ids(pieces)[t] as int] == t,
        forall|place: int|
            0 <= place < pieces.len() ==> place <= piece_ids(pieces)[#[trigger] pieces[place]],
        piece_ids(pieces).is_injective(),
    decreases pieces.len(),
{
    if pieces.len() > 0 {
        let shorter = pieces.drop_last();
        lemma_piece_ids(shorter);
        assert forall|t: Seq<char>| #[trigger]
            piece_ids(pieces).contains_key(t) <==> pieces.contains(t) by {
            if piece_ids(pieces).contains_key(t) {
                if piece_ids(shorter).contains_key(t) {
                    assert(shorter.contains(t));
                    let i = choose|i: int| 0 <= i < shorter.len() && shorter[i] == t;
                    assert(pieces[i] == t);
                } else {
                    assert(pieces[pieces.len() - 1] == t);
                }
            }
            if pieces.contains(t) {
                let i = choose|i: int| 0 <= i < pieces.len() && pieces[i] == t;
                if i < pieces.len() - 1 {
                    assert(shorter[i] == t);
                    assert(shorter.contains(t));
                }
            }
        }
        assert forall|t: Seq<char>| #[trigger] piece_ids(pieces).contains_key(t) implies 0
            <= piece_ids(pieces)[t] < pieces.len() && pieces[piece_ids(pieces)[t] as int] == t by {
            if t != pieces.last() {
                assert(piece_ids(shorter).contains_key(t));
                assert(shorter[piece_ids(shorter)[t] as int] == t);
            }
        }
        assert forall|place: int| 0 <= place < pieces.len() implies place <= piece_ids(
            pieces,
        )[#[trigger] pieces[place]] by {
            if pieces[place] != pieces.last() {
                assert(shorter[place] == pieces[place]);
            }
        }
    }
}

/// The vocabulary of the ALBERT models.
///
/// Its reserved tokens are the unknown token, the class token, which also begins a sequence,
/// the separator, which also ends one, the mask and the padding.
pub struct AlbertVocab {
    values: TokenMap,
    indices: HashMap<i64, String>,
    unknown_value: &'static str,
    special_values: TokenMap,
    special_indices: HashMap<i64, String>,
}

impl View for AlbertVocab {
    type V = VocabView;

    closed spec fn view(&self) -> VocabView {
        VocabView {
            values: self.values@,
            order: self.values.order(),
            indices: token_views(self.indices@),
            special_values: self.special_values@,
            special_order: self.special_values.order(),
            special_indices: token_views(self.special_indices@),
            unknown: self.unknown_value@,
        }
    }
}

impl AlbertVocab {
    /// What holds of every vocabulary of this kind: its maps fit together, and its reserved
    /// part holds the six reserved tokens and nothing else.
    #[verifier::type_invariant]
    pub open spec fn wf(self) -> bool {
        &&& self@.wf()
        &&& self@.unknown == "<unk>"@
        &&& holds_all(self@.values, reserved_tokens())
        &&& self@.special_values == reserved_entries(self@.values, reserved_tokens())
        &&& self@.special_order == first_occurrences(reserved_tokens())
    }

    /// Round trip: in a vocabulary built from `pieces`, the id of a piece is a place at which
    /// the piece stands, no other piece has that id, and the piece comes back from it.
    pub proof fn lemma_pieces_round_trip(self, pieces: Seq<Seq<char>>, token: Seq<char>)
        requires
            self.wf(),
            self@.values == piece_ids(pieces),
            pieces.len() <= i64::MAX,
            pieces.contains(token),
        ensures
            0 <= self@.token_to_id(token) < pieces.len(),
            pieces[self@.token_to_id(token) as int] == token,
            self@.id_to_token(self@.token_to_id(token)) == token,
            self@.values.is_injective(),
            self@.values.len() == self@.indices.len(),
    {
        lemma_piece_ids(pieces);
        self@.lemma_bijection();
        assert(self@.values.contains_key(token));
        self@.lemma_round_trip(token);
    }

    /// Coverage: each of the six reserved tokens is in the vocabulary, and its id leads back to
    /// a reserved token.
    pub proof fn lemma_reserved_roles_resolve(self, role: int)
        requires
            self.wf(),
            0 <= role < 6,
        ensures
            self@.values.contains_key(reserved_tokens()[role]),
            self@.token_to_id(reserved_tokens()[role]) == self@.values[reserved_tokens()[role]],
            self@.indices.contains_key(self@.token_to_id(reserved_tokens()[role])),
            self@.special_values.contains_key(
                self@.id_to_token(self@.token_to_id(reserved_tokens()[role])),
            ),
    {
        assert(reserved_tokens().contains(reserved_tokens()[role]));
        self@.lemma_reserved_resolves(reserved_tokens()[role]);
    }

    /// The token that begins a sequence.
    pub fn bos_value() -> (token: &'static str)
        ensures
            token@ == "[CLS]"@,
    {
        "[CLS]"
    }

    /// The token that ends a sequence.
    pub fn eos_value() -> (token: &'static str)
        ensures
            token@ == "[SEP]"@,
    {
        "[SEP]"
    }

    /// The separator token.
    pub fn sep_value() -> (token: &'static str)
        ensures
            token@ == "[SEP]"@,
    {
        "[SEP]"
    }

    /// The class token.
    pub fn cls_value() -> (token: &'static str)
        ensures
            token@ == "[CLS]"@,
    {
        "[CLS]"
    }

    /// The mask token.
    pub fn mask_value() -> (token: &'static str)
        ensures
            token@ == "[MASK]"@,
    {
        "[MASK]"
    }

    /// The padding token.
    pub fn pad_value() -> (token: &'static str)
        ensures
            token@ == "<pad>"@,
    {
        "<pad>"
    }

    /// Builds the vocabulary from the pieces of a model description: each piece gets its place
    /// in the list as its id, then the reserved tokens are registered.
    ///
    /// Fails with the first reserved token that is not among the pieces.
    pub fn from_pieces(pieces: Vec<String>) -> (outcome: Result<AlbertVocab, TokenizerError>)
        ensures
            match outcome {
                Ok(vocab) => {
                    &&& vocab.wf()
                    &&& vocab@.values == piece_ids(token_seq(pieces@))
                    &&& vocab@.order == first_occurrences(token_seq(pieces@))
                },
                Err(TokenizerError::TokenNotFound(missing)) => is_first_missing(
                    piece_ids(token_seq(pieces@)),
                    reserved_tokens(),
                    missing@,
                ),
                Err(_) => false,
            },
    {
        let ghost all = token_seq(pieces@);
        let mut values = TokenMap::new();
        let mut place: usize = 0;
        assert(all.take(0) =~= Seq::<Seq<char>>::empty());
        assert(pieces@.len() == pieces.len());
        for piece in it: pieces.into_iter()
            invariant
                it.seq() == pieces@,
                pieces@.len() <= usize::MAX,
                all == token_seq(pieces@),
                place == it.index(),
                values@ == piece_ids(all.take(place as int)),
                values.order() == first_occurrences(all.take(place as int)),
        {
            proof {
                let next = all.take(place + 1);
                assert(next.drop_last() =~= all.take(place as int));
                assert(next.last() == piece@);
                use_type_invariant(&values);
                lemma_first_occurrences(all.take(place as int));
                assert(place < pieces@.len());
            }
            values.insert(piece, place as i64);
            place += 1;
        }
        assert(all.take(all.len() as int) =~= all);
        let reserved: [&'static str; 6] = [
            AlbertVocab::unknown_value(),
            AlbertVocab::bos_value(),
            AlbertVocab::eos_value(),
            AlbertVocab::cls_value(),
            AlbertVocab::mask_value(),
            AlbertVocab::pad_value(),
        ];
        assert(str_seq(reserved@) =~= reserved_tokens());
        let special_values = match register_special_values(reserved.as_slice(), &values) {
            Ok(special_values) => special_values,
            Err(error) => {
                return Err(error);
            },
        };
        let indices = swap_key_values(&values);
        let special_indices = swap_key_values(&special_values);
        proof {
            use_type_invariant(&values);
            use_type_invariant(&special_values);
            assert(reserved_tokens()[0] == "<unk>"@);
            assert(reserved_tokens().contains("<unk>"@));
            assert(special_values@.submap_of(values@)) by {
                assert forall|t: Seq<char>| #[trigger]
                    special_values@.dom().contains(t) implies values@.dom().contains(t)
                    && special_values@[t] == values@[t] by {
                    let i = choose|i: int|
                        0 <= i < reserved_tokens().len() && reserved_tokens()[i] == t;
                    assert(values@.contains_key(reserved_tokens()[i]));
                }
            }
        }
        Ok(AlbertVocab { values, indices, unknown_value: "<unk>", special_values, special_indices })
    }
}

impl Vocab for AlbertVocab {
    open spec fn unknown_token() -> Seq<char> {
        "<unk>"@
    }

    fn unknown_value() -> (token: &'static str) {
        "<unk>"
    }

    /// Builds the vocabulary from the bytes of its file, a SentencePiece model description.
    ///
    /// Fails where the bytes are no such description, and with the first reserved token that
    /// is not among its pieces.
    fn from_bytes(bytes: &[u8]) -> (outcome: Result<AlbertVocab, TokenizerError>)
        ensures
            match outcome {
                Ok(vocab) => {
                    &&& vocab.wf()
                    &&& model_pieces(bytes@) matches Some(pieces)
                    &&& vocab@.values == piece_ids(pieces)
                    &&& vocab@.order == first_occurrences(pieces)
                },
                Err(TokenizerError::VocabularyParsingError(_)) => model_pieces(bytes@) is None,
                Err(TokenizerError::TokenNotFound(missing)) => {
                    &&& model_pieces(bytes@) matches Some(pieces)
                    &&& is_first_missing(piece_ids(pieces), reserved_tokens(), missing@)
                },
                Err(_) => false,
            },
    {
        match read_pieces(bytes) {
            Err(error) => Err(error),
            Ok(pieces) => AlbertVocab::from_pieces(pieces),
        }
    }

    fn get_unknown_value(&self) -> (token: &'static str) {
        proof {
            use_type_invariant(self);
        }
        "<unk>"
    }

    fn values(&self) -> (values: &TokenMap) {
        proof {
            use_type_invariant(self);
        }
        &self.values
    }

    fn indices(&self) -> (indices: &HashMap<i64, String>) {
        proof {
            use_type_invariant(self);
        }
        &self.indices
    }

    fn special_values(&self) -> (special_values: &TokenMap) {
        proof {
            use_type_invariant(self);
        }
        &self.special_values
    }

    fn special_indices(&self) -> (special_indices: &HashMap<i64, String>) {
        proof {
            use_type_invariant(self);
        }
        &self.special_indices
    }

    fn token_to_id(&self, token: &str) -> (id: i64) {
        proof {
            use_type_invariant(self);
        }
        token_to_id(token, &self.values, &self.special_values, self.unknown_value)
    }

    fn id_to_token(&self, id: &i64) -> (token: String) {
        proof {
            use_type_invariant(self);
        }
        id_to_token(id, &self.indices, &self.special_indices, self.unknown_value)
    }
}

} // verus!
