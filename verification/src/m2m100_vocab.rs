//! The vocabulary of the multilingual M2M100 models: a map from tokens to ids in JSON, to
//! which one marker for each of a hundred languages is added.

use crate::artifact::{
    byte_seqs, json_token_ids, lemma_listed_entries, lists_entries, parse_token_ids,
};
use crate::base_vocab::{
    id_to_token, register_special_values, str_seq, swap_key_values, token_to_id, token_views,
    Vocab,
};
use crate::error::TokenizerError;
use crate::token_map::{
    entry_ids, entry_tokens, first_occurrences, lemma_first_occurrences,
    lemma_first_occurrences_of_distinct, TokenMap,
};
use crate::vocab_view::{holds_all, is_first_missing, reserved_entries, VocabView};
use std::collections::HashMap;
use vstd::prelude::*;
use vstd::string::*;
use vstd::utf8::encode_utf8;

verus! {

/// The languages of the model, in the order in which their markers enter the vocabulary.
pub const FAIRSEQ_LANGUAGE_CODES: [&'static str; 100] = [
    "af", "am", "ar", "ast", "az", "ba", "be", "bg", "bn", "br", "bs", "ca", "ceb", "cs", "cy",
    "da", "de", "el", "en", "es", "et", "fa", "ff", "fi", "fr", "fy", "ga", "gd", "gl", "gu", "ha",
    "he", "hi", "hr", "ht", "hu", "hy", "id", "ig", "ilo", "is", "it", "ja", "jv", "ka", "kk",
    "km", "kn", "ko", "lb", "lg", "ln", "lo", "lt", "lv", "mg", "mk", "ml", "mn", "mr", "ms", "my",
    "ne", "nl", "no", "ns", "oc", "or", "pa", "pl", "ps", "pt", "ro", "ru", "sd", "si", "sk", "sl",
    "so", "sq", "sr", "ss", "su", "sv", "sw", "ta", "th", "tl", "tn", "tr", "uk", "ur", "uz", "vi",
    "wo", "xh", "yi", "yo", "zh", "zu",
];

/// The language codes as sequences of characters.
pub open spec fn language_codes() -> Seq<Seq<char>> {
    Seq::new(100, |i: int| FAIRSEQ_LANGUAGE_CODES@[i]@)
}

/// Whether a marker can be made of `code`: it is two or three characters long.
pub open spec fn is_language_code(code: Seq<char>) -> bool {
    code.len() == 2 || code.len() == 3
}

/// The token that marks the language `code`: `>>xx.<<` for a code of two characters, `>>xxx<<`
/// for one of three.
pub open spec fn language_marker_of(code: Seq<char>) -> Seq<char> {
    if code.len() == 2 {
        ">>"@ + code + ".<<"@
    } else {
        ">>"@ + code + "<<"@
    }
}

/// A number that orders language codes as a dictionary does.
pub open spec fn code_rank(code: Seq<char>) -> int {
    (code[0] as int) * 65536 + (code[1] as int) * 256 + if code.len() == 3 {
        code[2] as int
    } else {
        0
    }
}

/// The language codes of the model are two or three small letters each, and stand in the order
/// of a dictionary.
pub proof fn lemma_language_codes()
    ensures
        forall|i: int| 0 <= i < 100 ==> is_language_code(#[trigger] language_codes()[i]),
        forall|i: int, k: int|
            0 <= i < 100 && 0 <= k < language_codes()[i].len() ==> 'a' <= (
            #[trigger] language_codes()[i][k]) <= 'z',
        forall|i: int, j: int|
            0 <= i < j < 100 ==> code_rank(#[trigger] language_codes()[i]) < code_rank(
                #[trigger] language_codes()[j],
            ),
{
    reveal_strlit("af");
    reveal_strlit("am");
    reveal_strlit("ar");
    reveal_strlit("ast");
    reveal_strlit("az");
    reveal_strlit("ba");
    reveal_strlit("be");
    reveal_strlit("bg");
    reveal_strlit("bn");
    reveal_strlit("br");
    reveal_strlit("bs");
    reveal_strlit("ca");
    reveal_strlit("ceb");
    reveal_strlit("cs");
    reveal_strlit("cy");
    reveal_strlit("da");
    reveal_strlit("de");
    reveal_strlit("el");
    reveal_strlit("en");
    reveal_strlit("es");
    reveal_strlit("et");
    reveal_strlit("fa");
    reveal_strlit("ff");
    reveal_strlit("fi");
    reveal_strlit("fr");
    reveal_strlit("fy");
    reveal_strlit("ga");
    reveal_strlit("gd");
    reveal_strlit("gl");
    reveal_strlit("gu");
    reveal_strlit("ha");
    reveal_strlit("he");
    reveal_strlit("hi");
    reveal_strlit("hr");
    reveal_strlit("ht");
    reveal_strlit("hu");
    reveal_strlit("hy");
    reveal_strlit("id");
    reveal_strlit("ig");
    reveal_strlit("ilo");
    reveal_strlit("is");
    reveal_strlit("it");
    reveal_strlit("ja");
    reveal_strlit("jv");
    reveal_strlit("ka");
    reveal_strlit("kk");
    reveal_strlit("km");
    reveal_strlit("kn");
    reveal_strlit("ko");
    reveal_strlit("lb");
    reveal_strlit("lg");
    reveal_strlit("ln");
    reveal_strlit("lo");
    reveal_strlit("lt");
    reveal_strlit("lv");
    reveal_strlit("mg");
    reveal_strlit("mk");
    reveal_strlit("ml");
    reveal_strlit("mn");
    reveal_strlit("mr");
    reveal_strlit("ms");
    reveal_strlit("my");
    reveal_strlit("ne");
    reveal_strlit("nl");
    reveal_strlit("no");
    reveal_strlit("ns");
    reveal_strlit("oc");
    reveal_strlit("or");
    reveal_strlit("pa");
    reveal_strlit("pl");
    reveal_strlit("ps");
    reveal_strlit("pt");
    reveal_strlit("ro");
    reveal_strlit("ru");
    reveal_strlit("sd");
    reveal_strlit("si");
    reveal_strlit("sk");
    reveal_strlit("sl");
    reveal_strlit("so");
    reveal_strlit("sq");
    reveal_strlit("sr");
    reveal_strlit("ss");
    reveal_strlit("su");
    reveal_strlit("sv");
    reveal_strlit("sw");
    reveal_strlit("ta");
    reveal_strlit("th");
    reveal_strlit("tl");
    reveal_strlit("tn");
    reveal_strlit("tr");
    reveal_strlit("uk");
    reveal_strlit("ur");
    reveal_strlit("uz");
    reveal_strlit("vi");
    reveal_strlit("wo");
    reveal_strlit("xh");
    reveal_strlit("yi");
    reveal_strlit("yo");
    reveal_strlit("zh");
    reveal_strlit("zu");
}

/// The marker token of the language `code`, or the error that names the code where it is
/// neither two nor three characters long.
pub fn language_marker(code: &str) -> (marker: Result<String, TokenizerError>)
    ensures
        match marker {
            Ok(token) => is_language_code(code@) && token@ == language_marker_of(code@),
            Err(TokenizerError::InvalidLanguageCode(refused)) => !is_language_code(code@)
                && refused@ == code@,
            Err(_) => false,
        },
{
    let length = code.unicode_len();
    if length == 2 {
        let mut token = String::from_str(">>");
        token.append(code);
        token.append(".<<");
        Ok(token)
    } else if length == 3 {
        let mut token = String::from_str(">>");
        token.append(code);
        token.append("<<");
        Ok(token)
    } else {
        Err(TokenizerError::InvalidLanguageCode(String::from_str(code)))
    }
}

/// The markers of the languages `codes`, in the same order.
pub open spec fn markers_of(codes: Seq<Seq<char>>) -> Seq<Seq<char>> {
    Seq::new(codes.len(), |i: int| language_marker_of(codes[i]))
}

/// The markers of the languages of the model.
pub open spec fn language_markers() -> Seq<Seq<char>> {
    markers_of(language_codes())
}

/// `ids` after each of `markers` was added in turn, each under the size that the map had when
/// its turn came.
pub open spec fn with_markers(ids: Map<Seq<char>, i64>, markers: Seq<Seq<char>>) -> Map<
    Seq<char>,
    i64,
>
    decreases markers.len(),
{
    if markers.len() == 0 {
        ids
    } else {
        let before = with_markers(ids, markers.drop_last());
        before.insert(markers.last(), before.len() as i64)
    }
}

/// `code` is the first of `codes` of which no marker can be made.
pub open spec fn is_first_invalid(codes: Seq<Seq<char>>, code: Seq<char>) -> bool {
    exists|i: int|
        {
            &&& 0 <= i < codes.len()
            &&& #[trigger] codes[i] == code
            &&& !is_language_code(code)
            &&& forall|j: int| 0 <= j < i ==> is_language_code(#[trigger] codes[j])
        }
}

/// Adds the marker of each language of `codes` to `values`, in their order, each under the next
/// free id: the size of the map at that moment. Returns the grown map and the UTF-8 bytes of
/// each marker.
///
/// Fails with the first code that is neither two nor three characters long.
pub fn synthesize_language_markers(values: TokenMap, codes: &[&'static str]) -> (outcome: Result<
    (TokenMap, Vec<Vec<u8>>),
    TokenizerError,
>)
    ensures
        match outcome {
            Ok((grown, marker_bytes)) => {
                let markers = markers_of(str_seq(codes@));
                &&& forall|i: int| 0 <= i < codes.len() ==> is_language_code(#[trigger] codes[i]@)
                &&& grown@ == with_markers(values@, markers)
                &&& grown.order() == first_occurrences(values.order() + markers)
                &&& byte_seqs(marker_bytes@) == Seq::new(
                    markers.len(),
                    |i: int| encode_utf8(markers[i]),
                )
            },
            Err(TokenizerError::InvalidLanguageCode(refused)) => is_first_invalid(
                str_seq(codes@),
                refused@,
            ),
            Err(_) => false,
        },
{
    let ghost start = values@;
    let ghost start_order = values.order();
    let ghost markers = markers_of(str_seq(codes@));
    let mut grown = values;
    let mut marker_bytes: Vec<Vec<u8>> = Vec::new();
    let mut i: usize = 0;
    proof {
        assert(markers.take(0) =~= Seq::<Seq<char>>::empty());
        assert(start_order + markers.take(0) =~= start_order);
        use_type_invariant(&grown);
        lemma_first_occurrences_of_distinct(start_order);
    }
    while i < codes.len()
        invariant
            i <= codes.len(),
            markers == markers_of(str_seq(codes@)),
            forall|j: int| 0 <= j < i ==> is_language_code(#[trigger] str_seq(codes@)[j]),
            grown@ == with_markers(start, markers.take(i as int)),
            grown.order() == first_occurrences(start_order + markers.take(i as int)),
            marker_bytes@.len() == i,
            forall|j: int| 0 <= j < i ==> (#[trigger] marker_bytes@[j])@ == encode_utf8(markers[j]),
        decreases codes.len() - i,
    {
        let code = codes[i];
        assert(str_seq(codes@)[i as int] == code@);
        let marker = match language_marker(code) {
            Ok(marker) => marker,
            Err(error) => {
                return Err(error);
            },
        };
        assert(marker@ == markers[i as int]);
        marker_bytes.push(marker.as_str().as_bytes_vec());
        let next_id = grown.len() as i64;
        proof {
            let next = markers.take(i + 1);
            assert(next.drop_last() =~= markers.take(i as int));
            assert(next.last() == marker@);
            assert((start_order + next).drop_last() =~= start_order + markers.take(i as int));
            assert((start_order + next).last() == marker@);
        }
        grown.insert(marker, next_id);
        i += 1;
    }
    proof {
        assert(markers.take(codes.len() as int) =~= markers);
        assert(byte_seqs(marker_bytes@) =~= Seq::new(
            markers.len(),
            |i: int| encode_utf8(markers[i]),
        ));
        assert forall|j: int| 0 <= j < codes.len() implies is_language_code(
            #[trigger] codes[j]@,
        ) by {
            assert(str_seq(codes@)[j] == codes[j]@);
        }
    }
    Ok((grown, marker_bytes))
}

/// The reserved tokens of the vocabulary, in the order in which they are registered: unknown,
/// separator, begin of sequence, end of sequence, padding.
pub open spec fn reserved_tokens() -> Seq<Seq<char>> {
    seq!["<unk>"@, "</s>"@, "<s>"@, "</s>"@, "<pad>"@]
}

/// Every marker is a token of the map to which the markers were added.
pub proof fn lemma_with_markers(ids: Map<Seq<char>, i64>, markers: Seq<Seq<char>>)
    ensures
        holds_all(with_markers(ids, markers), markers),
        forall|t: Seq<char>| #[trigger]
            with_markers(ids, markers).contains_key(t) <==> ids.contains_key(t)
                || markers.contains(t),
    decreases markers.len(),
{
    if markers.len() > 0 {
        let shorter = markers.drop_last();
        lemma_with_markers(ids, shorter);
        assert forall|i: int| 0 <= i < markers.len() implies with_markers(
            ids,
            markers,
        ).contains_key(#[trigger] markers[i]) by {
            if i < markers.len() - 1 {
                assert(shorter[i] == markers[i]);
            }
        }
        assert forall|t: Seq<char>| #[trigger]
            with_markers(ids, markers).contains_key(t) <==> ids.contains_key(t)
                || markers.contains(t) by {
            if markers.contains(t) {
                let i = choose|i: int| 0 <= i < markers.len() && markers[i] == t;
                assert(with_markers(ids, markers).contains_key(markers[i]));
            }
            if with_markers(ids, markers).contains_key(t) && !ids.contains_key(t) {
                if with_markers(ids, shorter).contains_key(t) {
                    assert(shorter.contains(t));
                    let i = choose|i: int| 0 <= i < shorter.len() && shorter[i] == t;
                    assert(markers[i] == t);
                } else {
                    assert(markers[markers.len() - 1] == t);
                }
            }
        }
    }
}

/// No two languages of the model have the same marker.
pub proof fn lemma_language_markers_are_distinct()
    ensures
        language_markers().no_duplicates(),
{
    lemma_language_codes();
    reveal_strlit(">>");
    reveal_strlit(".<<");
    reveal_strlit("<<");
    assert forall|i: int, j: int| 0 <= i < j < 100 implies language_markers()[i]
        != language_markers()[j] by {
        let first = language_codes()[i];
        let second = language_codes()[j];
        let a = language_markers()[i];
        let b = language_markers()[j];
        assert(is_language_code(first) && is_language_code(second));
        assert(code_rank(first) < code_rank(second));
        assert(a[2] == first[0] && a[3] == first[1]);
        assert(b[2] == second[0] && b[3] == second[1]);
        if first.len() == 3 {
            assert(a[4] == first[2]);
            assert('a' <= language_codes()[i][2] <= 'z');
        } else {
            assert(a[4] == '.');
        }
        if second.len() == 3 {
            assert(b[4] == second[2]);
            assert('a' <= language_codes()[j][2] <= 'z');
        } else {
            assert(b[4] == '.');
        }
    }
}

/// Markers that are new to a map, and differ from each other, take the ids that follow the
/// ids of a map filled from zero: the first gets the size of the map, the next the size and
/// one, and so on.
pub proof fn lemma_marker_ids(ids: Map<Seq<char>, i64>, markers: Seq<Seq<char>>)
    requires
        ids.dom().finite(),
        markers.no_duplicates(),
        forall|i: int| 0 <= i < markers.len() ==> !ids.contains_key(#[trigger] markers[i]),
        ids.len() + markers.len() <= i64::MAX,
    ensures
        with_markers(ids, markers).dom().finite(),
        with_markers(ids, markers).len() == ids.len() + markers.len(),
        forall|i: int|
            0 <= i < markers.len() ==> with_markers(ids, markers)[#[trigger] markers[i]]
                == ids.len() + i,
        forall|t: Seq<char>| #[trigger]
            ids.contains_key(t) ==> with_markers(ids, markers)[t] == ids[t],
    decreases markers.len(),
{
    if markers.len() > 0 {
        let shorter = markers.drop_last();
        let before = with_markers(ids, shorter);
        assert forall|i: int| 0 <= i < shorter.len() implies !ids.contains_key(
            #[trigger] shorter[i],
        ) by {
            assert(shorter[i] == markers[i]);
        }
        lemma_marker_ids(ids, shorter);
        lemma_with_markers(ids, shorter);
        assert(!before.contains_key(markers.last())) by {
            if shorter.contains(markers.last()) {
                let i = choose|i: int| 0 <= i < shorter.len() && shorter[i] == markers.last();
                assert(markers[i] == markers[markers.len() - 1]);
            }
            assert(markers[markers.len() - 1] == markers.last());
        }
        assert forall|i: int| 0 <= i < markers.len() implies with_markers(
            ids,
            markers,
        )[#[trigger] markers[i]] == ids.len() + i by {
            if i < markers.len() - 1 {
                assert(shorter[i] == markers[i]);
                assert(before.contains_key(shorter[i]));
            }
        }
        assert forall|t: Seq<char>| #[trigger] ids.contains_key(t) implies with_markers(
            ids,
            markers,
        )[t] == ids[t] by {
            assert(before.contains_key(t));
        }
    }
}

/// The vocabulary of the M2M100 models.
///
/// Its reserved tokens are the unknown token, the separator, the begin and the end of a
/// sequence and the padding. It has no class token and no mask token.
pub struct M2M100Vocab {
    values: TokenMap,
    indices: HashMap<i64, String>,
    unknown_value: &'static str,
    special_values: TokenMap,
    special_indices: HashMap<i64, String>,
    language_codes_bytes: Vec<Vec<u8>>,
}

impl View for M2M100Vocab {
    type V = VocabView;

    closed spec fn view(&self) -> VocabView {
        VocabView {
            values: self.values@,
            order: self.values.order(),
            indices: token_views(self.indices@),
            special_values: self.special_values@,
            special_order: self.special_values.order(),
            special_indices: token_views(self.special_indices@),
            unknown: self.unknown_value@,
        }
    }
}

impl M2M100Vocab {
    /// The UTF-8 bytes of the language markers, in the order of the languages.
    pub closed spec fn marker_bytes(&self) -> Seq<Seq<u8>> {
        byte_seqs(self.language_codes_bytes@)
    }

    /// What holds of every vocabulary of this kind: its maps fit together, its reserved part
    /// holds the five reserved tokens and nothing else, it holds the marker of each language,
    /// and it keeps the bytes of each marker, no two of them alike.
    #[verifier::type_invariant]
    pub open spec fn wf(self) -> bool {
        &&& self@.wf()
        &&& self@.unknown == "<unk>"@
        &&& holds_all(self@.values, reserved_tokens())
        &&& self@.special_values == reserved_entries(self@.values, reserved_tokens())
        &&& self@.special_order == first_occurrences(reserved_tokens())
        &&& holds_all(self@.values, language_markers())
        &&& self.marker_bytes() == Seq::new(100, |i: int| encode_utf8(language_markers()[i]))
        &&& self.marker_bytes().no_duplicates()
    }

    /// Determinism: two vocabularies built from one map of tokens are the same maps, and so
    /// give every token, each language marker among them, the same id.
    pub proof fn lemma_synthesis_is_deterministic(
        self,
        other: M2M100Vocab,
        ids: Map<Seq<char>, i64>,
        token: Seq<char>,
    )
        requires
            self.wf(),
            other.wf(),
            self@.values == with_markers(ids, language_markers()),
            other@.values == with_markers(ids, language_markers()),
        ensures
            self@.values == other@.values,
            self@.special_values == other@.special_values,
            self@.special_indices == other@.special_indices,
            self@.token_to_id(token) == other@.token_to_id(token),
            self.marker_bytes() == other.marker_bytes(),
    {
    }

    /// The markers stand at the tail: in a vocabulary built from a map that holds no marker,
    /// the marker of the language at place `i` has the id that is the size of that map plus
    /// `i`, and comes back from that id unless a token of the map has it too.
    pub proof fn lemma_markers_take_the_tail(self, ids: Map<Seq<char>, i64>, i: int)
        requires
            self.wf(),
            self@.values == with_markers(ids, language_markers()),
            ids.dom().finite(),
            ids.len() + 100 <= i64::MAX,
            forall|j: int| 0 <= j < 100 ==> !ids.contains_key(#[trigger] language_markers()[j]),
            0 <= i < 100,
        ensures
            self@.values.len() == ids.len() + 100,
            self@.token_to_id(language_markers()[i]) == ids.len() + i,
            (forall|t: Seq<char>| ids.contains_key(t) ==> #[trigger] ids[t] != ids.len() + i)
                ==> self@.id_to_token((ids.len() + i) as i64) == language_markers()[i],
    {
        let markers = language_markers();
        lemma_language_markers_are_distinct();
        lemma_marker_ids(ids, markers);
        lemma_with_markers(ids, markers);
        assert(self@.values.contains_key(markers[i]));
        if forall|t: Seq<char>| ids.contains_key(t) ==> #[trigger] ids[t] != ids.len() + i {
            assert forall|t: Seq<char>|
                self@.values.contains_key(t) && self@.values[t]
                    == self@.values[markers[i]] implies t == markers[i] by {
                if ids.contains_key(t) {
                    assert(ids[t] != ids.len() + i);
                } else {
                    assert(markers.contains(t));
                    let j = choose|j: int| 0 <= j < markers.len() && markers[j] == t;
                    assert(self@.values[markers[j]] == ids.len() + j);
                }
            }
            self@.lemma_round_trip(markers[i]);
        }
    }

    /// The padding token.
    pub fn pad_value() -> (token: Option<&'static str>)
        ensures
            token matches Some(t) && t@ == "<pad>"@,
    {
        Some("<pad>")
    }

    /// The separator token.
    pub fn sep_value() -> (token: Option<&'static str>)
        ensures
            token matches Some(t) && t@ == "</s>"@,
    {
        Some("</s>")
    }

    /// The class token: this vocabulary has none.
    pub fn cls_value() -> (token: Option<&'static str>)
        ensures
            token is None,
    {
        None
    }

    /// The mask token: this vocabulary has none.
    pub fn mask_value() -> (token: Option<&'static str>)
        ensures
            token is None,
    {
        None
    }

    /// The token that begins a sequence.
    pub fn bos_value() -> (token: Option<&'static str>)
        ensures
            token matches Some(t) && t@ == "<s>"@,
    {
        Some("<s>")
    }

    /// The token that ends a sequence.
    pub fn eos_value() -> (token: Option<&'static str>)
        ensures
            token matches Some(t) && t@ == "</s>"@,
    {
        Some("</s>")
    }

    /// The UTF-8 bytes of each language marker, in the order of the languages.
    pub fn language_codes_bytes(&self) -> (bytes: &Vec<Vec<u8>>)
        ensures
            byte_seqs(bytes@) == self.marker_bytes(),
            self.wf(),
    {
        proof {
            use_type_invariant(self);
        }
        &self.language_codes_bytes
    }

    /// Builds the vocabulary from the entries of its file: adds the language markers, then
    /// registers the reserved tokens.
    ///
    /// Fails with the first reserved token that is neither in `entries` nor a language marker.
    pub fn from_entries(entries: Vec<(String, i64)>) -> (outcome: Result<
        M2M100Vocab,
        TokenizerError,
    >)
        ensures
            match outcome {
                Ok(vocab) => {
                    &&& vocab.wf()
                    &&& vocab@.values == with_markers(entry_ids(entries@), language_markers())
                    &&& vocab@.order == first_occurrences(
                        entry_tokens(entries@) + language_markers(),
                    )
                },
                Err(TokenizerError::TokenNotFound(missing)) => is_first_missing(
                    with_markers(entry_ids(entries@), language_markers()),
                    reserved_tokens(),
                    missing@,
                ),
                Err(_) => false,
            },
    {
        let values = TokenMap::from_entries(entries);
        let codes = FAIRSEQ_LANGUAGE_CODES.as_slice();
        proof {
            lemma_language_codes();
            assert(str_seq(codes@) =~= language_codes());
        }
        let (values, language_codes_bytes) = match synthesize_language_markers(values, codes) {
            Ok(grown) => grown,
            Err(error) => {
                proof {
                    let refused = error->InvalidLanguageCode_0@;
                    let i = choose|i: int|
                        {
                            &&& 0 <= i < 100
                            &&& #[trigger] language_codes()[i] == refused
                            &&& !is_language_code(refused)
                        };
                    assert(is_language_code(language_codes()[i]));
                }
                return Err(error);
            },
        };
        let reserved: [&'static str; 5] = [
            M2M100Vocab::unknown_value(),
            M2M100Vocab::sep_value().unwrap(),
            M2M100Vocab::bos_value().unwrap(),
            M2M100Vocab::eos_value().unwrap(),
            M2M100Vocab::pad_value().unwrap(),
        ];
        assert(str_seq(reserved@) =~= reserved_tokens());
        let special_values = match register_special_values(reserved.as_slice(), &values) {
            Ok(special_values) => special_values,
            Err(error) => {
                return Err(error);
            },
        };
        let indices = swap_key_values(&values);
        let special_indices = swap_key_values(&special_values);
        proof {
            use_type_invariant(&values);
            use_type_invariant(&special_values);
            lemma_with_markers(entry_ids(entries@), language_markers());
            lemma_first_occurrences(entry_tokens(entries@));
            assert(reserved_tokens()[0] == "<unk>"@);
            assert(reserved_tokens().contains("<unk>"@));
            assert(special_values@.submap_of(values@)) by {
                assert forall|t: Seq<char>| #[trigger]
                    special_values@.dom().contains(t) implies values@.dom().contains(t)
                    && special_values@[t] == values@[t] by {
                    let i = choose|i: int|
                        0 <= i < reserved_tokens().len() && reserved_tokens()[i] == t;
                    assert(values@.contains_key(reserved_tokens()[i]));
                }
            }
            lemma_order_of_grown(entry_tokens(entries@), language_markers());
            lemma_language_markers_are_distinct();
            assert forall|i: int, j: int| 0 <= i < j < 100 implies encode_utf8(
                language_markers()[i],
            ) != encode_utf8(language_markers()[j]) by {
                vstd::utf8::encode_utf8_decode_utf8(language_markers()[i]);
                vstd::utf8::encode_utf8_decode_utf8(language_markers()[j]);
            }
        }
        Ok(
            M2M100Vocab {
                values,
                indices,
                unknown_value: "<unk>",
                special_values,
                special_indices,
                language_codes_bytes,
            },
        )
    }
}

/// Walking the first occurrences of a sequence and then more tokens is walking the first
/// occurrences of the whole.
pub proof fn lemma_order_of_grown(tokens: Seq<Seq<char>>, more: Seq<Seq<char>>)
    ensures
        first_occurrences(first_occurrences(tokens) + more) == first_occurrences(tokens + more),
    decreases more.len(),
{
    if more.len() == 0 {
        lemma_first_occurrences(tokens);
        lemma_first_occurrences_of_distinct(first_occurrences(tokens));
        assert(first_occurrences(tokens) + more =~= first_occurrences(tokens));
        assert(tokens + more =~= tokens);
    } else {
        let shorter = more.drop_last();
        lemma_order_of_grown(tokens, shorter);
        assert((first_occurrences(tokens) + more).drop_last() =~= first_occurrences(tokens)
            + shorter);
        assert((tokens + more).drop_last() =~= tokens + shorter);
        assert((first_occurrences(tokens) + more).last() == more.last());
        assert((tokens + more).last() == more.last());
    }
}

impl Vocab for M2M100Vocab {
    open spec fn unknown_token() -> Seq<char> {
        "<unk>"@
    }

    fn unknown_value() -> (token: &'static str) {
        "<unk>"
    }

    /// Builds the vocabulary from the bytes of its file, a JSON object from tokens to ids.
    ///
    /// Fails where the bytes are no such object, and with the first reserved token that is
    /// neither in the object nor a language marker.
    fn from_bytes(bytes: &[u8]) -> (outcome: Result<M2M100Vocab, TokenizerError>)
        ensures
            match outcome {
                Ok(vocab) => {
                    &&& vocab.wf()
                    &&& json_token_ids(bytes@) matches Some(ids)
                    &&& vocab@.values == with_markers(ids, language_markers())
                    &&& exists|entries: Seq<(String, i64)>|
                        {
                            &&& lists_entries(entries, ids)
                            &&& vocab@.order == #[trigger] first_occurrences(
                                entry_tokens(entries) + language_markers(),
                            )
                        }
                },
                Err(TokenizerError::VocabularyParsingError(_)) => json_token_ids(bytes@) is None,
                Err(TokenizerError::TokenNotFound(missing)) => {
                    &&& json_token_ids(bytes@) matches Some(ids)
                    &&& is_first_missing(
                        with_markers(ids, language_markers()),
                        reserved_tokens(),
                        missing@,
                    )
                },
                Err(_) => false,
            },
    {
        match parse_token_ids(bytes) {
            Err(error) => Err(TokenizerError::VocabularyParsingError(error.to_string())),
            Ok(entries) => {
                proof {
                    lemma_listed_entries(entries@, json_token_ids(bytes@).unwrap());
                }
                M2M100Vocab::from_entries(entries)
            },
        }
    }

    fn get_unknown_value(&self) -> (token: &'static str) {
        proof {
            use_type_invariant(self);
        }
        "<unk>"
    }

    fn values(&self) -> (values: &TokenMap) {
        proof {
            use_type_invariant(self);
        }
        &self.values
    }

    fn indices(&self) -> (indices: &HashMap<i64, String>) {
        proof {
            use_type_invariant(self);
        }
        &self.indices
    }

    fn special_values(&self) -> (special_values: &TokenMap) {
        proof {
            use_type_invariant(self);
        }
        &self.special_values
    }

    fn special_indices(&self) -> (special_indices: &HashMap<i64, String>) {
        proof {
            use_type_invariant(self);
        }
        &self.special_indices
    }

    fn token_to_id(&self, token: &str) -> (id: i64) {
        proof {
            use_type_invariant(self);
        }
        token_to_id(token, &self.values, &self.special_values, self.unknown_value)
    }

    fn id_to_token(&self, id: &i64) -> (token: String) {
        proof {
            use_type_invariant(self);
        }
        id_to_token(id, &self.indices, &self.special_indices, self.unknown_value)
    }
}

} // verus!
