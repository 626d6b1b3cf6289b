//! A vocabulary as mathematics: its maps, what makes them fit together, and what follows for
//! the two lookups.

use crate::token_map::lists_keys;
use vstd::prelude::*;

verus! {

/// The inverse of `forward`, built by walking its tokens in `order`: each token is written under
/// its id, so of two tokens with one id the later in `order` stays.
pub open spec fn inverse_in_order(order: Seq<Seq<char>>, forward: Map<Seq<char>, i64>) -> Map<
    i64,
    Seq<char>,
>
    decreases order.len(),
{
    if order.len() == 0 {
        Map::empty()
    } else {
        inverse_in_order(order.drop_last(), forward).insert(forward[order.last()], order.last())
    }
}

/// The id that a vocabulary gives for `token`: the one among the reserved tokens, else the one
/// among all tokens, else the id of the unknown token.
pub open spec fn lookup_id(
    values: Map<Seq<char>, i64>,
    special_values: Map<Seq<char>, i64>,
    unknown: Seq<char>,
    token: Seq<char>,
) -> i64 {
    if special_values.contains_key(token) {
        special_values[token]
    } else if values.contains_key(token) {
        values[token]
    } else {
        values[unknown]
    }
}

/// The token that a vocabulary gives for `id`: the one among the reserved ids, else the one among
/// all ids, else the unknown token.
pub open spec fn lookup_token(
    indices: Map<i64, Seq<char>>,
    special_indices: Map<i64, Seq<char>>,
    unknown: Seq<char>,
    id: i64,
) -> Seq<char> {
    if special_indices.contains_key(id) {
        special_indices[id]
    } else if indices.contains_key(id) {
        indices[id]
    } else {
        unknown
    }
}

/// `values` holds every token of `tokens`.
pub open spec fn holds_all(values: Map<Seq<char>, i64>, tokens: Seq<Seq<char>>) -> bool {
    forall|i: int| 0 <= i < tokens.len() ==> values.contains_key(#[trigger] tokens[i])
}

/// `token` is the first of `tokens` that `values` does not hold.
pub open spec fn is_first_missing(
    values: Map<Seq<char>, i64>,
    tokens: Seq<Seq<char>>,
    token: Seq<char>,
) -> bool {
    exists|i: int|
        {
            &&& 0 <= i < tokens.len()
            &&& #[trigger] tokens[i] == token
            &&& !values.contains_key(token)
            &&& holds_all(values, tokens.take(i))
        }
}

/// The entries of `values` for the tokens of `tokens`: the reserved part of a vocabulary whose
/// tokens are all in `values`.
pub open spec fn reserved_entries(values: Map<Seq<char>, i64>, tokens: Seq<Seq<char>>) -> Map<
    Seq<char>,
    i64,
> {
    Map::new(|t: Seq<char>| tokens.contains(t), |t: Seq<char>| values[t])
}


/// What the inverse built in `order` holds: an id is in it exactly if a token of `order` has it,
/// and the token found under an id has that id.
pub proof fn lemma_inverse_in_order(order: Seq<Seq<char>>, forward: Map<Seq<char>, i64>)
    ensures
        inverse_in_order(order, forward).dom().finite(),
        inverse_in_order(order, forward).len() <= order.len(),
        forall|id: i64| #[trigger]
            inverse_in_order(order, forward).contains_key(id) <==> exists|i: int|
                0 <= i < order.len() && forward[#[trigger] order[i]] == id,
        forall|id: i64| #[trigger]
            inverse_in_order(order, forward).contains_key(id) ==> order.contains(
                inverse_in_order(order, forward)[id],
            ) && forward[inverse_in_order(order, forward)[id]] == id,
    decreases order.len(),
{
    let inverse = inverse_in_order(order, forward);
    if order.len() > 0 {
        let shorter = order.drop_last();
        let before = inverse_in_order(shorter, forward);
        lemma_inverse_in_order(shorter, forward);
        assert forall|id: i64| #[trigger]
            inverse.contains_key(id) <==> exists|i: int|
                0 <= i < order.len() && forward[#[trigger] order[i]] == id by {
            if inverse.contains_key(id) {
                if before.contains_key(id) {
                    let i = choose|i: int| 0 <= i < shorter.len() && forward[#[trigger] shorter[i]] == id;
                    assert(forward[order[i]] == id);
                } else {
                    assert(forward[order[order.len() - 1]] == id);
                }
            }
            if exists|i: int| 0 <= i < order.len() && forward[#[trigger] order[i]] == id {
                let i = choose|i: int| 0 <= i < order.len() && forward[#[trigger] order[i]] == id;
                if i < order.len() - 1 {
                    assert(forward[shorter[i]] == id);
                    assert(before.contains_key(id));
                }
            }
        }
        assert forall|id: i64| #[trigger] inverse.contains_key(id) implies order.contains(
            inverse[id],
        ) && forward[inverse[id]] == id by {
            if id == forward[order.last()] {
                assert(order[order.len() - 1] == inverse[id]);
            } else {
                assert(before.contains_key(id));
                let i = choose|i: int| 0 <= i < shorter.len() && shorter[i] == before[id];
                assert(order[i] == inverse[id]);
            }
        }
    }
}

/// Last write wins: the token found under an id is the last in `order` that has the id.
pub proof fn lemma_inverse_last_wins(order: Seq<Seq<char>>, forward: Map<Seq<char>, i64>, i: int)
    requires
        0 <= i < order.len(),
        forall|j: int| i < j < order.len() ==> forward[#[trigger] order[j]] != forward[order[i]],
    ensures
        inverse_in_order(order, forward).contains_key(forward[order[i]]),
        inverse_in_order(order, forward)[forward[order[i]]] == order[i],
    decreases order.len(),
{
    if i < order.len() - 1 {
        let shorter = order.drop_last();
        assert(shorter[i] == order[i]);
        assert forall|j: int| i < j < shorter.len() implies forward[#[trigger] shorter[j]]
            != forward[shorter[i]] by {
            assert(shorter[j] == order[j]);
        }
        lemma_inverse_last_wins(shorter, forward, i);
        assert(forward[order[order.len() - 1]] != forward[order[i]]);
    }
}

/// Where no two tokens share an id, the inverse built in any order of the tokens is the true
/// inverse, and is as large as the map.
pub proof fn lemma_inverse_of_injective(order: Seq<Seq<char>>, forward: Map<Seq<char>, i64>)
    requires
        lists_keys(order, forward),
        forward.is_injective(),
    ensures
        inverse_in_order(order, forward).len() == forward.len(),
        forall|t: Seq<char>| #[trigger]
            forward.contains_key(t) ==> inverse_in_order(order, forward).contains_key(forward[t])
                && inverse_in_order(order, forward)[forward[t]] == t,
{
    let inverse = inverse_in_order(order, forward);
    lemma_inverse_in_order(order, forward);
    assert forall|t: Seq<char>| #[trigger] forward.contains_key(t) implies inverse.contains_key(
        forward[t],
    ) && inverse[forward[t]] == t by {
        assert(order.contains(t));
        let i = choose|i: int| 0 <= i < order.len() && order[i] == t;
        assert(forward[order[i]] == forward[t]);
        assert(inverse.contains_key(forward[t]));
        assert(order.contains(inverse[forward[t]]));
    }
    crate::token_map::lemma_lists_keys_len(order, forward);
    assert(forward.dom().map(|t: Seq<char>| forward[t]) =~= inverse.dom()) by {
        assert forall|id: i64| inverse.dom().contains(id) implies forward.dom().map(
            |t: Seq<char>| forward[t],
        ).contains(id) by {
            assert(inverse.contains_key(id));
            assert(forward.contains_key(inverse[id]));
        }
    }
    assert(vstd::relations::injective_on(|t: Seq<char>| forward[t], forward.dom()));
    vstd::set_lib::lemma_map_size(forward.dom(), inverse.dom(), |t: Seq<char>| forward[t]);
}

/// The mathematical content of a vocabulary.
pub struct VocabView {
    /// The id of each token.
    pub values: Map<Seq<char>, i64>,
    /// The tokens of `values` in the order in which they are walked.
    pub order: Seq<Seq<char>>,
    /// The token of each id.
    pub indices: Map<i64, Seq<char>>,
    /// The id of each reserved token.
    pub special_values: Map<Seq<char>, i64>,
    /// The reserved tokens in the order in which they are walked.
    pub special_order: Seq<Seq<char>>,
    /// The reserved token of each reserved id.
    pub special_indices: Map<i64, Seq<char>>,
    /// The token that stands for every token the vocabulary does not hold.
    pub unknown: Seq<char>,
}

impl VocabView {
    /// The maps fit together: both backward maps invert their forward maps, the reserved
    /// entries are entries of the full map, and the unknown token is reserved.
    pub open spec fn wf(self) -> bool {
        &&& lists_keys(self.order, self.values)
        &&& lists_keys(self.special_order, self.special_values)
        &&& self.indices == inverse_in_order(self.order, self.values)
        &&& self.special_indices == inverse_in_order(self.special_order, self.special_values)
        &&& self.special_values.submap_of(self.values)
        &&& self.special_values.contains_key(self.unknown)
    }

    /// The id that the vocabulary gives for `token`.
    pub open spec fn token_to_id(self, token: Seq<char>) -> i64 {
        lookup_id(self.values, self.special_values, self.unknown, token)
    }

    /// The token that the vocabulary gives for `id`.
    pub open spec fn id_to_token(self, id: i64) -> Seq<char> {
        lookup_token(self.indices, self.special_indices, self.unknown, id)
    }

    /// Round trip: a token of the vocabulary whose id no other token shares comes back from its
    /// id.
    pub proof fn lemma_round_trip(self, token: Seq<char>)
        requires
            self.wf(),
            self.values.contains_key(token),
            forall|other: Seq<char>|
                self.values.contains_key(other) && self.values[other] == self.values[token]
                    ==> other == token,
        ensures
            self.id_to_token(self.token_to_id(token)) == token,
    {
        let id = self.values[token];
        assert(self.token_to_id(token) == id);
        lemma_inverse_in_order(self.order, self.values);
        lemma_inverse_in_order(self.special_order, self.special_values);
        if self.special_indices.contains_key(id) {
            let found = self.special_indices[id];
            assert(self.special_order.contains(found));
            assert(self.special_values.contains_key(found));
            assert(self.values.contains_key(found) && self.values[found] == id);
        } else {
            assert(self.order.contains(token));
            let i = choose|i: int| 0 <= i < self.order.len() && self.order[i] == token;
            assert(self.values[self.order[i]] == id);
            assert(self.indices.contains_key(id));
            let found = self.indices[id];
            assert(self.order.contains(found));
            assert(self.values.contains_key(found));
        }
    }

    /// A collision: of two tokens with one id, the one that is walked first does not come back
    /// from the id where neither is reserved.
    pub proof fn lemma_collision_remaps(self, i: int, j: int)
        requires
            self.wf(),
            0 <= i < j < self.order.len(),
            self.values[self.order[i]] == self.values[self.order[j]],
            !self.special_indices.contains_key(self.values[self.order[i]]),
        ensures
            self.id_to_token(self.token_to_id(self.order[i])) != self.order[i],
    {
        let first = self.order[i];
        let id = self.values[first];
        assert(self.order.contains(first));
        lemma_inverse_in_order(self.special_order, self.special_values);
        if self.special_values.contains_key(first) {
            assert(self.special_order.contains(first));
            let k = choose|k: int|
                0 <= k < self.special_order.len() && self.special_order[k] == first;
            assert(self.special_values[self.special_order[k]] == id);
        }
        assert(self.token_to_id(first) == id);
        lemma_last_with_id(self.order, self.values, j);
        let last = choose|last: int| #[trigger] is_last_with_id(self.order, self.values, j, last);
        lemma_inverse_last_wins(self.order, self.values, last);
    }

    /// Consistency of the two directions: the backward maps are never larger than the forward
    /// maps, and every reserved entry is an entry of the full forward map, in both directions.
    pub proof fn lemma_special_entries_are_entries(self)
        requires
            self.wf(),
        ensures
            self.values.dom().finite(),
            self.indices.dom().finite(),
            self.indices.len() <= self.values.len(),
            self.special_indices.len() <= self.special_values.len(),
            forall|t: Seq<char>| #[trigger]
                self.special_values.contains_key(t) ==> self.values.contains_key(t)
                    && self.values[t] == self.special_values[t],
            forall|id: i64| #[trigger]
                self.special_indices.contains_key(id) ==> self.indices.contains_key(id)
                    && self.values.contains_key(self.special_indices[id])
                    && self.values[self.special_indices[id]] == id,
    {
        lemma_inverse_in_order(self.order, self.values);
        lemma_inverse_in_order(self.special_order, self.special_values);
        crate::token_map::lemma_lists_keys_len(self.order, self.values);
        crate::token_map::lemma_lists_keys_len(self.special_order, self.special_values);
        assert forall|id: i64| #[trigger]
            self.special_indices.contains_key(id) implies self.indices.contains_key(id)
            && self.values.contains_key(self.special_indices[id])
            && self.values[self.special_indices[id]] == id by {
            let found = self.special_indices[id];
            assert(self.special_order.contains(found));
            assert(self.special_values.contains_key(found));
            assert(self.order.contains(found));
            let i = choose|i: int| 0 <= i < self.order.len() && self.order[i] == found;
            assert(self.values[self.order[i]] == id);
        }
    }

    /// Bijection: where no two tokens share an id, each backward map is as large as its forward
    /// map and inverts it, and every reserved entry stands in the full maps as it is.
    pub proof fn lemma_bijection(self)
        requires
            self.wf(),
            self.values.is_injective(),
        ensures
            self.values.len() == self.indices.len(),
            self.special_values.len() == self.special_indices.len(),
            forall|t: Seq<char>| #[trigger]
                self.values.contains_key(t) ==> self.indices.contains_key(self.values[t])
                    && self.indices[self.values[t]] == t,
            forall|id: i64| #[trigger]
                self.indices.contains_key(id) ==> self.values.contains_key(self.indices[id])
                    && self.values[self.indices[id]] == id,
            self.special_values.submap_of(self.values),
            self.special_indices.submap_of(self.indices),
    {
        lemma_inverse_of_injective(self.order, self.values);
        assert(self.special_values.is_injective()) by {
            assert forall|x: Seq<char>, y: Seq<char>|
                x != y && self.special_values.dom().contains(x) && self.special_values.dom().contains(
                    y,
                ) implies #[trigger] self.special_values[x] != #[trigger] self.special_values[y] by {
                assert(self.values.dom().contains(x) && self.values.dom().contains(y));
                assert(self.values[x] != self.values[y]);
            }
        }
        lemma_inverse_of_injective(self.special_order, self.special_values);
        lemma_inverse_in_order(self.order, self.values);
        self.lemma_special_entries_are_entries();
        assert forall|id: i64| #[trigger]
            self.special_indices.dom().contains(id) implies self.indices.dom().contains(id)
            && self.special_indices[id] == self.indices[id] by {
            let found = self.special_indices[id];
            assert(self.special_indices.contains_key(id));
            assert(self.values.contains_key(found));
        }
    }

    /// A reserved token resolves: its id is its id in the full map, and what comes back from
    /// that id is a reserved token with the same id.
    pub proof fn lemma_reserved_resolves(self, token: Seq<char>)
        requires
            self.wf(),
            self.special_values.contains_key(token),
        ensures
            self.values.contains_key(token),
            self.token_to_id(token) == self.values[token],
            self.indices.contains_key(self.token_to_id(token)),
            self.special_indices.contains_key(self.token_to_id(token)),
            self.special_values.contains_key(self.id_to_token(self.token_to_id(token))),
            self.values[self.id_to_token(self.token_to_id(token))] == self.values[token],
    {
        let id = self.special_values[token];
        lemma_inverse_in_order(self.special_order, self.special_values);
        assert(self.special_order.contains(token));
        let i = choose|i: int| 0 <= i < self.special_order.len() && self.special_order[i] == token;
        assert(self.special_values[self.special_order[i]] == id);
        assert(self.special_indices.contains_key(id));
        self.lemma_special_entries_are_entries();
        assert(self.special_order.contains(self.special_indices[id]));
    }

    /// Fallback: a token that the vocabulary does not hold gets the id of the unknown token, and
    /// an id that the vocabulary does not hold gets the unknown token. The unknown token itself
    /// is always held.
    pub proof fn lemma_unknown_fallback(self, token: Seq<char>, id: i64)
        requires
            self.wf(),
        ensures
            self.values.contains_key(self.unknown),
            self.token_to_id(self.unknown) == self.values[self.unknown],
            !self.values.contains_key(token) ==> self.token_to_id(token)
                == self.values[self.unknown],
            !self.indices.contains_key(id) ==> self.id_to_token(id) == self.unknown,
    {
        self.lemma_special_entries_are_entries();
    }

}

/// The token at place `last` of `order` is the last one that has the id of the token at `from`.
pub open spec fn is_last_with_id(
    order: Seq<Seq<char>>,
    forward: Map<Seq<char>, i64>,
    from: int,
    last: int,
) -> bool {
    &&& 0 <= from <= last < order.len()
    &&& forward[order[last]] == forward[order[from]]
    &&& forall|l: int|
        last < l < order.len() ==> forward[#[trigger] order[l]] != forward[order[from]]
}

/// From any place on, some token of `order` is the last to have the id of the token at that
/// place.
pub proof fn lemma_last_with_id(order: Seq<Seq<char>>, forward: Map<Seq<char>, i64>, from: int)
    requires
        0 <= from < order.len(),
    ensures
        exists|last: int| #[trigger] is_last_with_id(order, forward, from, last),
    decreases order.len() - from,
{
    if exists|l: int|
        from < l < order.len() && forward[#[trigger] order[l]] == forward[order[from]] {
        let l = choose|l: int|
            from < l < order.len() && forward[#[trigger] order[l]] == forward[order[from]];
        lemma_last_with_id(order, forward, l);
        let last = choose|last: int| #[trigger] is_last_with_id(order, forward, l, last);
        assert(is_last_with_id(order, forward, from, last));
    } else {
        assert(is_last_with_id(order, forward, from, from));
    }
}

} // verus!
