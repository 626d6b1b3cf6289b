//! A map from tokens to ids that can be walked in a fixed order.

use vstd::hash_map::StringHashMap;
use vstd::prelude::*;

verus! {

broadcast use vstd::hash_map::group_hash_map_axioms;

/// The views of the strings of `tokens`, in the same order.
pub open spec fn token_seq(tokens: Seq<String>) -> Seq<Seq<char>> {
    Seq::new(tokens.len(), |i: int| tokens[i]@)
}

/// `order` lists every key of `ids`, each of them once, and nothing else.
pub open spec fn lists_keys(order: Seq<Seq<char>>, ids: Map<Seq<char>, i64>) -> bool {
    &&& order.no_duplicates()
    &&& forall|t: Seq<char>| order.contains(t) <==> ids.contains_key(t)
}

/// The order of a map's tokens after `token` was inserted: a new token goes to the end, a known
/// one keeps its place.
pub open spec fn order_after_insert(
    order: Seq<Seq<char>>,
    ids: Map<Seq<char>, i64>,
    token: Seq<char>,
) -> Seq<Seq<char>> {
    if ids.contains_key(token) {
        order
    } else {
        order.push(token)
    }
}

/// `tokens` without the repetitions: each token stands where it first occurs.
pub open spec fn first_occurrences(tokens: Seq<Seq<char>>) -> Seq<Seq<char>>
    decreases tokens.len(),
{
    if tokens.len() == 0 {
        Seq::empty()
    } else {
        let before = first_occurrences(tokens.drop_last());
        if before.contains(tokens.last()) {
            before
        } else {
            before.push(tokens.last())
        }
    }
}

/// The first occurrences of a sequence hold what the sequence holds, each token once.
pub proof fn lemma_first_occurrences(tokens: Seq<Seq<char>>)
    ensures
        first_occurrences(tokens).no_duplicates(),
        forall|t: Seq<char>| first_occurrences(tokens).contains(t) <==> tokens.contains(t),
    decreases tokens.len(),
{
    if tokens.len() > 0 {
        let before = first_occurrences(tokens.drop_last());
        let after = first_occurrences(tokens);
        lemma_first_occurrences(tokens.drop_last());
        if !before.contains(tokens.last()) {
            assert forall|i: int, j: int|
                0 <= i < after.len() && 0 <= j < after.len() && i != j implies after[i]
                != after[j] by {
                if i < before.len() {
                    assert(before.contains(after[i]));
                }
                if j < before.len() {
                    assert(before.contains(after[j]));
                }
            }
        }
        assert forall|t: Seq<char>| after.contains(t) <==> tokens.contains(t) by {
            if after.contains(t) {
                let i = choose|i: int| 0 <= i < after.len() && after[i] == t;
                if i < before.len() {
                    assert(before.contains(t));
                    assert(tokens.drop_last().contains(t));
                    let j = choose|j: int|
                        0 <= j < tokens.drop_last().len() && tokens.drop_last()[j] == t;
                    assert(tokens[j] == t);
                } else {
                    assert(tokens[tokens.len() - 1] == t);
                }
            }
            if tokens.contains(t) {
                let j = choose|j: int| 0 <= j < tokens.len() && tokens[j] == t;
                if j < tokens.len() - 1 {
                    assert(tokens.drop_last()[j] == t);
                    assert(tokens.drop_last().contains(t));
                    assert(before.contains(t));
                    let i = choose|i: int| 0 <= i < before.len() && before[i] == t;
                    assert(after[i] == t);
                } else if before.contains(t) {
                } else {
                    assert(after[before.len() as int] == t);
                }
            }
        }
    }
}

/// A sequence without repetitions is its own sequence of first occurrences.
pub proof fn lemma_first_occurrences_of_distinct(tokens: Seq<Seq<char>>)
    requires
        tokens.no_duplicates(),
    ensures
        first_occurrences(tokens) == tokens,
    decreases tokens.len(),
{
    if tokens.len() > 0 {
        lemma_first_occurrences_of_distinct(tokens.drop_last());
        lemma_first_occurrences(tokens.drop_last());
        if tokens.drop_last().contains(tokens.last()) {
            let i = choose|i: int|
                0 <= i < tokens.drop_last().len() && tokens.drop_last()[i] == tokens.last();
            assert(tokens[i] == tokens[tokens.len() - 1]);
        }
        assert(tokens.drop_last().push(tokens.last()) =~= tokens);
    }
}

/// The tokens of a list of entries, in the same order.
pub open spec fn entry_tokens(entries: Seq<(String, i64)>) -> Seq<Seq<char>> {
    Seq::new(entries.len(), |i: int| entries[i].0@)
}

/// The map that a list of entries describes. Where a token occurs twice, its last entry counts.
pub open spec fn entry_ids(entries: Seq<(String, i64)>) -> Map<Seq<char>, i64>
    decreases entries.len(),
{
    if entries.len() == 0 {
        Map::empty()
    } else {
        entry_ids(entries.drop_last()).insert(entries.last().0@, entries.last().1)
    }
}

/// The keys of the map of a list of entries are the tokens of the list.
pub proof fn lemma_entry_ids(entries: Seq<(String, i64)>)
    ensures
        forall|t: Seq<char>| #[trigger]
            entry_ids(entries).contains_key(t) <==> exists|i: int|
                0 <= i < entries.len() && #[trigger] entries[i].0@ == t,
    decreases entries.len(),
{
    if entries.len() > 0 {
        let shorter = entries.drop_last();
        lemma_entry_ids(shorter);
        assert forall|t: Seq<char>| #[trigger]
            entry_ids(entries).contains_key(t) <==> exists|i: int|
                0 <= i < entries.len() && #[trigger] entries[i].0@ == t by {
            if entry_ids(entries).contains_key(t) {
                if entry_ids(shorter).contains_key(t) {
                    let i = choose|i: int| 0 <= i < shorter.len() && #[trigger] shorter[i].0@ == t;
                    assert(entries[i].0@ == t);
                } else {
                    assert(entries[entries.len() - 1].0@ == t);
                }
            }
            if exists|i: int| 0 <= i < entries.len() && #[trigger] entries[i].0@ == t {
                let i = choose|i: int| 0 <= i < entries.len() && #[trigger] entries[i].0@ == t;
                if i < entries.len() - 1 {
                    assert(shorter[i].0@ == t);
                    assert(entry_ids(shorter).contains_key(t));
                } else {
                    assert(entries.last().0@ == t);
                }
            }
        }
    }
}

/// The id of a token in the map of a list of entries is the id of its last entry.
pub proof fn lemma_entry_ids_last(entries: Seq<(String, i64)>, i: int)
    requires
        0 <= i < entries.len(),
        forall|j: int| i < j < entries.len() ==> #[trigger] entries[j].0@ != entries[i].0@,
    ensures
        entry_ids(entries).contains_key(entries[i].0@),
        entry_ids(entries)[entries[i].0@] == entries[i].1,
    decreases entries.len(),
{
    if i < entries.len() - 1 {
        let shorter = entries.drop_last();
        assert(shorter[i] == entries[i]);
        assert forall|j: int| i < j < shorter.len() implies #[trigger] shorter[j].0@
            != shorter[i].0@ by {
            assert(shorter[j] == entries[j]);
        }
        lemma_entry_ids_last(shorter, i);
        assert(entries[entries.len() - 1].0@ != entries[i].0@);
    }
}

/// Inserting keeps the list of keys in step with the map.
pub proof fn lemma_insert_lists_keys(
    order: Seq<Seq<char>>,
    ids: Map<Seq<char>, i64>,
    token: Seq<char>,
    id: i64,
)
    requires
        lists_keys(order, ids),
    ensures
        lists_keys(order_after_insert(order, ids, token), ids.insert(token, id)),
{
    let after = order_after_insert(order, ids, token);
    if !ids.contains_key(token) {
        assert forall|i: int, j: int| 0 <= i < after.len() && 0 <= j < after.len() && i != j implies after[i]
            != after[j] by {
            if i < order.len() {
                assert(order.contains(after[i]));
            }
            if j < order.len() {
                assert(order.contains(after[j]));
            }
        }
    }
    assert forall|t: Seq<char>| after.contains(t) <==> ids.insert(token, id).contains_key(t) by {
        if after.contains(t) {
            let i = choose|i: int| 0 <= i < after.len() && after[i] == t;
            if i < order.len() {
                assert(order.contains(t));
            }
        }
        if ids.contains_key(t) {
            assert(order.contains(t));
            let i = choose|i: int| 0 <= i < order.len() && order[i] == t;
            assert(after[i] == t);
        } else if t == token {
            assert(after[order.len() as int] == t);
        }
    }
}

/// A map that lists its keys has as many entries as the list is long, and is finite.
pub proof fn lemma_lists_keys_len(order: Seq<Seq<char>>, ids: Map<Seq<char>, i64>)
    requires
        lists_keys(order, ids),
    ensures
        ids.dom().finite(),
        ids.len() == order.len(),
{
    order.unique_seq_to_set();
    assert(order.to_set() =~= ids.dom());
}

/// A finite map from tokens to ids that remembers the order in which its tokens first arrived.
///
/// The view is the map itself; `order` lists its tokens, each once.
pub struct TokenMap {
    ids: StringHashMap<i64>,
    tokens: Vec<String>,
}

impl View for TokenMap {
    type V = Map<Seq<char>, i64>;

    closed spec fn view(&self) -> Map<Seq<char>, i64> {
        self.ids@
    }
}

impl TokenMap {
    /// The tokens of the map in the order in which they were first inserted.
    pub closed spec fn order(&self) -> Seq<Seq<char>> {
        token_seq(self.tokens@)
    }

    /// What holds of every map: the order lists the keys of the map, each once.
    #[verifier::type_invariant]
    pub open spec fn wf(self) -> bool {
        lists_keys(self.order(), self@)
    }

    /// An empty map.
    pub fn new() -> (m: TokenMap)
        ensures
            m@ == Map::<Seq<char>, i64>::empty(),
            m.order() == Seq::<Seq<char>>::empty(),
    {
        let m = TokenMap { ids: StringHashMap::new(), tokens: Vec::new() };
        assert(m.order() =~= Seq::<Seq<char>>::empty());
        m
    }

    /// The map that holds `entries`, inserted one after the other.
    pub fn from_entries(entries: Vec<(String, i64)>) -> (m: TokenMap)
        ensures
            m@ == entry_ids(entries@),
            m.order() == first_occurrences(entry_tokens(entries@)),
    {
        let mut m = TokenMap::new();
        let ghost all = entries@;
        assert(all.take(0) =~= Seq::<(String, i64)>::empty());
        assert(entry_tokens(all.take(0)) =~= Seq::<Seq<char>>::empty());
        for entry in it: entries.into_iter()
            invariant
                it.seq() == all,
                m@ == entry_ids(all.take(it.index() as int)),
                m.order() == first_occurrences(entry_tokens(all.take(it.index() as int))),
        {
            proof {
                let i = it.index() as int;
                let next = all.take(i + 1);
                assert(next.drop_last() =~= all.take(i));
                assert(next.last() == entry);
                assert(entry_tokens(next).drop_last() =~= entry_tokens(all.take(i)));
                assert(entry_tokens(next).last() == entry.0@);
                use_type_invariant(&m);
                lemma_first_occurrences(entry_tokens(all.take(i)));
            }
            m.insert(entry.0, entry.1);
        }
        assert(all.take(all.len() as int) =~= all);
        m
    }

    /// The number of tokens.
    pub fn len(&self) -> (n: usize)
        ensures
            n == self@.len(),
            n == self.order().len(),
            lists_keys(self.order(), self@),
    {
        proof {
            use_type_invariant(self);
            lemma_lists_keys_len(self.order(), self@);
        }
        self.tokens.len()
    }

    /// Whether the map holds `token`.
    pub fn contains_key(&self, token: &str) -> (held: bool)
        ensures
            held == self@.contains_key(token@),
    {
        self.ids.contains_key(token)
    }

    /// The id of `token`, if the map holds it.
    pub fn get(&self, token: &str) -> (id: Option<i64>)
        ensures
            id == if self@.contains_key(token@) {
                Some(self@[token@])
            } else {
                None
            },
    {
        match self.ids.get(token) {
            Some(id) => Some(*id),
            None => None,
        }
    }

    /// The tokens in their order.
    pub fn tokens(&self) -> (tokens: &Vec<String>)
        ensures
            token_seq(tokens@) == self.order(),
            lists_keys(self.order(), self@),
    {
        proof {
            use_type_invariant(self);
        }
        &self.tokens
    }

    /// Binds `token` to `id`. A token that is new goes to the end of the order; one that the map
    /// already holds keeps its place and takes the new id.
    pub fn insert(&mut self, token: String, id: i64)
        ensures
            final(self)@ == old(self)@.insert(token@, id),
            final(self).order() == order_after_insert(old(self).order(), old(self)@, token@),
    {
        proof {
            use_type_invariant(&*self);
            lemma_insert_lists_keys(self.order(), self@, token@, id);
        }
        let mut taken = TokenMap::new();
        core::mem::swap(self, &mut taken);
        let TokenMap { ids, tokens } = taken;
        let mut ids = ids;
        let mut tokens = tokens;
        let ghost before = token_seq(tokens@);
        if !ids.contains_key(token.as_str()) {
            tokens.push(token.clone());
            assert(token_seq(tokens@) =~= before.push(token@));
        }
        ids.insert(token, id);
        *self = TokenMap { ids, tokens };
    }
}

} // verus!
