//! A token vocabulary: token text to id, and id back to text.

use vstd::prelude::*;
use vstd::hash_map::{HashMapWithView, StringHashMap};

use crate::tokenizer::TokenId;

verus! {

broadcast use vstd::std_specs::hash::group_hash_axioms;

/// The map a list of `(key, value)` entries describes when each entry in
/// turn overrides earlier ones with the same key.
pub open spec fn assoc_map<K, V>(s: Seq<(K, V)>) -> Map<K, V>
    decreases s.len(),
{
    if s.len() == 0 {
        Map::empty()
    } else {
        assoc_map(s.drop_last()).insert(s.last().0, s.last().1)
    }
}

/// The `(token, id)` entries of a list of owned entries.
pub open spec fn entries_model(s: Seq<(String, TokenId)>) -> Seq<(Seq<char>, TokenId)> {
    s.map_values(|e: (String, TokenId)| (e.0@, e.1))
}

/// The same entries as `(id, token)`.
pub open spec fn flipped(s: Seq<(Seq<char>, TokenId)>) -> Seq<(TokenId, Seq<char>)> {
    s.map_values(|e: (Seq<char>, TokenId)| (e.1, e.0))
}

/// Token text to id, and id back to text.
pub struct Vocab {
    tokens: StringHashMap<TokenId>,
    ids: HashMapWithView<u32, String>,
}

impl Vocab {
    /// Token text to id.
    pub closed spec fn token_map(&self) -> Map<Seq<char>, TokenId> {
        self.tokens@
    }

    /// Id to token text.
    pub closed spec fn id_map(&self) -> Map<TokenId, Seq<char>> {
        self.ids@.map_values(|s: String| s@)
    }

    /// Builds the vocabulary of `entries`, later entries overriding earlier
    /// ones in both directions.
    pub fn from_entries(entries: &Vec<(String, TokenId)>) -> (v: Vocab)
        ensures
            v.token_map() == assoc_map(entries_model(entries@)),
            v.id_map() == assoc_map(flipped(entries_model(entries@))),
    {
        let mut tokens: StringHashMap<TokenId> = StringHashMap::new();
        let mut ids: HashMapWithView<u32, String> = HashMapWithView::new();
        let ghost em = entries_model(entries@);
        let mut i: usize = 0;
        while i < entries.len()
            invariant
                i <= entries.len(),
                em == entries_model(entries@),
                tokens@ == assoc_map(em.take(i as int)),
                ids@.map_values(|s: String| s@) == assoc_map(flipped(em.take(i as int))),
            decreases entries.len() - i,
        {
            let (t, id) = (&entries[i].0, entries[i].1);
            proof {
                assert(em.take(i + 1).drop_last() =~= em.take(i as int));
                assert(flipped(em.take(i + 1)).drop_last() =~= flipped(em.take(i as int)));
            }
            tokens.insert(t.clone(), id);
            let ghost before = ids@;
            ids.insert(id, t.clone());
            proof {
                assert(ids@.map_values(|s: String| s@) =~= before.map_values(|s: String| s@).insert(
                    id,
                    t@,
                ));
            }
            i = i + 1;
        }
        proof {
            assert(em.take(em.len() as int) =~= em);
        }
        Vocab { tokens, ids }
    }

    /// The id of `token`, if it is in the vocabulary.
    pub fn get(&self, token: &str) -> (r: Option<TokenId>)
        ensures
            r == self.token_map().get(token@),
    {
        match self.tokens.get(token) {
            Some(id) => Some(*id),
            None => None,
        }
    }

    /// Whether `token` is in the vocabulary.
    pub fn contains(&self, token: &str) -> (b: bool)
        ensures
            b == self.token_map().contains_key(token@),
    {
        self.tokens.contains_key(token)
    }

    /// The text of `id`, if it is in the vocabulary.
    pub fn token(&self, id: TokenId) -> (r: Option<&String>)
        ensures
            match self.id_map().get(id) {
                Some(t) => r matches Some(s) && s@ == t,
                None => r is None,
            },
    {
        self.ids.get(&id)
    }

    /// Number of distinct tokens.
    pub fn len(&self) -> (n: usize)
        ensures
            n == self.token_map().len(),
    {
        self.tokens.len()
    }

    /// Adds `token` with `id` unless `token` is already present.
    pub fn add_if_absent(&mut self, token: &String, id: TokenId)
        ensures
            old(self).token_map().contains_key(token@) ==> final(self).token_map() == old(self).token_map()
                && final(self).id_map() == old(self).id_map(),
            !old(self).token_map().contains_key(token@) ==> final(self).token_map() == old(self).token_map().insert(token@, id)
                && final(self).id_map() == old(self).id_map().insert(id, token@),
    {
        if !self.tokens.contains_key(token.as_str()) {
            self.tokens.insert(token.clone(), id);
            let ghost before = self.ids@;
            self.ids.insert(id, token.clone());
            proof {
                assert(self.ids@.map_values(|s: String| s@) =~= before.map_values(|s: String| s@).insert(
                    id,
                    token@,
                ));
            }
        }
    }
}

} // verus!
