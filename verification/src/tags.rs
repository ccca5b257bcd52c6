use vstd::prelude::*;

verus! {

/// A map from tag names to tag values, kept as a list of pairs in which
/// no name occurs twice.
#[derive(Debug)]
pub struct Tags {
    entries: Vec<(String, String)>,
}

/// No two entries share a name.
pub open spec fn distinct_names(s: Seq<(String, String)>) -> bool {
    forall|i: int, j: int|
        0 <= i < s.len() && 0 <= j < s.len() && i != j ==> #[trigger] s[i].0@ != #[trigger] s[j].0@
}

/// Whether some entry of `s` carries the name `k`.
pub open spec fn has_name(s: Seq<(String, String)>, k: Seq<char>) -> bool {
    exists|i: int| 0 <= i < s.len() && #[trigger] s[i].0@ == k
}

/// The map that a list of pairs with distinct names stands for.
pub open spec fn pairs_to_map(s: Seq<(String, String)>) -> Map<Seq<char>, Seq<char>> {
    Map::new(
        |k: Seq<char>| has_name(s, k),
        |k: Seq<char>| s[choose|i: int| 0 <= i < s.len() && #[trigger] s[i].0@ == k].1@,
    )
}

/// In a list with distinct names, the value of a name is that of its entry.
proof fn lemma_pairs_to_map_at(s: Seq<(String, String)>, i: int)
    requires
        distinct_names(s),
        0 <= i < s.len(),
    ensures
        pairs_to_map(s).contains_key(s[i].0@),
        pairs_to_map(s)[s[i].0@] == s[i].1@,
{
    let k = s[i].0@;
    assert(has_name(s, k));
    let j = choose|j: int| 0 <= j < s.len() && #[trigger] s[j].0@ == k;
    assert(j == i);
}

/// Writing the pair `(k, v)` at position `p`, over the entry named `k` or
/// just past the end when no entry is named `k`, keeps the names distinct
/// and sets `k` to `v` in the map.
proof fn lemma_set_pair(
    s0: Seq<(String, String)>,
    s1: Seq<(String, String)>,
    p: int,
    k: Seq<char>,
    v: Seq<char>,
)
    requires
        distinct_names(s0),
        0 <= p <= s0.len(),
        p < s0.len() ==> s0[p].0@ == k && s1.len() == s0.len(),
        p == s0.len() ==> !has_name(s0, k) && s1.len() == s0.len() + 1,
        s1[p].0@ == k,
        s1[p].1@ == v,
        forall|j: int| 0 <= j < s1.len() && j != p ==> #[trigger] s1[j] == s0[j],
    ensures
        distinct_names(s1),
        pairs_to_map(s1) == pairs_to_map(s0).insert(k, v),
{
    assert forall|a: int, b: int| 0 <= a < s1.len() && 0 <= b < s1.len() && a != b implies
        #[trigger] s1[a].0@ != #[trigger] s1[b].0@ by {
        if a != p && b != p {
            assert(s1[a] == s0[a] && s1[b] == s0[b]);
        } else if a == p {
            assert(s1[b] == s0[b]);
            if p < s0.len() {
                assert(s0[b].0@ != s0[p].0@);
            }
        } else {
            assert(s1[a] == s0[a]);
            if p < s0.len() {
                assert(s0[a].0@ != s0[p].0@);
            }
        }
    }
    assert forall|x: Seq<char>| #[trigger] has_name(s1, x) == (has_name(s0, x) || x == k) by {
        if has_name(s0, x) {
            let j = choose|j: int| 0 <= j < s0.len() && #[trigger] s0[j].0@ == x;
            if j != p {
                assert(s1[j] == s0[j]);
            }
            assert(s1[j].0@ == x);
        }
        if has_name(s1, x) {
            let j = choose|j: int| 0 <= j < s1.len() && #[trigger] s1[j].0@ == x;
            if j != p {
                assert(s1[j] == s0[j]);
                assert(s0[j].0@ == x);
            }
        }
    }
    assert(pairs_to_map(s1) =~= pairs_to_map(s0).insert(k, v)) by {
        assert forall|x: Seq<char>| #[trigger] has_name(s1, x) implies pairs_to_map(s1)[x]
            == pairs_to_map(s0).insert(k, v)[x] by {
            let j = choose|j: int| 0 <= j < s1.len() && #[trigger] s1[j].0@ == x;
            lemma_pairs_to_map_at(s1, j);
            if j != p {
                assert(s1[j] == s0[j]);
                lemma_pairs_to_map_at(s0, j);
            }
        }
    }
}

impl View for Tags {
    type V = Map<Seq<char>, Seq<char>>;

    closed spec fn view(&self) -> Map<Seq<char>, Seq<char>> {
        pairs_to_map(self.entries@)
    }
}

impl Tags {
    /// The pairs have distinct names.
    #[verifier::type_invariant]
    closed spec fn wf(&self) -> bool {
        distinct_names(self.entries@)
    }

    pub fn new() -> (t: Tags)
        ensures
            t@ == Map::<Seq<char>, Seq<char>>::empty(),
    {
        let t = Tags { entries: Vec::new() };
        assert(t@ =~= Map::<Seq<char>, Seq<char>>::empty());
        t
    }

    /// The position of the entry named `key`, if there is one.
    fn position(&self, key: &String) -> (r: Option<usize>)
        ensures
            match r {
                Some(i) => i < self.entries@.len() && self.entries@[i as int].0@ == key@,
                None => !has_name(self.entries@, key@),
            },
    {
        proof {
            use_type_invariant(self);
        }
        let mut i: usize = 0;
        while i < self.entries.len()
            invariant
                i <= self.entries@.len(),
                forall|j: int| 0 <= j < i ==> #[trigger] self.entries@[j].0@ != key@,
            decreases self.entries@.len() - i,
        {
            if self.entries[i].0 == *key {
                return Some(i);
            }
            i = i + 1;
        }
        None
    }

    /// The value stored under `key`.
    pub fn get(&self, key: &str) -> (r: Option<&String>)
        ensures
            match r {
                Some(v) => self@.contains_key(key@) && self@[key@] == v@,
                None => !self@.contains_key(key@),
            },
    {
        let owned = key.to_owned();
        match self.position(&owned) {
            Some(i) => {
                proof {
                    use_type_invariant(self);
                    lemma_pairs_to_map_at(self.entries@, i as int);
                }
                Some(&self.entries[i].1)
            },
            None => None,
        }
    }

    /// Stores `value` under `key`, replacing what was there.
    pub fn insert(&mut self, key: String, value: String)
        ensures
            final(self)@ == old(self)@.insert(key@, value@),
    {
        proof {
            use_type_invariant(&*self);
        }
        let ghost k = key@;
        let ghost v = value@;
        let ghost s0 = self.entries@;
        let found = self.position(&key);
        let mut entries: Vec<(String, String)> = Vec::new();
        std::mem::swap(&mut entries, &mut self.entries);
        match found {
            Some(i) => {
                entries.set(i, (key, value));
                proof {
                    lemma_set_pair(s0, entries@, i as int, k, v);
                }
            },
            None => {
                entries.push((key, value));
                proof {
                    lemma_set_pair(s0, entries@, s0.len() as int, k, v);
                }
            },
        }
        self.entries = entries;
    }

    /// Whether every pair of `self` is also a pair of `other`.
    pub fn is_submap_of(&self, other: &Tags) -> (b: bool)
        ensures
            b == self@.submap_of(other@),
    {
        proof {
            use_type_invariant(self);
        }
        let mut i: usize = 0;
        while i < self.entries.len()
            invariant
                i <= self.entries@.len(),
                distinct_names(self.entries@),
                forall|j: int|
                    0 <= j < i ==> #[trigger] other@.contains_key(self.entries@[j].0@)
                        && other@[self.entries@[j].0@] == self.entries@[j].1@,
            decreases self.entries@.len() - i,
        {
            let found = other.get(self.entries[i].0.as_str());
            let agrees = match found {
                Some(w) => *w == self.entries[i].1,
                None => false,
            };
            if !agrees {
                proof {
                    lemma_pairs_to_map_at(self.entries@, i as int);
                }
                return false;
            }
            let ghost i0 = i;
            i = i + 1;
            assert forall|j: int| 0 <= j < i implies #[trigger] other@.contains_key(self.entries@[j].0@)
                        && other@[self.entries@[j].0@] == self.entries@[j].1@ by {
                if j < i0 {
                    assert(other@.contains_key(self.entries@[j].0@));
                }
            }
        }
        proof {
            assert forall|k: Seq<char>| #[trigger] self@.dom().contains(k) implies
                #[trigger] other@.dom().contains(k) && self@[k] == other@[k] by {
                let j = choose|j: int| 0 <= j < self.entries@.len() && #[trigger] self.entries@[j].0@ == k;
                lemma_pairs_to_map_at(self.entries@, j);
            }
        }
        true
    }
    /// The pairs themselves, each name once.
    pub fn entries(&self) -> (r: &Vec<(String, String)>)
        ensures
            distinct_names(r@),
            pairs_to_map(r@) == self@,
    {
        proof {
            use_type_invariant(self);
        }
        &self.entries
    }
}

impl Clone for Tags {
    /// A copy with the same pairs.
    fn clone(&self) -> (r: Tags)
        ensures
            r@ == self@,
    {
        proof {
            use_type_invariant(self);
        }
        let mut entries: Vec<(String, String)> = Vec::new();
        let mut i: usize = 0;
        while i < self.entries.len()
            invariant
                i <= self.entries@.len(),
                entries@.len() == i,
                forall|j: int| 0 <= j < i ==> #[trigger] entries@[j] == self.entries@[j],
            decreases self.entries@.len() - i,
        {
            let k = self.entries[i].0.clone();
            let v = self.entries[i].1.clone();
            entries.push((k, v));
            i = i + 1;
        }
        assert(entries@ =~= self.entries@);
        Tags { entries }
    }
}

} // verus!
