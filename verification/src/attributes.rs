use vstd::prelude::*;

use crate::text::str_eq;

verus! {

/// The map that a sequence of (name, value) insertions builds, later
/// insertions overwriting earlier ones.
pub open spec fn pairs_to_map<V>(s: Seq<(Seq<char>, V)>) -> Map<Seq<char>, V>
    decreases s.len(),
{
    if s.len() == 0 {
        Map::empty()
    } else {
        pairs_to_map(s.drop_last()).insert(s.last().0, s.last().1)
    }
}

/// `pairs_to_map` for optional values, the shape block attributes use.
pub open spec fn pairs_to_map_opt(s: Seq<(Seq<char>, Option<Seq<char>>)>) -> Map<
    Seq<char>,
    Option<Seq<char>>,
> {
    pairs_to_map(s)
}

/// A case-sensitive mapping from attribute name to value, used by the
/// preprocessor to evaluate conditional directives.
#[derive(Debug)]
pub struct AttributeMap {
    items: Vec<(String, String)>,
}

impl View for AttributeMap {
    type V = Map<Seq<char>, Seq<char>>;

    closed spec fn view(&self) -> Map<Seq<char>, Seq<char>> {
        pairs_to_map(self.items.deep_view())
    }
}

impl Default for AttributeMap {
    /// The empty attribute map.
    fn default() -> (r: Self)
        ensures
            r@ == Map::<Seq<char>, Seq<char>>::empty(),
    {
        AttributeMap { items: Vec::new() }
    }
}

impl AttributeMap {
    /// Build a map from a list of (name, value) pairs; a repeated name
    /// keeps the value of its last pair.
    pub fn from_pairs(pairs: Vec<(String, String)>) -> (r: Self)
        ensures
            r@ == pairs_to_map(pairs.deep_view()),
    {
        AttributeMap { items: pairs }
    }

    /// Whether `name` is present.
    pub fn contains(&self, name: &str) -> (r: bool)
        ensures
            r == self@.dom().contains(name@),
    {
        self.get(name).is_some()
    }

    /// The value of `name`, if present.
    pub fn get(&self, name: &str) -> (r: Option<&String>)
        ensures
            match r {
                Some(v) => self@.dom().contains(name@) && v@ == self@[name@],
                None => !self@.dom().contains(name@),
            },
    {
        let n = self.items.len();
        let mut i: usize = n;
        while i > 0
            invariant
                i <= n == self.items.len(),
                forall|j: int| i <= j < n ==> self.items.deep_view()[j].0 != name@,
        decreases i,
        {
            i = i - 1;
            if str_eq(self.items[i].0.as_str(), name) {
                proof {
                    lemma_pairs_to_map_found(self.items.deep_view(), name@, i as int);
                }
                return Some(&self.items[i].1);
            }
        }
        proof {
            lemma_pairs_to_map_absent(self.items.deep_view(), name@);
        }
        None
    }

    /// Insert `name` with `value`; a duplicate insert overwrites.
    pub fn insert(&mut self, name: String, value: String)
        ensures
            final(self)@ == old(self)@.insert(name@, value@),
    {
        let ghost before = self.items.deep_view();
        self.items.push((name, value));
        proof {
            assert(self.items.deep_view().drop_last() =~= before);
        }
    }
}

/// If position `i` holds the last pair named `k`, the map sends `k` to its value.
pub proof fn lemma_pairs_to_map_found<V>(s: Seq<(Seq<char>, V)>, k: Seq<char>, i: int)
    requires
        0 <= i < s.len(),
        s[i].0 == k,
        forall|j: int| i < j < s.len() ==> s[j].0 != k,
    ensures
        pairs_to_map(s).dom().contains(k),
        pairs_to_map(s)[k] == s[i].1,
    decreases s.len(),
{
    if i == s.len() - 1 {
    } else {
        lemma_pairs_to_map_found(s.drop_last(), k, i);
    }
}

/// A name that no pair holds is not in the map.
pub proof fn lemma_pairs_to_map_absent<V>(s: Seq<(Seq<char>, V)>, k: Seq<char>)
    requires
        forall|j: int| 0 <= j < s.len() ==> s[j].0 != k,
    ensures
        !pairs_to_map(s).dom().contains(k),
    decreases s.len(),
{
    if s.len() > 0 {
        lemma_pairs_to_map_absent(s.drop_last(), k);
    }
}

} // verus!
