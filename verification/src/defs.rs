//! The definitions mapping: a case-insensitive map from string key to
//! string value.  Keys are canonicalized to lowercase at insertion and at
//! lookup time; a later insertion for the same canonical key overwrites an
//! earlier one.

use vstd::prelude::*;

verus! {

/// The canonical (lowercased) form of a key.  Stands for what
/// `str::to_lowercase` returns: a function of the characters alone.
pub uninterp spec fn lower_of(s: Seq<char>) -> Seq<char>;

/// Relies on `str::to_lowercase`: the result depends on the characters
/// alone.
#[verifier::external_body]
fn fold_case(s: &str) -> (r: String)
    ensures
        r@ == lower_of(s@),
{
    s.to_lowercase()
}

/// What a lookup of `key` yields in the canonical-key map `m`.
pub open spec fn spec_lookup(m: Map<Seq<char>, Seq<char>>, key: Seq<char>) -> Option<Seq<char>> {
    if m.contains_key(lower_of(key)) {
        Some(m[lower_of(key)])
    } else {
        None
    }
}

/// A case-insensitive key/value mapping, immutable once built and only
/// read during interpolation.
pub struct Defs {
    pairs: Vec<(String, String)>,
}

/// The map described by a pair list: each pair binds its (already
/// canonical) key, later pairs overwriting earlier ones.
pub open spec fn map_of(s: Seq<(String, String)>) -> Map<Seq<char>, Seq<char>>
    decreases s.len(),
{
    if s.len() == 0 {
        Map::empty()
    } else {
        map_of(s.drop_last()).insert(s.last().0@, s.last().1@)
    }
}

impl View for Defs {
    type V = Map<Seq<char>, Seq<char>>;

    closed spec fn view(&self) -> Map<Seq<char>, Seq<char>> {
        map_of(self.pairs@)
    }
}

/// The map built by inserting the given raw pairs in order, canonicalizing
/// each key; later pairs overwrite earlier ones.
pub open spec fn defs_of_pairs(s: Seq<(String, String)>) -> Map<Seq<char>, Seq<char>>
    decreases s.len(),
{
    if s.len() == 0 {
        Map::empty()
    } else {
        defs_of_pairs(s.drop_last()).insert(lower_of(s.last().0@), s.last().1@)
    }
}

impl Defs {
    /// An empty mapping.
    pub fn new() -> (d: Defs)
        ensures
            d@ == Map::<Seq<char>, Seq<char>>::empty(),
    {
        Defs { pairs: Vec::new() }
    }

    /// Binds `key` (canonicalized) to `value`, overwriting any earlier
    /// binding of the same canonical key.
    pub fn insert(&mut self, key: &str, value: String)
        ensures
            final(self)@ == old(self)@.insert(lower_of(key@), value@),
    {
        let folded = fold_case(key);
        let ghost gk = folded@;
        let ghost gv = value@;
        self.pairs.push((folded, value));
        proof {
            assert(self.pairs@.drop_last() =~= old(self).pairs@);
            assert(self.pairs@.last().0@ == gk);
            assert(self.pairs@.last().1@ == gv);
        }
    }

    /// The value bound to `key` under case-insensitive comparison, if any.
    pub fn lookup(&self, key: &str) -> (r: Option<String>)
        ensures
            match spec_lookup(self@, key@) {
                Some(v) => r matches Some(x) && x@ == v,
                None => r is None,
            },
    {
        let folded = fold_case(key);
        proof {
            assert(self.pairs@.subrange(0, self.pairs@.len() as int) =~= self.pairs@);
        }
        let mut i = self.pairs.len();
        while i > 0
            invariant
                i <= self.pairs@.len(),
                folded@ == lower_of(key@),
                map_of(self.pairs@).get(lower_of(key@)) == map_of(
                    self.pairs@.subrange(0, i as int),
                ).get(lower_of(key@)),
            decreases i,
        {
            let j = i - 1;
            proof {
                assert(self.pairs@.subrange(0, i as int).drop_last() =~= self.pairs@.subrange(
                    0,
                    j as int,
                ));
                assert(self.pairs@.subrange(0, i as int).last() == self.pairs@[j as int]);
                assert(map_of(self.pairs@.subrange(0, i as int)) == map_of(
                    self.pairs@.subrange(0, j as int),
                ).insert(self.pairs@[j as int].0@, self.pairs@[j as int].1@));
            }
            if self.pairs[j].0.eq(&folded) {
                return Some(self.pairs[j].1.clone());
            }
            i = j;
        }
        proof {
            assert(self.pairs@.subrange(0, 0) =~= Seq::<(String, String)>::empty());
            assert(map_of(Seq::<(String, String)>::empty()) == Map::<Seq<char>, Seq<char>>::empty());
        }
        None
    }

    /// Builds a mapping from raw key/value pairs (for instance a snapshot
    /// of the process environment), inserting them in order so that a
    /// later pair overwrites an earlier one with the same canonical key.
    pub fn from_pairs(pairs: Vec<(String, String)>) -> (d: Defs)
        ensures
            d@ == defs_of_pairs(pairs@),
    {
        let mut d = Defs::new();
        let mut i: usize = 0;
        while i < pairs.len()
            invariant
                i <= pairs@.len(),
                d@ == defs_of_pairs(pairs@.subrange(0, i as int)),
            decreases pairs@.len() - i,
        {
            d.insert(pairs[i].0.as_str(), pairs[i].1.clone());
            i = i + 1;
            proof {
                assert(pairs@.subrange(0, i as int).drop_last() =~= pairs@.subrange(0, i - 1));
                assert(pairs@.subrange(0, i as int).last() == pairs@[i - 1]);
            }
        }
        proof {
            assert(pairs@.subrange(0, pairs@.len() as int) =~= pairs@);
        }
        d
    }
}

/// Lookup is case-insensitive: two keys with the same canonical form
/// resolve to the same value (or both to none).
pub proof fn lemma_lookup_case_insensitive(
    m: Map<Seq<char>, Seq<char>>,
    k1: Seq<char>,
    k2: Seq<char>,
)
    requires
        lower_of(k1) == lower_of(k2),
    ensures
        spec_lookup(m, k1) == spec_lookup(m, k2),
{
}

} // verus!
