//! The distance cache: a table from an unordered pair of country names to
//! a previously computed minimum distance in meters.
//!
//! Names are compared case-insensitively everywhere, so a pair of names
//! is canonicalized before every lookup and insert by folding ASCII case
//! and ordering the two folded names lexicographically: the two orders of
//! a pair, and all its ASCII-case variants, share one entry. Once a key
//! is present its value never changes: `insert` demands a miss, and the
//! table is only ever grown.

use vstd::prelude::*;

use crate::text::eq_ignore_case;
use crate::text::fold_lower;
use crate::text::lemma_seq_le_antisym;
use crate::text::lemma_seq_le_total;
use crate::text::seq_le;
use crate::text::str_le_fold;

verus! {

/// The canonical form of an unordered pair of names: both names folded
/// to lower ASCII case, in lexicographic order.
pub open spec fn canon_key(x: Seq<char>, y: Seq<char>) -> (Seq<char>, Seq<char>) {
    if seq_le(fold_lower(x), fold_lower(y)) {
        (fold_lower(x), fold_lower(y))
    } else {
        (fold_lower(y), fold_lower(x))
    }
}

/// Canonicalization forgets the order of the pair: both orders of the same
/// two names give the same cache key.
pub proof fn lemma_canon_key_unordered(x: Seq<char>, y: Seq<char>)
    ensures
        canon_key(x, y) == canon_key(y, x),
{
    lemma_seq_le_total(fold_lower(x), fold_lower(y));
    if seq_le(fold_lower(x), fold_lower(y)) && seq_le(fold_lower(y), fold_lower(x)) {
        lemma_seq_le_antisym(fold_lower(x), fold_lower(y));
    }
}

/// Canonicalization forgets ASCII case: any case variants of the two
/// names give the same cache key.
pub proof fn lemma_canon_key_fold(x: Seq<char>, y: Seq<char>, x2: Seq<char>, y2: Seq<char>)
    requires
        fold_lower(x2) == fold_lower(x),
        fold_lower(y2) == fold_lower(y),
    ensures
        canon_key(x2, y2) == canon_key(x, y),
{
}

/// Once a pair's distance is stored, looking the pair up in either
/// order finds that same value, with no computation in between.
pub proof fn lemma_cache_round_trip(
    m: Map<(Seq<char>, Seq<char>), u64>,
    x: Seq<char>,
    y: Seq<char>,
    d: u64,
)
    ensures
        m.insert(canon_key(x, y), d).contains_key(canon_key(y, x)),
        m.insert(canon_key(x, y), d)[canon_key(y, x)] == d,
{
    lemma_canon_key_unordered(x, y);
}

struct CacheEntry {
    a: String,
    b: String,
    dist_m: u64,
}

/// The key of one stored entry: its two names, folded to lower ASCII
/// case.
spec fn entry_key(e: CacheEntry) -> (Seq<char>, Seq<char>) {
    (fold_lower(e.a@), fold_lower(e.b@))
}

/// The mapping that a sequence of entries represents.
spec fn entries_map(s: Seq<CacheEntry>) -> Map<(Seq<char>, Seq<char>), u64>
    decreases s.len(),
{
    if s.len() == 0 {
        Map::empty()
    } else {
        entries_map(s.drop_last()).insert(entry_key(s.last()), s.last().dist_m)
    }
}

/// Every stored pair is in canonical (case-folded) order and no key is
/// stored twice.
spec fn entries_wf(s: Seq<CacheEntry>) -> bool {
    &&& forall|i: int|
        0 <= i < s.len() ==> seq_le(fold_lower(#[trigger] s[i].a@), fold_lower(s[i].b@))
    &&& forall|i: int, j: int|
        0 <= i < j < s.len() ==> entry_key(s[i]) != entry_key(s[j])
}

proof fn lemma_entries_map_get(s: Seq<CacheEntry>, i: int)
    requires
        entries_wf(s),
        0 <= i < s.len(),
    ensures
        entries_map(s).contains_key(entry_key(s[i])),
        entries_map(s)[entry_key(s[i])] == s[i].dist_m,
    decreases s.len(),
{
    if i == s.len() - 1 {
    } else {
        assert(entry_key(s[i]) != entry_key(s.last()));
        lemma_entries_map_get(s.drop_last(), i);
    }
}

proof fn lemma_entries_map_absent(s: Seq<CacheEntry>, k: (Seq<char>, Seq<char>))
    requires
        forall|i: int| 0 <= i < s.len() ==> entry_key(#[trigger] s[i]) != k,
    ensures
        !entries_map(s).contains_key(k),
    decreases s.len(),
{
    if s.len() > 0 {
        lemma_entries_map_absent(s.drop_last(), k);
    }
}

proof fn lemma_entries_map_dom_len(s: Seq<CacheEntry>)
    requires
        entries_wf(s),
    ensures
        entries_map(s).dom().len() == s.len(),
        entries_map(s).dom().finite(),
    decreases s.len(),
{
    if s.len() > 0 {
        lemma_entries_map_dom_len(s.drop_last());
        lemma_entries_map_absent(s.drop_last(), entry_key(s.last()));
    }
}

/// The pairwise distance cache. Its view is the mapping from canonical
/// name pairs to distances in meters.
pub struct DistanceCache {
    entries: Vec<CacheEntry>,
}

impl View for DistanceCache {
    type V = Map<(Seq<char>, Seq<char>), u64>;

    closed spec fn view(&self) -> Map<(Seq<char>, Seq<char>), u64> {
        entries_map(self.entries@)
    }
}

impl DistanceCache {
    /// The cache's internal invariant.
    pub closed spec fn wf(&self) -> bool {
        entries_wf(self.entries@)
    }

    /// An empty cache.
    pub fn new() -> (r: DistanceCache)
        ensures
            r.wf(),
            r@ == Map::<(Seq<char>, Seq<char>), u64>::empty(),
    {
        DistanceCache { entries: Vec::new() }
    }

    /// How many unordered pairs have a stored distance.
    pub fn len(&self) -> (r: usize)
        requires
            self.wf(),
        ensures
            r == self@.dom().len(),
    {
        proof {
            lemma_entries_map_dom_len(self.entries@);
        }
        self.entries.len()
    }

    /// The stored distance for the unordered pair `(x, y)`, in either
    /// order and under any ASCII case, without any computation.
    pub fn lookup(&self, x: &str, y: &str) -> (r: Option<u64>)
        requires
            self.wf(),
        ensures
            match r {
                Some(d) => self@.contains_key(canon_key(x@, y@)) && self@[canon_key(x@, y@)]
                    == d,
                None => !self@.contains_key(canon_key(x@, y@)),
            },
    {
        let (lo, hi): (&str, &str) = if str_le_fold(x, y) {
            (x, y)
        } else {
            (y, x)
        };
        proof {
            lemma_seq_le_total(fold_lower(x@), fold_lower(y@));
            if seq_le(fold_lower(x@), fold_lower(y@)) && seq_le(fold_lower(y@), fold_lower(x@)) {
                lemma_seq_le_antisym(fold_lower(x@), fold_lower(y@));
            }
        }
        let ghost k = canon_key(x@, y@);
        let mut i: usize = 0;
        while i < self.entries.len()
            invariant
                self.wf(),
                i <= self.entries@.len(),
                k == canon_key(x@, y@),
                k == (fold_lower(lo@), fold_lower(hi@)),
                forall|j: int| 0 <= j < i ==> entry_key(#[trigger] self.entries@[j]) != k,
            decreases self.entries@.len() - i,
        {
            if eq_ignore_case(self.entries[i].a.as_str(), lo) && eq_ignore_case(
                self.entries[i].b.as_str(),
                hi,
            ) {
                proof {
                    lemma_entries_map_get(self.entries@, i as int);
                }
                return Some(self.entries[i].dist_m);
            }
            i = i + 1;
        }
        proof {
            lemma_entries_map_absent(self.entries@, k);
        }
        None
    }

    /// Stores the distance for the unordered pair `(x, y)`. Only a pair
    /// without a stored distance can be inserted, so an entry, once
    /// present, never changes.
    pub fn insert(&mut self, x: &str, y: &str, dist_m: u64)
        requires
            old(self).wf(),
            !old(self)@.contains_key(canon_key(x@, y@)),
        ensures
            final(self).wf(),
            final(self)@ == old(self)@.insert(canon_key(x@, y@), dist_m),
    {
        let (lo, hi): (&str, &str) = if str_le_fold(x, y) {
            (x, y)
        } else {
            (y, x)
        };
        proof {
            lemma_seq_le_total(fold_lower(x@), fold_lower(y@));
            if seq_le(fold_lower(x@), fold_lower(y@)) && seq_le(fold_lower(y@), fold_lower(x@)) {
                lemma_seq_le_antisym(fold_lower(x@), fold_lower(y@));
            }
        }
        let entry = CacheEntry { a: String::from_str(lo), b: String::from_str(hi), dist_m };
        proof {
            assert(entry_key(entry) == canon_key(x@, y@));
            assert forall|i: int| 0 <= i < self.entries@.len() implies entry_key(
                #[trigger] self.entries@[i],
            ) != entry_key(entry) by {
                lemma_entries_map_get(self.entries@, i);
            }
        }
        self.entries.push(entry);
        proof {
            assert(self.entries@.drop_last() =~= old(self).entries@);
            assert(self.entries@.last() == entry);
        }
    }
}

} // verus!
