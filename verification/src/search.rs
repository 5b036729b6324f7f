//! Candidate search: which countries are consistent with a guessed
//! country and an approximate distance, widening the tolerance band step
//! by step until a candidate appears or the ceiling is reached.

use vstd::prelude::*;

use crate::cache::canon_key;
use crate::cache::lemma_canon_key_unordered;
use crate::cache::DistanceCache;
use crate::geometry::is_min_dist;
use crate::geometry::lemma_is_min_dist_sym;
use crate::geometry::lemma_min_dist_of_eq;
use crate::geometry::min_dist_of;
use crate::geometry::min_distance_m;
use crate::store::lemma_store_fold_name_index;
use crate::store::lemma_store_name_index;
use crate::store::BoundaryStore;
use crate::store::CountryBoundary;
use crate::text::eq_ignore_case;
use crate::text::fold_lower;

verus! {

/// The ceiling of the margin-expansion loop, in meters.
pub const MAX_MARGIN_M: u64 = 100000;

/// The step by which the margin grows on each retry, in meters.
pub const MARGIN_STEP_M: u64 = 1000;

/// Two names match one unordered pair of names, without regard to ASCII
/// case.
pub open spec fn unordered_name_match(
    a: Seq<char>,
    b: Seq<char>,
    x: Seq<char>,
    y: Seq<char>,
) -> bool {
    (fold_lower(a) == fold_lower(x) && fold_lower(b) == fold_lower(y)) || (fold_lower(a)
        == fold_lower(y) && fold_lower(b) == fold_lower(x))
}

/// The fixed unordered pairs (enclaves, exclaves and dependencies) that
/// count as a match whatever their measured distance says.
pub open spec fn special_pair(a: Seq<char>, b: Seq<char>) -> bool {
    ||| unordered_name_match(a, b, "South Africa"@, "Lesotho"@)
    ||| unordered_name_match(a, b, "Italy"@, "Vatican"@)
    ||| unordered_name_match(a, b, "Italy"@, "San Marino"@)
    ||| unordered_name_match(a, b, "France"@, "Monaco"@)
    ||| unordered_name_match(a, b, "Spain"@, "Gibraltar"@)
    ||| unordered_name_match(a, b, "China"@, "Hong Kong"@)
    ||| unordered_name_match(a, b, "China"@, "Macau"@)
}

/// Whether two names match one given unordered pair.
fn pair_matches(a: &str, b: &str, x: &str, y: &str) -> (r: bool)
    ensures
        r == unordered_name_match(a@, b@, x@, y@),
{
    (eq_ignore_case(a, x) && eq_ignore_case(b, y)) || (eq_ignore_case(a, y) && eq_ignore_case(
        b,
        x,
    ))
}

/// Whether two countries form one of the fixed special pairs.
pub fn is_special_case(a: &str, b: &str) -> (r: bool)
    ensures
        r == special_pair(a@, b@),
{
    pair_matches(a, b, "South Africa", "Lesotho") || pair_matches(a, b, "Italy", "Vatican")
        || pair_matches(a, b, "Italy", "San Marino") || pair_matches(a, b, "France", "Monaco")
        || pair_matches(a, b, "Spain", "Gibraltar") || pair_matches(a, b, "China", "Hong Kong")
        || pair_matches(a, b, "China", "Macau")
}

/// A distance lies within the tolerance band around the target.
pub open spec fn in_band(d: u64, target_m: u64, margin_m: u64) -> bool {
    target_m - margin_m <= d as int && d as int <= target_m + margin_m
}

/// Every stored distance is the true minimum distance between two
/// countries of the store whose names form the entry's key.
pub open spec fn cache_consistent(
    c: Map<(Seq<char>, Seq<char>), u64>,
    s: Seq<CountryBoundary>,
) -> bool {
    forall|k: (Seq<char>, Seq<char>)| #[trigger]
        c.contains_key(k) ==> exists|i: int, j: int|
            0 <= i < s.len() && 0 <= j < s.len() && canon_key(
                #[trigger] s[i].name@,
                #[trigger] s[j].name@,
            ) == k && is_min_dist(s[i].points@, s[j].points@, c[k])
}

/// The country at `i` is a candidate for the guess at `g` under this
/// target and margin: it is another country, and either the pair is
/// special or both boundaries have vertices and their true minimum
/// distance lies within the band.
pub open spec fn is_candidate(
    s: Seq<CountryBoundary>,
    g: int,
    i: int,
    target_m: u64,
    margin_m: u64,
) -> bool {
    &&& 0 <= i < s.len()
    &&& i != g
    &&& {
        ||| special_pair(s[g].name@, s[i].name@)
        ||| (s[g].points@.len() > 0 && s[i].points@.len() > 0 && in_band(
            min_dist_of(s[g].points@, s[i].points@),
            target_m,
            margin_m,
        ))
    }
}

/// The names of the candidates among the first `n` countries, in store
/// order.
pub open spec fn candidate_names_upto(
    s: Seq<CountryBoundary>,
    g: int,
    target_m: u64,
    margin_m: u64,
    n: int,
) -> Seq<Seq<char>>
    decreases n,
{
    if n <= 0 {
        Seq::empty()
    } else if is_candidate(s, g, n - 1, target_m, margin_m) {
        candidate_names_upto(s, g, target_m, margin_m, n - 1).push(s[n - 1].name@)
    } else {
        candidate_names_upto(s, g, target_m, margin_m, n - 1)
    }
}

/// The names of all candidates, in store order.
pub open spec fn candidate_names(
    s: Seq<CountryBoundary>,
    g: int,
    target_m: u64,
    margin_m: u64,
) -> Seq<Seq<char>> {
    candidate_names_upto(s, g, target_m, margin_m, s.len() as int)
}

/// Every name in the candidate list names a candidate: a country other
/// than the guess whose pair with the guess is special, or whose
/// boundaries are both non-empty and whose true minimum distance to the
/// guess lies within the band.
pub proof fn lemma_candidate_names_sound(
    s: Seq<CountryBoundary>,
    g: int,
    target_m: u64,
    margin_m: u64,
    n: int,
    k: int,
)
    requires
        0 <= n <= s.len(),
        0 <= k < candidate_names_upto(s, g, target_m, margin_m, n).len(),
    ensures
        exists|i: int| #[trigger]
            is_candidate(s, g, i, target_m, margin_m) && candidate_names_upto(
                s,
                g,
                target_m,
                margin_m,
                n,
            )[k] == s[i].name@,
    decreases n,
{
    let c = candidate_names_upto(s, g, target_m, margin_m, n);
    let prev = candidate_names_upto(s, g, target_m, margin_m, n - 1);
    if n > 0 && is_candidate(s, g, n - 1, target_m, margin_m) && k == prev.len() {
        assert(is_candidate(s, g, n - 1, target_m, margin_m) && c[k] == s[n - 1].name@);
    } else {
        lemma_candidate_names_sound(s, g, target_m, margin_m, n - 1, k);
        let i = choose|i: int| #[trigger]
            is_candidate(s, g, i, target_m, margin_m) && prev[k] == s[i].name@;
        assert(is_candidate(s, g, i, target_m, margin_m) && c[k] == s[i].name@);
    }
}

/// Every candidate's name is in the candidate list: a country other
/// than the guess that is special with it, or within the band, is never
/// left out.
pub proof fn lemma_candidate_names_complete(
    s: Seq<CountryBoundary>,
    g: int,
    target_m: u64,
    margin_m: u64,
    n: int,
    i: int,
)
    requires
        is_candidate(s, g, i, target_m, margin_m),
        i < n <= s.len(),
    ensures
        candidate_names_upto(s, g, target_m, margin_m, n).contains(s[i].name@),
    decreases n,
{
    let c = candidate_names_upto(s, g, target_m, margin_m, n);
    if i == n - 1 {
        assert(c.last() == s[i].name@);
    } else {
        lemma_candidate_names_complete(s, g, target_m, margin_m, n - 1, i);
        let prev = candidate_names_upto(s, g, target_m, margin_m, n - 1);
        let k = choose|k: int| 0 <= k < prev.len() && prev[k] == s[i].name@;
        assert(c[k] == s[i].name@);
    }
}

/// A country without boundary vertices is never a candidate and its
/// name never appears in the candidate list, unless its pair with the
/// guess is one of the fixed special pairs (those match regardless of
/// geometry). Each other country's candidacy is fixed by its own entry
/// and the guess's alone, so such a country cannot disturb the search
/// for the others.
pub proof fn lemma_empty_boundary_never_candidate(
    s: Seq<CountryBoundary>,
    g: int,
    target_m: u64,
    margin_m: u64,
    i: int,
)
    requires
        crate::store::store_wf(s),
        0 <= g < s.len(),
        0 <= i < s.len(),
        s[i].points@.len() == 0,
        !special_pair(s[g].name@, s[i].name@),
    ensures
        !is_candidate(s, g, i, target_m, margin_m),
        !candidate_names(s, g, target_m, margin_m).contains(s[i].name@),
{
    let c = candidate_names(s, g, target_m, margin_m);
    if c.contains(s[i].name@) {
        let k = choose|k: int| 0 <= k < c.len() && c[k] == s[i].name@;
        lemma_candidate_names_sound(s, g, target_m, margin_m, s.len() as int, k);
        let j = choose|j: int| #[trigger]
            is_candidate(s, g, j, target_m, margin_m) && candidate_names_upto(
                s,
                g,
                target_m,
                margin_m,
                s.len() as int,
            )[k] == s[j].name@;
        lemma_store_name_index(s, j, i);
        assert(false);
    }
}

/// One pass of the candidate filter at a fixed margin: the names, in
/// store order, of every country other than the guess whose distance to
/// the guess lies within the band, or whose pair with the guess is
/// special. Distances come from the cache; a missing pair is computed
/// once and stored, and a country without boundary vertices yields no
/// distance and never matches.
pub fn find_mystery_countries(
    store: &BoundaryStore,
    guessed: usize,
    target_m: u64,
    margin_m: u64,
    cache: &mut DistanceCache,
) -> (r: Vec<String>)
    requires
        store.wf(),
        guessed < store@.len(),
        old(cache).wf(),
        cache_consistent(old(cache)@, store@),
    ensures
        final(cache).wf(),
        cache_consistent(final(cache)@, store@),
        forall|k: (Seq<char>, Seq<char>)| #[trigger]
            old(cache)@.contains_key(k) ==> final(cache)@.contains_key(k) && final(cache)@[k]
                == old(cache)@[k],
        r@.map_values(|n: String| n@) == candidate_names(store@, guessed as int, target_m, margin_m),
        forall|i: int|
            0 <= i < store@.len() && i != guessed && !special_pair(
                store@[guessed as int].name@,
                #[trigger] store@[i].name@,
            ) && store@[guessed as int].points@.len() > 0 && store@[i].points@.len() > 0
                ==> final(cache)@.contains_key(canon_key(store@[guessed as int].name@, store@[i].name@)),
        forall|k: (Seq<char>, Seq<char>)|
            #[trigger] final(cache)@.contains_key(k) && !old(cache)@.contains_key(k)
                ==> exists|i: int|
                0 <= i < store@.len() && i != guessed && k == canon_key(
                    store@[guessed as int].name@,
                    #[trigger] store@[i].name@,
                ) && is_min_dist(
                    store@[guessed as int].points@,
                    store@[i].points@,
                    final(cache)@[k],
                ),
{
    let g = guessed;
    let mut result: Vec<String> = Vec::new();
    let mut i: usize = 0;
    while i < store.len()
        invariant
            store.wf(),
            g < store@.len(),
            i <= store@.len(),
            cache.wf(),
            cache_consistent(cache@, store@),
            forall|k: (Seq<char>, Seq<char>)| #[trigger]
                old(cache)@.contains_key(k) ==> cache@.contains_key(k) && cache@[k] == old(
                    cache,
                )@[k],
            result@.map_values(|n: String| n@) == candidate_names_upto(
                store@,
                g as int,
                target_m,
                margin_m,
                i as int,
            ),
            forall|j: int|
                0 <= j < i && j != g && !special_pair(
                    store@[g as int].name@,
                    #[trigger] store@[j].name@,
                ) && store@[g as int].points@.len() > 0 && store@[j].points@.len() > 0
                    ==> cache@.contains_key(canon_key(store@[g as int].name@, store@[j].name@)),
            forall|k: (Seq<char>, Seq<char>)|
                #[trigger] cache@.contains_key(k) && !old(cache)@.contains_key(k)
                    ==> exists|j: int|
                    0 <= j < store@.len() && j != g && k == canon_key(
                        store@[g as int].name@,
                        #[trigger] store@[j].name@,
                    ) && is_min_dist(store@[g as int].points@, store@[j].points@, cache@[k]),
        decreases store@.len() - i,
    {
        let ghost prev = result@;
        if i != g {
            let matched: bool;
            if is_special_case(
                store.country_name(g).as_str(),
                store.country_name(i).as_str(),
            ) {
                matched = true;
            } else {
                let d_opt: Option<u64> = match cache.lookup(
                    store.country_name(g).as_str(),
                    store.country_name(i).as_str(),
                ) {
                    Some(d) => {
                        proof {
                            lemma_cached_distance(cache@, store@, g as int, i as int, d);
                        }
                        Some(d)
                    },
                    None => {
                        match min_distance_m(
                            store.country_points(g),
                            store.country_points(i),
                        ) {
                            Some(d) => {
                                let ghost pre = cache@;
                                cache.insert(
                                    store.country_name(g).as_str(),
                                    store.country_name(i).as_str(),
                                    d,
                                );
                                proof {
                                    let k = canon_key(
                                        store@[g as int].name@,
                                        store@[i as int].name@,
                                    );
                                    assert forall|k2: (Seq<char>, Seq<char>)| #[trigger]
                                        cache@.contains_key(k2) implies exists|x: int, y: int|
                                        0 <= x < store@.len() && 0 <= y < store@.len()
                                            && canon_key(
                                            #[trigger] store@[x].name@,
                                            #[trigger] store@[y].name@,
                                        ) == k2 && is_min_dist(
                                            store@[x].points@,
                                            store@[y].points@,
                                            cache@[k2],
                                        ) by {
                                        if k2 == k {
                                            assert(canon_key(
                                                store@[g as int].name@,
                                                store@[i as int].name@,
                                            ) == k2 && is_min_dist(
                                                store@[g as int].points@,
                                                store@[i as int].points@,
                                                cache@[k2],
                                            ));
                                        } else {
                                            assert(pre.contains_key(k2));
                                        }
                                    }
                                    assert forall|k2: (Seq<char>, Seq<char>)| #[trigger]
                                        cache@.contains_key(k2) && !old(cache)@.contains_key(
                                        k2,
                                    ) implies exists|j: int|
                                        0 <= j < store@.len() && j != g && k2 == canon_key(
                                            store@[g as int].name@,
                                            #[trigger] store@[j].name@,
                                        ) && is_min_dist(
                                            store@[g as int].points@,
                                            store@[j].points@,
                                            cache@[k2],
                                        ) by {
                                        if k2 == k {
                                            assert(0 <= i < store@.len() && i != g && k2
                                                == canon_key(
                                                store@[g as int].name@,
                                                store@[i as int].name@,
                                            ) && is_min_dist(
                                                store@[g as int].points@,
                                                store@[i as int].points@,
                                                cache@[k2],
                                            ));
                                        } else {
                                            assert(pre.contains_key(k2));
                                            assert(cache@[k2] == pre[k2]);
                                            let j2 = choose|j2: int|
                                                0 <= j2 < store@.len() && j2 != g && k2
                                                    == canon_key(
                                                    store@[g as int].name@,
                                                    #[trigger] store@[j2].name@,
                                                ) && is_min_dist(
                                                    store@[g as int].points@,
                                                    store@[j2].points@,
                                                    pre[k2],
                                                );
                                            assert(0 <= j2 < store@.len() && j2 != g && k2
                                                == canon_key(
                                                store@[g as int].name@,
                                                store@[j2].name@,
                                            ) && is_min_dist(
                                                store@[g as int].points@,
                                                store@[j2].points@,
                                                cache@[k2],
                                            ));
                                        }
                                    }
                                }
                                Some(d)
                            },
                            None => None,
                        }
                    },
                };
                match d_opt {
                    Some(d) => {
                        proof {
                            lemma_min_dist_of_eq(
                                store@[g as int].points@,
                                store@[i as int].points@,
                                d,
                            );
                        }
                        matched = (d as u128) + (margin_m as u128) >= (target_m as u128) && (d
                            as u128) <= (target_m as u128) + (margin_m as u128);
                    },
                    None => {
                        matched = false;
                    },
                }
            }
            if matched {
                result.push(store.country_name(i).clone());
                proof {
                    assert(result@.map_values(|n: String| n@) =~= prev.map_values(
                        |n: String| n@,
                    ).push(store@[i as int].name@));
                }
            }
        }
        proof {
            assert(candidate_names_upto(store@, g as int, target_m, margin_m, i + 1)
                == if is_candidate(store@, g as int, i as int, target_m, margin_m) {
                    candidate_names_upto(store@, g as int, target_m, margin_m, i as int).push(
                        store@[i as int].name@,
                    )
                } else {
                    candidate_names_upto(store@, g as int, target_m, margin_m, i as int)
                });
        }
        i = i + 1;
    }
    result
}

/// A finished run of the margin-expansion loop: starting from
/// `initial_margin_m` the margin was widened `steps` times by
/// `MARGIN_STEP_M`, every margin before the last held no candidate at
/// all, and the margin was only ever widened while still under the
/// ceiling.
pub open spec fn expansion_trace(
    s: Seq<CountryBoundary>,
    g: int,
    target_m: u64,
    initial_margin_m: u64,
    final_margin_m: u64,
    steps: int,
) -> bool {
    &&& 0 <= steps
    &&& final_margin_m == initial_margin_m + steps * MARGIN_STEP_M
    &&& forall|j: int|
        0 <= j < steps ==> #[trigger] candidate_names(
            s,
            g,
            target_m,
            (initial_margin_m + j * MARGIN_STEP_M) as u64,
        ).len() == 0
    &&& steps > 0 ==> initial_margin_m + (steps - 1) * MARGIN_STEP_M < MAX_MARGIN_M
}

/// The margin-expansion search: evaluates the candidate filter at the
/// starting margin and, as long as it comes back empty and the margin is
/// still under the ceiling, widens the margin by one step and retries.
/// Returns the final candidate list and the margin actually used; an
/// empty list comes back only once the margin has reached the ceiling.
pub fn find_candidates(
    store: &BoundaryStore,
    guessed: usize,
    target_m: u64,
    initial_margin_m: u64,
    cache: &mut DistanceCache,
) -> (r: (Vec<String>, u64))
    requires
        store.wf(),
        guessed < store@.len(),
        old(cache).wf(),
        cache_consistent(old(cache)@, store@),
    ensures
        final(cache).wf(),
        cache_consistent(final(cache)@, store@),
        forall|k: (Seq<char>, Seq<char>)| #[trigger]
            old(cache)@.contains_key(k) ==> final(cache)@.contains_key(k) && final(cache)@[k]
                == old(cache)@[k],
        forall|k: (Seq<char>, Seq<char>)|
            #[trigger] final(cache)@.contains_key(k) && !old(cache)@.contains_key(k)
                ==> exists|i: int|
                0 <= i < store@.len() && i != guessed && k == canon_key(
                    store@[guessed as int].name@,
                    #[trigger] store@[i].name@,
                ) && is_min_dist(
                    store@[guessed as int].points@,
                    store@[i].points@,
                    final(cache)@[k],
                ),
        r.0@.map_values(|n: String| n@) == candidate_names(store@, guessed as int, target_m, r.1),
        r.0@.len() > 0 || r.1 >= MAX_MARGIN_M,
        r.1 >= initial_margin_m,
        exists|steps: int| #[trigger]
            expansion_trace(store@, guessed as int, target_m, initial_margin_m, r.1, steps),
{
    let mut margin: u64 = initial_margin_m;
    let ghost mut steps: int = 0;
    loop
        invariant
            store.wf(),
            guessed < store@.len(),
            cache.wf(),
            cache_consistent(cache@, store@),
            forall|k: (Seq<char>, Seq<char>)| #[trigger]
                old(cache)@.contains_key(k) ==> cache@.contains_key(k) && cache@[k] == old(
                    cache,
                )@[k],
            forall|k: (Seq<char>, Seq<char>)|
                #[trigger] cache@.contains_key(k) && !old(cache)@.contains_key(k)
                    ==> exists|i: int|
                    0 <= i < store@.len() && i != guessed && k == canon_key(
                        store@[guessed as int].name@,
                        #[trigger] store@[i].name@,
                    ) && is_min_dist(store@[guessed as int].points@, store@[i].points@, cache@[k]),
            0 <= steps,
            margin == initial_margin_m + steps * MARGIN_STEP_M,
            forall|j: int|
                0 <= j < steps ==> #[trigger] candidate_names(
                    store@,
                    guessed as int,
                    target_m,
                    (initial_margin_m + j * MARGIN_STEP_M) as u64,
                ).len() == 0,
            steps > 0 ==> initial_margin_m + (steps - 1) * MARGIN_STEP_M < MAX_MARGIN_M,
        decreases MAX_MARGIN_M as int + MARGIN_STEP_M as int - margin as int,
    {
        let ghost pre = cache@;
        let names = find_mystery_countries(store, guessed, target_m, margin, cache);
        proof {
            assert forall|k: (Seq<char>, Seq<char>)|
                #[trigger] cache@.contains_key(k) && !old(cache)@.contains_key(k) implies exists|
                i: int,
            |
                0 <= i < store@.len() && i != guessed && k == canon_key(
                    store@[guessed as int].name@,
                    #[trigger] store@[i].name@,
                ) && is_min_dist(
                    store@[guessed as int].points@,
                    store@[i].points@,
                    cache@[k],
                ) by {
                if pre.contains_key(k) {
                    let i2 = choose|i2: int|
                        0 <= i2 < store@.len() && i2 != guessed && k == canon_key(
                            store@[guessed as int].name@,
                            #[trigger] store@[i2].name@,
                        ) && is_min_dist(
                            store@[guessed as int].points@,
                            store@[i2].points@,
                            pre[k],
                        );
                    assert(cache@[k] == pre[k]);
                    assert(0 <= i2 < store@.len() && i2 != guessed && k == canon_key(
                        store@[guessed as int].name@,
                        store@[i2].name@,
                    ) && is_min_dist(
                        store@[guessed as int].points@,
                        store@[i2].points@,
                        cache@[k],
                    ));
                }
            }
        }
        if names.len() > 0 || margin >= MAX_MARGIN_M {
            proof {
                assert(expansion_trace(
                    store@,
                    guessed as int,
                    target_m,
                    initial_margin_m,
                    margin,
                    steps,
                ));
                assert(exists|k2: int| #[trigger] expansion_trace(
                    store@,
                    guessed as int,
                    target_m,
                    initial_margin_m,
                    margin,
                    k2,
                ));
            }
            return (names, margin);
        }
        proof {
            assert(names@.map_values(|n: String| n@).len() == 0);
            assert(candidate_names(store@, guessed as int, target_m, margin).len() == 0);
            steps = steps + 1;
        }
        margin = margin + MARGIN_STEP_M;
    }
}

/// The margin-expansion loop is bounded: a run that widened the margin
/// `steps` times made at most `(MAX_MARGIN_M - initial) / MARGIN_STEP_M
/// + 1` widenings, and a run that started at or above the ceiling made
/// none at all.
pub proof fn lemma_expansion_steps_bound(
    s: Seq<CountryBoundary>,
    g: int,
    target_m: u64,
    initial_margin_m: u64,
    final_margin_m: u64,
    steps: int,
)
    requires
        expansion_trace(s, g, target_m, initial_margin_m, final_margin_m, steps),
    ensures
        initial_margin_m >= MAX_MARGIN_M ==> steps == 0,
        initial_margin_m < MAX_MARGIN_M ==> steps <= (MAX_MARGIN_M - initial_margin_m) as int
            / MARGIN_STEP_M as int + 1,
{
    if steps > 0 {
        let d = (MAX_MARGIN_M - initial_margin_m) as int;
        let q = d / MARGIN_STEP_M as int;
        vstd::arithmetic::div_mod::lemma_fundamental_div_mod(d, MARGIN_STEP_M as int);
        vstd::arithmetic::div_mod::lemma_mod_bound(d, MARGIN_STEP_M as int);
        assert((steps - 1) * MARGIN_STEP_M < MARGIN_STEP_M * (q + 1));
        assert(steps - 1 < q + 1) by (nonlinear_arith)
            requires
                (steps - 1) * MARGIN_STEP_M < MARGIN_STEP_M * (q + 1),
                MARGIN_STEP_M > 0,
        ;
    }
}

/// A hit in a consistent cache for the pair `(g, i)` is the true minimum
/// distance between the boundaries of `g` and `i`.
proof fn lemma_cached_distance(
    c: Map<(Seq<char>, Seq<char>), u64>,
    s: Seq<CountryBoundary>,
    g: int,
    i: int,
    d: u64,
)
    requires
        crate::store::store_wf(s),
        cache_consistent(c, s),
        0 <= g < s.len(),
        0 <= i < s.len(),
        c.contains_key(canon_key(s[g].name@, s[i].name@)),
        c[canon_key(s[g].name@, s[i].name@)] == d,
    ensures
        is_min_dist(s[g].points@, s[i].points@, d),
{
    let k = canon_key(s[g].name@, s[i].name@);
    let (x, y) = choose|x: int, y: int|
        0 <= x < s.len() && 0 <= y < s.len() && canon_key(#[trigger] s[x].name@, #[trigger] s[y].name@) == k
            && is_min_dist(s[x].points@, s[y].points@, c[k]);
    lemma_canon_key_pair(s[g].name@, s[i].name@, s[x].name@, s[y].name@);
    if fold_lower(s[x].name@) == fold_lower(s[g].name@) && fold_lower(s[y].name@) == fold_lower(
        s[i].name@,
    ) {
        lemma_store_fold_name_index(s, x, g);
        lemma_store_fold_name_index(s, y, i);
    } else {
        lemma_store_fold_name_index(s, x, i);
        lemma_store_fold_name_index(s, y, g);
        lemma_is_min_dist_sym(s[x].points@, s[y].points@, d);
    }
}

/// Two pairs with the same canonical key are the same unordered pair,
/// up to ASCII case.
proof fn lemma_canon_key_pair(a: Seq<char>, b: Seq<char>, u: Seq<char>, v: Seq<char>)
    requires
        canon_key(u, v) == canon_key(a, b),
    ensures
        (fold_lower(u) == fold_lower(a) && fold_lower(v) == fold_lower(b)) || (fold_lower(u)
            == fold_lower(b) && fold_lower(v) == fold_lower(a)),
{
    lemma_canon_key_unordered(a, b);
    lemma_canon_key_unordered(u, v);
}

} // verus!
