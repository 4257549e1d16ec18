//! The dense index: its parameters, how wide a search is, and which rows of the store are meant.

use crate::order::{
    is_weak_order, lemma_ranked_contains, lemma_ranked_in_order, lemma_ranked_multiset, place_ints,
    placed, ranked, sorted, Ranked,
};
use crate::text::{
    ascii_lower, parse_unsigned, same_text, to_ascii_lower, trim, trimmed, unsigned_upto, views,
};
use std::collections::HashSet;
use vstd::prelude::*;

verus! {

broadcast use vstd::std_specs::hash::group_hash_axioms;

/// Below this many vectors every one is compared, unless a setting says otherwise.
pub const HNSW_MIN_VECTORS_DEFAULT: usize = 2000;

/// The file of the vectors.
pub const STORE_FILE: &'static str = "vectors.bin";

/// How many chunks are encoded at a time.
pub const ENCODE_BATCH: usize = 32;

/// The name of the backend.
pub const BACKEND_NAME: &'static str = "coderank-hnsw";

/// How the graph of the dense index is built and searched.
#[derive(Debug, Clone, Copy, PartialEq, Eq, Structural)]
pub struct HnswParams {
    pub m: usize,
    pub ef_construction: usize,
    pub ef_search: usize,
    /// How many candidates are scored again; 0 stands for four times as many as are asked for.
    pub rescore_k: usize,
}

/// The parameters without a preset.
pub open spec fn default_params() -> HnswParams {
    HnswParams { m: 16, ef_construction: 200, ef_search: 64, rescore_k: 0 }
}

impl Default for HnswParams {
    fn default() -> (r: HnswParams)
        ensures
            r == default_params(),
    {
        HnswParams { m: 16, ef_construction: 200, ef_search: 64, rescore_k: 0 }
    }
}

/// The parameters of a preset, by its name in whatever case and with white space around it; the
/// default ones for any other name.
pub open spec fn params_of(name: Seq<char>) -> HnswParams {
    let n = ascii_lower(trimmed(name));
    if n == "high_recall"@ {
        HnswParams { m: 32, ef_construction: 400, ef_search: 200, rescore_k: 0 }
    } else if n == "low_latency"@ {
        HnswParams { m: 16, ef_construction: 200, ef_search: 32, rescore_k: 0 }
    } else if n == "memory_optimized"@ {
        HnswParams { m: 8, ef_construction: 100, ef_search: 48, rescore_k: 0 }
    } else {
        default_params()
    }
}

impl HnswParams {
    /// The parameters of a preset.
    pub fn preset(name: &str) -> (r: HnswParams)
        ensures
            r == params_of(name@),
    {
        let n: String = to_ascii_lower(&trim(name));
        if same_text(&n, "high_recall") {
            HnswParams { m: 32, ef_construction: 400, ef_search: 200, rescore_k: 0 }
        } else if same_text(&n, "low_latency") {
            HnswParams { m: 16, ef_construction: 200, ef_search: 32, rescore_k: 0 }
        } else if same_text(&n, "memory_optimized") {
            HnswParams { m: 8, ef_construction: 100, ef_search: 48, rescore_k: 0 }
        } else {
            HnswParams::default()
        }
    }

    /// The parameters of a preset, with another `ef_search` unless that is 0, and with the given
    /// `rescore_k`.
    pub fn resolve(preset: &str, ef_search_override: usize, rescore_k_override: usize) -> (r:
        HnswParams)
        ensures
            r == resolved_params(preset@, ef_search_override, rescore_k_override),
    {
        let mut p: HnswParams = HnswParams::preset(preset);
        if ef_search_override != 0 {
            p.ef_search = ef_search_override;
        }
        p.rescore_k = rescore_k_override;
        p
    }
}

/// From how many vectors on a graph is built, given the setting `SEMANTEX_HNSW_MIN_VECTORS`: 2000
/// unless it is a number.
pub fn hnsw_min_vectors(setting: Option<&str>) -> (r: usize)
    ensures
        r == min_vectors_of(
            match setting {
                Some(s) => Some(s@),
                None => None,
            },
        ),
{
    match setting {
        Some(s) => match parse_unsigned(&trim(s), usize::MAX as u64) {
            Some(n) => n as usize,
            None => HNSW_MIN_VECTORS_DEFAULT,
        },
        None => HNSW_MIN_VECTORS_DEFAULT,
    }
}

/// The greater of two numbers.
pub open spec fn greater(a: int, b: int) -> int {
    if a < b {
        b
    } else {
        a
    }
}

/// How many candidates a search of the graph can give: enough for those that are scored again, and
/// at least one.
pub open spec fn baked_width(p: HnswParams) -> int {
    greater(greater(p.ef_search as int, p.rescore_k as int), 1)
}

/// How many candidates a search of the graph can give.
pub fn baked_ef_search(params: HnswParams) -> (r: usize)
    ensures
        r == baked_width(params),
{
    let wide: usize = if params.ef_search < params.rescore_k {
        params.rescore_k
    } else {
        params.ef_search
    };
    if wide < 1 {
        1
    } else {
        wide
    }
}

/// How many candidates are scored again when `k` are asked for.
pub open spec fn rescore_width(p: HnswParams, k: nat) -> int {
    greater(
        if p.rescore_k == 0 {
            4 * k as int
        } else {
            p.rescore_k as int
        },
        k as int,
    )
}

/// How a search is made.
#[derive(Debug, Clone, Copy, PartialEq, Eq, Structural)]
pub enum SearchPlan {
    /// There is no vector.
    Nothing,
    /// Every vector is compared, and the best `shortlist` are scored again.
    BruteForce { shortlist: usize },
    /// The graph gives at most `candidates`, which are scored again.
    Graph { candidates: usize },
}

/// How a search for `k` chunks is made in a store of `len` vectors.
pub open spec fn search_plan(len: nat, has_graph: bool, p: HnswParams, k: nat) -> SearchPlan {
    let w = rescore_width(p, k);
    if len == 0 {
        SearchPlan::Nothing
    } else if has_graph {
        SearchPlan::Graph {
            candidates: (if w < baked_width(p) {
                w
            } else {
                baked_width(p)
            }) as usize,
        }
    } else {
        SearchPlan::BruteForce { shortlist: w as usize }
    }
}

/// How a search for `k` chunks is made in a store of `len` vectors.
pub fn plan_search(len: usize, has_graph: bool, params: HnswParams, k: usize) -> (r: SearchPlan)
    requires
        len > 0 && params.rescore_k == 0 ==> 4 * k <= usize::MAX,
    ensures
        r == search_plan(len as nat, has_graph, params, k as nat),
{
    if len == 0 {
        return SearchPlan::Nothing;
    }
    let asked: usize = if params.rescore_k == 0 {
        4 * k
    } else {
        params.rescore_k
    };
    let width: usize = if asked < k {
        k
    } else {
        asked
    };
    if has_graph {
        let baked: usize = baked_ef_search(params);
        SearchPlan::Graph {
            candidates: if width < baked {
                width
            } else {
                baked
            },
        }
    } else {
        SearchPlan::BruteForce { shortlist: width }
    }
}

/// At least as many candidates are scored again as are asked for, unless the graph gives fewer; an
/// explicit width is met in full as long as no more are asked for.
pub proof fn lemma_search_width(len: nat, p: HnswParams, k: nat)
    requires
        len > 0,
        k <= usize::MAX,
        p.rescore_k == 0 ==> 4 * k <= usize::MAX,
    ensures
        search_plan(len, false, p, k)->shortlist >= k,
        search_plan(len, true, p, k)->candidates <= baked_width(p),
        k <= p.ef_search ==> search_plan(len, true, p, k)->candidates >= k,
        k <= p.rescore_k ==> search_plan(len, true, p, k)->candidates == p.rescore_k,
{
}

/// How many chunks are searched for when the results are filtered afterwards.
pub fn widened_k(k: usize) -> (r: usize)
    requires
        8 * k <= usize::MAX,
    ensures
        r == greater(8 * k, 64),
{
    if k * 8 < 64 {
        64
    } else {
        k * 8
    }
}

/// The places of the ids that are in `allowed`, in their order.
pub open spec fn places_within(ids: Seq<u64>, allowed: Set<u64>) -> Seq<int>
    decreases ids.len(),
{
    if ids.len() == 0 {
        Seq::empty()
    } else if allowed.contains(ids.last()) {
        places_within(ids.drop_last(), allowed).push(ids.len() - 1)
    } else {
        places_within(ids.drop_last(), allowed)
    }
}

fn set_of(ids: &Vec<u64>) -> (r: HashSet<u64>)
    ensures
        r@ == ids@.to_set(),
{
    let mut r: HashSet<u64> = HashSet::new();
    let mut i: usize = 0;
    while i < ids.len()
        invariant
            i <= ids@.len(),
            forall|x: u64| #[trigger] r@.contains(x) <==> ids@.take(i as int).contains(x),
        decreases ids@.len() - i,
    {
        let ghost before = r@;
        r.insert(ids[i]);
        proof {
            let a = ids@.take(i as int);
            let b = ids@.take(i + 1);
            assert forall|x: u64| #[trigger] r@.contains(x) <==> b.contains(x) by {
                if a.contains(x) {
                    let k = choose|k: int| 0 <= k < a.len() && a[k] == x;
                    assert(b[k] == x);
                }
                if b.contains(x) && x != ids@[i as int] {
                    let k = choose|k: int| 0 <= k < b.len() && b[k] == x;
                    assert(a[k] == x);
                }
                assert(b[i as int] == ids@[i as int]);
            }
        }
        i = i + 1;
    }
    proof {
        assert(ids@.take(i as int) =~= ids@);
        assert(r@ =~= ids@.to_set());
    }
    r
}

fn places_where(ids: &Vec<u64>, allowed: &HashSet<u64>, inside: bool) -> (r: Vec<usize>)
    ensures
        inside ==> place_ints(r@) == places_within(ids@, allowed@),
        !inside ==> place_ints(r@) == places_within(ids@, allowed@.complement()),
{
    let ghost chosen = if inside {
        allowed@
    } else {
        allowed@.complement()
    };
    let mut r: Vec<usize> = Vec::new();
    let mut i: usize = 0;
    proof {
        assert(place_ints(r@) =~= places_within(ids@.take(0), chosen));
    }
    while i < ids.len()
        invariant
            i <= ids@.len(),
            chosen == (if inside {
                allowed@
            } else {
                allowed@.complement()
            }),
            place_ints(r@) == places_within(ids@.take(i as int), chosen),
        decreases ids@.len() - i,
    {
        let ghost shown = place_ints(r@);
        proof {
            assert(ids@.take(i + 1).drop_last() =~= ids@.take(i as int));
        }
        if allowed.contains(&ids[i]) == inside {
            r.push(i);
            proof {
                assert(place_ints(r@) =~= shown.push(i as int));
            }
        }
        i = i + 1;
    }
    proof {
        assert(ids@.take(i as int) =~= ids@);
    }
    r
}

/// The places of the first `k` hits whose chunks are in `subset`.
pub fn subset_hits(hits: &Vec<u64>, subset: &Vec<u64>, k: usize) -> (r: Vec<usize>)
    ensures
        place_ints(r@) == hits_within(hits@, subset@, k as nat),
{
    let allowed: HashSet<u64> = set_of(subset);
    let mut r: Vec<usize> = places_where(hits, &allowed, true);
    let ghost all = place_ints(r@);
    if r.len() > k {
        r.truncate(k);
    }
    proof {
        assert(place_ints(r@) =~= if all.len() <= k {
            all
        } else {
            all.take(k as int)
        });
    }
    r
}

/// The rows of the store that stay when the chunks in `removed` go, in their order.
pub fn surviving_rows(chunk_ids: &Vec<u64>, removed: &Vec<u64>) -> (r: Vec<usize>)
    ensures
        place_ints(r@) == places_within(chunk_ids@, removed@.to_set().complement()),
{
    let gone: HashSet<u64> = set_of(removed);
    places_where(chunk_ids, &gone, false)
}

/// The places found are in ascending order, and are exactly those whose ids are allowed.
pub proof fn lemma_places_within(ids: Seq<u64>, allowed: Set<u64>)
    ensures
        ({
            let p = places_within(ids, allowed);
            &&& p.len() <= ids.len()
            &&& forall|i: int| 0 <= i < p.len() ==> 0 <= #[trigger] p[i] < ids.len()
            &&& forall|i: int| 0 <= i < p.len() ==> allowed.contains(ids[#[trigger] p[i]])
            &&& forall|i: int, j: int| 0 <= i < j < p.len() ==> #[trigger] p[i] < #[trigger] p[j]
            &&& forall|m: int|
                0 <= m < ids.len() && allowed.contains(#[trigger] ids[m]) ==> p.contains(m)
        }),
    decreases ids.len(),
{
    if ids.len() > 0 {
        let front = ids.drop_last();
        let f = places_within(front, allowed);
        let p = places_within(ids, allowed);
        lemma_places_within(front, allowed);
        assert forall|i: int| 0 <= i < p.len() implies 0 <= #[trigger] p[i] < ids.len()
            && allowed.contains(ids[p[i]]) by {
            if i < f.len() {
                assert(p[i] == f[i]);
                assert(front[f[i]] == ids[f[i]]);
            }
        }
        assert forall|m: int| 0 <= m < ids.len() && allowed.contains(
            #[trigger] ids[m],
        ) implies p.contains(m) by {
            if m < front.len() {
                assert(front[m] == ids[m]);
                assert(f.contains(m));
                let i = choose|i: int| 0 <= i < f.len() && f[i] == m;
                assert(p[i] == m);
            } else {
                assert(p[p.len() - 1] == m);
            }
        }
    }
}

/// The last row of a chunk; `None` where it has none.
pub open spec fn last_row(chunk_ids: Seq<u64>, id: u64) -> Option<int>
    decreases chunk_ids.len(),
{
    if chunk_ids.len() == 0 {
        None
    } else if chunk_ids.last() == id {
        Some(chunk_ids.len() - 1)
    } else {
        last_row(chunk_ids.drop_last(), id)
    }
}

/// The rows of the chunks that are asked for, in that order; those without one are left out.
pub open spec fn found_rows(chunk_ids: Seq<u64>, wanted: Seq<u64>) -> Seq<(u64, int)>
    decreases wanted.len(),
{
    if wanted.len() == 0 {
        Seq::empty()
    } else {
        let front = found_rows(chunk_ids, wanted.drop_last());
        match last_row(chunk_ids, wanted.last()) {
            Some(i) => front.push((wanted.last(), i)),
            None => front,
        }
    }
}

/// A list of rows with integers.
pub open spec fn row_ints(s: Seq<(u64, usize)>) -> Seq<(u64, int)> {
    Seq::new(s.len(), |i: int| (s[i].0, s[i].1 as int))
}

/// The rows of the chunks that are asked for, in that order; those without one are left out.
pub fn rows_for(chunk_ids: &Vec<u64>, wanted: &Vec<u64>) -> (r: Vec<(u64, usize)>)
    ensures
        row_ints(r@) == found_rows(chunk_ids@, wanted@),
{
    let mut rows: std::collections::HashMap<u64, usize> = std::collections::HashMap::new();
    let mut i: usize = 0;
    while i < chunk_ids.len()
        invariant
            i <= chunk_ids@.len(),
            forall|x: u64| #[trigger]
                rows@.contains_key(x) <==> last_row(chunk_ids@.take(i as int), x) is Some,
            forall|x: u64| #[trigger]
                rows@.contains_key(x) ==> Some(rows@[x] as int) == last_row(
                    chunk_ids@.take(i as int),
                    x,
                ),
        decreases chunk_ids@.len() - i,
    {
        proof {
            assert(chunk_ids@.take(i + 1).drop_last() =~= chunk_ids@.take(i as int));
            assert(chunk_ids@.take(i + 1).last() == chunk_ids@[i as int]);
        }
        rows.insert(chunk_ids[i], i);
        i = i + 1;
    }
    proof {
        assert(chunk_ids@.take(i as int) =~= chunk_ids@);
    }
    let mut r: Vec<(u64, usize)> = Vec::new();
    let mut j: usize = 0;
    proof {
        assert(row_ints(r@) =~= found_rows(chunk_ids@, wanted@.take(0)));
    }
    while j < wanted.len()
        invariant
            j <= wanted@.len(),
            forall|x: u64| #[trigger]
                rows@.contains_key(x) <==> last_row(chunk_ids@, x) is Some,
            forall|x: u64| #[trigger]
                rows@.contains_key(x) ==> Some(rows@[x] as int) == last_row(chunk_ids@, x),
            row_ints(r@) == found_rows(chunk_ids@, wanted@.take(j as int)),
        decreases wanted@.len() - j,
    {
        let ghost shown = row_ints(r@);
        proof {
            assert(wanted@.take(j + 1).drop_last() =~= wanted@.take(j as int));
            assert(wanted@.take(j + 1).last() == wanted@[j as int]);
        }
        match rows.get(&wanted[j]) {
            Some(row) => {
                r.push((wanted[j], *row));
                proof {
                    assert(row_ints(r@) =~= shown.push((wanted@[j as int], *row as int)));
                }
            },
            None => {},
        }
        j = j + 1;
    }
    proof {
        assert(wanted@.take(j as int) =~= wanted@);
    }
    r
}

/// The sum of the first `n` products.
pub open spec fn dot_upto(a: Seq<i8>, b: Seq<i8>, n: int) -> int
    decreases n,
{
    if n <= 0 {
        0
    } else {
        dot_upto(a, b, n - 1) + a[n - 1] * b[n - 1]
    }
}

/// The dot product of two quantized vectors, over the components that both have.
pub open spec fn dot(a: Seq<i8>, b: Seq<i8>) -> int {
    dot_upto(
        a,
        b,
        if a.len() < b.len() {
            a.len() as int
        } else {
            b.len() as int
        },
    )
}

fn dot_i8(a: &Vec<i8>, b: &Vec<i8>) -> (r: i128)
    ensures
        r == dot(a@, b@),
{
    let n: usize = if a.len() < b.len() {
        a.len()
    } else {
        b.len()
    };
    let mut r: i128 = 0;
    let mut i: usize = 0;
    while i < n
        invariant
            i <= n,
            n <= a@.len(),
            n <= b@.len(),
            r == dot_upto(a@, b@, i as int),
            -16384 * i <= r <= 16384 * i,
        decreases n - i,
    {
        let x: i128 = a[i] as i128;
        let y: i128 = b[i] as i128;
        proof {
            assert(-16384 <= x * y <= 16384) by (nonlinear_arith)
                requires
                    -128 <= x <= 127,
                    -128 <= y <= 127,
            ;
        }
        r = r + x * y;
        i = i + 1;
    }
    r
}

/// A row, or a place in a list, and its score.
#[derive(Debug, Clone, Copy, PartialEq, Eq, Structural)]
pub struct ScoredRow {
    pub row: usize,
    pub score: i128,
}

impl View for ScoredRow {
    type V = (int, int);

    open spec fn view(&self) -> (int, int) {
        (self.row as int, self.score as int)
    }
}

impl Ranked for ScoredRow {
    open spec fn before(a: (int, int), b: (int, int)) -> bool {
        a.1 > b.1
    }

    fn goes_before(&self, other: &Self) -> (r: bool) {
        self.score > other.score
    }
}

/// The places of the scores, each with its score.
pub open spec fn scored_places(scores: Seq<int>) -> Seq<(int, int)> {
    Seq::new(scores.len(), |i: int| (i, scores[i]))
}

/// The places of the `n` greatest scores, the greatest first; of equal scores the earlier one.
pub open spec fn best_places(scores: Seq<int>, n: nat) -> Seq<int> {
    let all = ranked::<ScoredRow>(scored_places(scores));
    Seq::new(
        if all.len() < n {
            all.len()
        } else {
            n
        },
        |i: int| all[i].0,
    )
}

/// A list of scores as integers.
pub open spec fn score_ints(s: Seq<i128>) -> Seq<int> {
    Seq::new(s.len(), |i: int| s[i] as int)
}

/// The places of the `n` greatest scores, the greatest first.
pub fn top_places(scores: &Vec<i128>, n: usize) -> (r: Vec<usize>)
    ensures
        place_ints(r@) == best_places(score_ints(scores@), n as nat),
{
    let ghost all = scored_places(score_ints(scores@));
    let mut scored: Vec<ScoredRow> = Vec::new();
    let mut i: usize = 0;
    while i < scores.len()
        invariant
            i <= scores@.len(),
            all == scored_places(score_ints(scores@)),
            views(scored@) =~= all.take(i as int),
        decreases scores@.len() - i,
    {
        let ghost shown = views(scored@);
        let item: ScoredRow = ScoredRow { row: i, score: scores[i] };
        scored.push(item);
        proof {
            assert(views(scored@) =~= shown.push(item@));
        }
        i = i + 1;
    }
    proof {
        assert(all.take(i as int) =~= all);
    }
    let best: Vec<ScoredRow> = sorted(scored);
    proof {
        lemma_ranked_multiset::<ScoredRow>(all);
        assert(best@.len() == views(best@).len());
    }
    let count: usize = if best.len() < n {
        best.len()
    } else {
        n
    };
    let mut r: Vec<usize> = Vec::new();
    let mut j: usize = 0;
    while j < count
        invariant
            j <= count,
            count <= best@.len(),
            r@.len() == j,
            forall|k: int| 0 <= k < j ==> (#[trigger] r@[k]) == views(best@)[k].0,
        decreases count - j,
    {
        r.push(best[j].row);
        j = j + 1;
    }
    proof {
        assert(place_ints(r@) =~= best_places(score_ints(scores@), n as nat));
    }
    r
}

/// The dot product of each row with the query, in the order of the store.
pub open spec fn row_scores(query: Seq<i8>, vectors: Seq<Seq<i8>>) -> Seq<int> {
    Seq::new(vectors.len(), |i: int| dot(query, vectors[i]))
}

/// The `n` rows nearest to the query by the dot product of the quantized vectors, the nearest first;
/// of rows that are equally near the earlier one.
pub open spec fn nearest_rows(query: Seq<i8>, vectors: Seq<Seq<i8>>, n: nat) -> Seq<int> {
    best_places(row_scores(query, vectors), n)
}

/// The `n` rows nearest to the query by the dot product of the quantized vectors, the nearest first.
pub fn shortlist(query: &Vec<i8>, vectors: &Vec<Vec<i8>>, n: usize) -> (r: Vec<usize>)
    ensures
        place_ints(r@) == nearest_rows(query@, views(vectors@), n as nat),
{
    let mut scores: Vec<i128> = Vec::new();
    let mut i: usize = 0;
    while i < vectors.len()
        invariant
            i <= vectors@.len(),
            scores@.len() == i,
            forall|k: int| 0 <= k < i ==> (#[trigger] scores@[k]) == dot(query@, vectors@[k]@),
        decreases vectors@.len() - i,
    {
        scores.push(dot_i8(query, &vectors[i]));
        i = i + 1;
    }
    proof {
        assert(score_ints(scores@) =~= row_scores(query@, views(vectors@)));
    }
    top_places(&scores, n)
}

proof fn lemma_place_ranked(scores: Seq<int>, place: int) -> (k: int)
    requires
        0 <= place < scores.len(),
    ensures
        0 <= k < ranked::<ScoredRow>(scored_places(scores)).len(),
        ranked::<ScoredRow>(scored_places(scores))[k] == (place, scores[place]),
{
    let s = scored_places(scores);
    let all = ranked::<ScoredRow>(s);
    assert(s[place] == (place, scores[place]));
    assert(s.contains(s[place]));
    lemma_ranked_contains::<ScoredRow>(s, s[place]);
    choose|k: int| 0 <= k < all.len() && all[k] == s[place]
}

/// Of `n` that are asked for there are `n`, or as many as there are scores; they are places of
/// scores, none twice, the greatest score first, and no score that is left out is greater than one
/// of theirs.
pub proof fn lemma_best_places(scores: Seq<int>, n: nat)
    ensures
        ({
            let best = best_places(scores, n);
            &&& best.len() == (if scores.len() < n {
                scores.len()
            } else {
                n
            })
            &&& forall|i: int| 0 <= i < best.len() ==> 0 <= #[trigger] best[i] < scores.len()
            &&& forall|i: int, j: int|
                0 <= i < j < best.len() ==> (#[trigger] best[i]) != (#[trigger] best[j])
                    && scores[best[i]] >= scores[best[j]]
            &&& forall|i: int, place: int|
                0 <= i < best.len() && 0 <= place < scores.len() && !best.contains(place)
                    ==> #[trigger] scores[place] <= scores[#[trigger] best[i]]
        }),
{
    let s = scored_places(scores);
    let all = ranked::<ScoredRow>(s);
    let best = best_places(scores, n);
    lemma_ranked_multiset::<ScoredRow>(s);
    assert(is_weak_order::<ScoredRow>());
    lemma_ranked_in_order::<ScoredRow>(s);
    assert forall|i: int| 0 <= i < all.len() implies 0 <= (#[trigger] all[i]).0 < scores.len()
        && all[i].1 == scores[all[i].0] by {
        assert(all.contains(all[i]));
        lemma_ranked_contains::<ScoredRow>(s, all[i]);
        let k = choose|k: int| 0 <= k < s.len() && s[k] == all[i];
    }
    assert(s.no_duplicates()) by {
        assert forall|i: int, j: int| 0 <= i < s.len() && 0 <= j < s.len() && i != j implies s[i]
            != s[j] by {
            assert(s[i].0 == i && s[j].0 == j);
        }
    }
    s.lemma_multiset_has_no_duplicates();
    all.lemma_multiset_has_no_duplicates_conv();
    assert forall|i: int, j: int| 0 <= i < j < best.len() implies (#[trigger] best[i])
        != (#[trigger] best[j]) && scores[best[i]] >= scores[best[j]] by {
        assert(all[i] != all[j]);
        assert(!<ScoredRow as Ranked>::before(all[j], all[i]));
    }
    assert forall|i: int, place: int|
        0 <= i < best.len() && 0 <= place < scores.len() && !best.contains(
            place,
        ) implies #[trigger] scores[place] <= scores[#[trigger] best[i]] by {
        let k = lemma_place_ranked(scores, place);
        if k < best.len() {
            assert(best[k] == place);
        }
        assert(!<ScoredRow as Ranked>::before(all[k], all[i]));
    }
}

/// The shortlist is the best that the quantized vectors can give: it holds rows of the store, no
/// other row is nearer than one of them, and a wider one begins with a narrower one. So a row that
/// is not among the nearest `n` is found with a wide enough list.
pub proof fn lemma_shortlist(query: Seq<i8>, vectors: Seq<Seq<i8>>, n: nat, wide: nat)
    ensures
        ({
            let near = nearest_rows(query, vectors, n);
            &&& forall|i: int| 0 <= i < near.len() ==> 0 <= #[trigger] near[i] < vectors.len()
            &&& forall|i: int, row: int|
                0 <= i < near.len() && 0 <= row < vectors.len() && !near.contains(row) ==> dot(
                    query,
                    #[trigger] vectors[row],
                ) <= dot(query, vectors[#[trigger] near[i]])
            &&& n <= wide ==> near == nearest_rows(query, vectors, wide).take(near.len() as int)
            &&& vectors.len() <= wide ==> forall|row: int|
                0 <= row < vectors.len() ==> #[trigger] nearest_rows(
                    query,
                    vectors,
                    wide,
                ).contains(row)
        }),
{
    let scores = row_scores(query, vectors);
    let near = nearest_rows(query, vectors, n);
    lemma_best_places(scores, n);
    lemma_best_places(scores, wide);
    assert forall|i: int, row: int|
        0 <= i < near.len() && 0 <= row < vectors.len() && !near.contains(row) implies dot(
        query,
        #[trigger] vectors[row],
    ) <= dot(query, vectors[#[trigger] near[i]]) by {
        assert(scores[row] <= scores[near[i]]);
    }
    assert(n <= wide ==> near =~= nearest_rows(query, vectors, wide).take(near.len() as int));
    if vectors.len() <= wide {
        let w = nearest_rows(query, vectors, wide);
        lemma_ranked_multiset::<ScoredRow>(scored_places(scores));
        assert forall|row: int| 0 <= row < vectors.len() implies #[trigger] w.contains(row) by {
            let k = lemma_place_ranked(scores, row);
            assert(w[k] == row);
        }
    }
}

/// The score of a row is the inner product with the query: it is the same whichever of the two
/// comes first; the score of a sum is the sum of the scores, and the score of a row that points the
/// other way is the negative of that row's.
pub proof fn lemma_inner_product(q: Seq<i8>, u: Seq<i8>, v: Seq<i8>, sum: Seq<i8>, away: Seq<i8>)
    requires
        u.len() == q.len(),
        v.len() == q.len(),
        sum.len() == q.len(),
        away.len() == q.len(),
        forall|i: int| 0 <= i < q.len() ==> #[trigger] sum[i] == u[i] + v[i],
        forall|i: int| 0 <= i < q.len() ==> #[trigger] away[i] == -u[i],
    ensures
        dot(q, u) == dot(u, q),
        dot(q, sum) == dot(q, u) + dot(q, v),
        dot(q, away) == -dot(q, u),
{
    lemma_inner_product_upto(q, u, v, sum, away, q.len() as int);
}

proof fn lemma_inner_product_upto(
    q: Seq<i8>,
    u: Seq<i8>,
    v: Seq<i8>,
    sum: Seq<i8>,
    away: Seq<i8>,
    n: int,
)
    requires
        u.len() == q.len(),
        v.len() == q.len(),
        sum.len() == q.len(),
        away.len() == q.len(),
        0 <= n <= q.len(),
        forall|i: int| 0 <= i < q.len() ==> #[trigger] sum[i] == u[i] + v[i],
        forall|i: int| 0 <= i < q.len() ==> #[trigger] away[i] == -u[i],
    ensures
        dot_upto(q, u, n) == dot_upto(u, q, n),
        dot_upto(q, sum, n) == dot_upto(q, u, n) + dot_upto(q, v, n),
        dot_upto(q, away, n) == -dot_upto(q, u, n),
    decreases n,
{
    if n > 0 {
        lemma_inner_product_upto(q, u, v, sum, away, n - 1);
        let a = q[n - 1] as int;
        let b = u[n - 1] as int;
        let c = v[n - 1] as int;
        assert(sum[n - 1] as int == b + c);
        assert(away[n - 1] as int == -b);
        assert(a * b == b * a && a * (b + c) == a * b + a * c && a * (-b) == -(a * b))
            by (nonlinear_arith);
    }
}

/// The score of a row along one axis is its component there, sign and all, whatever the axis.
pub proof fn lemma_axis_product(axis: Seq<i8>, v: Seq<i8>, k: int)
    requires
        axis.len() == v.len(),
        0 <= k < v.len(),
        axis[k] == 1,
        forall|i: int| 0 <= i < v.len() && i != k ==> #[trigger] axis[i] == 0,
    ensures
        dot(axis, v) == v[k],
{
    lemma_axis_upto(axis, v, k, v.len() as int);
}

proof fn lemma_axis_upto(axis: Seq<i8>, v: Seq<i8>, k: int, n: int)
    requires
        axis.len() == v.len(),
        0 <= k < v.len(),
        0 <= n <= v.len(),
        axis[k] == 1,
        forall|i: int| 0 <= i < v.len() && i != k ==> #[trigger] axis[i] == 0,
    ensures
        dot_upto(axis, v, n) == if k < n {
            v[k] as int
        } else {
            0
        },
    decreases n,
{
    if n > 0 {
        lemma_axis_upto(axis, v, k, n - 1);
        let x = axis[n - 1] as int;
        let y = v[n - 1] as int;
        assert(x == 1 ==> x * y == y) by (nonlinear_arith);
        assert(x == 0 ==> x * y == 0) by (nonlinear_arith);
    }
}

/// Components that only one of two vectors has do not count.
pub proof fn lemma_product_of_common_part(a: Seq<i8>, b: Seq<i8>)
    ensures
        a.len() <= b.len() ==> dot(a, b) == dot(a, b.take(a.len() as int)),
        b.len() <= a.len() ==> dot(a, b) == dot(a.take(b.len() as int), b),
{
    if a.len() <= b.len() {
        lemma_upto_same(a, b, a, b.take(a.len() as int), a.len() as int);
    }
    if b.len() <= a.len() {
        lemma_upto_same(a, b, a.take(b.len() as int), b, b.len() as int);
    }
}

proof fn lemma_upto_same(a: Seq<i8>, b: Seq<i8>, c: Seq<i8>, d: Seq<i8>, n: int)
    requires
        0 <= n,
        forall|i: int| 0 <= i < n ==> #[trigger] a[i] == c[i],
        forall|i: int| 0 <= i < n ==> #[trigger] b[i] == d[i],
    ensures
        dot_upto(a, b, n) == dot_upto(c, d, n),
    decreases n,
{
    if n > 0 {
        lemma_upto_same(a, b, c, d, n - 1);
        assert(a[n - 1] == c[n - 1] && b[n - 1] == d[n - 1]);
    }
}

/// A row that is returned for a chunk holds that chunk, and no later row does; each chunk that is
/// wanted and has a row is returned with it, once for each time that it is wanted and in that order,
/// and no other is.
pub proof fn lemma_found_rows(chunk_ids: Seq<u64>, wanted: Seq<u64>)
    ensures
        ({
            let found = found_rows(chunk_ids, wanted);
            let there = wanted.filter(|id: u64| chunk_ids.contains(id));
            &&& found.len() == there.len()
            &&& forall|i: int|
                0 <= i < found.len() ==> {
                    let row = (#[trigger] found[i]).1;
                    &&& found[i].0 == there[i]
                    &&& 0 <= row < chunk_ids.len() && chunk_ids[row] == there[i]
                    &&& forall|k: int| row < k < chunk_ids.len() ==> chunk_ids[k] != there[i]
                }
        }),
    decreases wanted.len(),
{
    reveal(Seq::filter);
    if wanted.len() > 0 {
        lemma_found_rows(chunk_ids, wanted.drop_last());
        lemma_last_row(chunk_ids, wanted.last());
    }
}

proof fn lemma_last_row(chunk_ids: Seq<u64>, id: u64)
    ensures
        last_row(chunk_ids, id) is Some <==> chunk_ids.contains(id),
        last_row(chunk_ids, id) matches Some(row) ==> 0 <= row < chunk_ids.len() && chunk_ids[row]
            == id && forall|k: int| row < k < chunk_ids.len() ==> chunk_ids[k] != id,
    decreases chunk_ids.len(),
{
    if chunk_ids.len() > 0 {
        let front = chunk_ids.drop_last();
        lemma_last_row(front, id);
        if chunk_ids.last() == id {
            assert(chunk_ids[chunk_ids.len() - 1] == id);
        } else {
            assert(chunk_ids.contains(id) == front.contains(id)) by {
                if front.contains(id) {
                    let k = choose|k: int| 0 <= k < front.len() && front[k] == id;
                    assert(chunk_ids[k] == id);
                }
                if chunk_ids.contains(id) {
                    let k = choose|k: int| 0 <= k < chunk_ids.len() && chunk_ids[k] == id;
                    assert(front[k] == id);
                }
            }
            if last_row(front, id) is Some {
                let row = last_row(front, id)->0;
                assert(chunk_ids[row] == front[row]);
                assert forall|k: int| row < k < chunk_ids.len() implies chunk_ids[k] != id by {
                    if k < front.len() {
                        assert(front[k] == chunk_ids[k]);
                    }
                }
            }
        }
    }
}

proof fn lemma_placed_ties(s: Seq<(int, int)>, item: (int, int))
    requires
        forall|i: int| 0 <= i < s.len() ==> (#[trigger] s[i]).0 < item.0,
        forall|i: int, j: int|
            0 <= i < j < s.len() ==> (#[trigger] s[i]).1 > (#[trigger] s[j]).1 || (s[i].1 == s[j].1
                && s[i].0 < s[j].0),
    ensures
        ({
            let r = placed::<ScoredRow>(s, item);
            &&& forall|i: int| 0 <= i < r.len() ==> (#[trigger] r[i]).0 <= item.0
            &&& forall|i: int| 0 <= i < r.len() ==> #[trigger] r[i] == item || s.contains(r[i])
            &&& forall|i: int, j: int|
                0 <= i < j < r.len() ==> (#[trigger] r[i]).1 > (#[trigger] r[j]).1 || (r[i].1
                    == r[j].1 && r[i].0 < r[j].0)
        }),
    decreases s.len(),
{
    let r = placed::<ScoredRow>(s, item);
    if s.len() == 0 || !ScoredRow::before(item, s.last()) {
        assert(r == s.push(item));
        assert forall|i: int, j: int| 0 <= i < j < r.len() implies (#[trigger] r[i]).1 > (
        #[trigger] r[j]).1 || (r[i].1 == r[j].1 && r[i].0 < r[j].0) by {
            if j == s.len() {
                assert(s[i].0 < item.0);
                if i < s.len() - 1 {
                    assert(s[i].1 >= s[s.len() - 1].1);
                }
            }
        }
        assert forall|i: int| 0 <= i < r.len() implies #[trigger] r[i] == item || s.contains(
            r[i],
        ) by {
            if i < s.len() {
                assert(s[i] == r[i]);
            }
        }
    } else {
        let front = s.drop_last();
        assert forall|i: int| 0 <= i < front.len() implies (#[trigger] front[i]).0 < item.0 by {
            assert(front[i] == s[i]);
        }
        lemma_placed_ties(front, item);
        let q = placed::<ScoredRow>(front, item);
        assert forall|i: int, j: int| 0 <= i < j < r.len() implies (#[trigger] r[i]).1 > (
        #[trigger] r[j]).1 || (r[i].1 == r[j].1 && r[i].0 < r[j].0) by {
            if j == q.len() {
                if q[i] != item {
                    assert(front.contains(q[i]));
                    let k = choose|k: int| 0 <= k < front.len() && front[k] == q[i];
                    assert(s[k].1 > s[s.len() - 1].1 || (s[k].1 == s[s.len() - 1].1 && s[k].0
                        < s[s.len() - 1].0));
                }
            } else {
                assert(q[i] == r[i] && q[j] == r[j]);
            }
        }
        assert forall|i: int| 0 <= i < r.len() implies #[trigger] r[i] == item || s.contains(
            r[i],
        ) by {
            if i < q.len() {
                assert(q[i] == r[i]);
                if q[i] != item {
                    let k = choose|k: int| 0 <= k < front.len() && front[k] == q[i];
                    assert(s[k] == r[i]);
                }
            } else {
                assert(s[s.len() - 1] == r[i]);
            }
        }
        assert forall|i: int| 0 <= i < r.len() implies (#[trigger] r[i]).0 <= item.0 by {
            if i < q.len() {
                assert(q[i] == r[i]);
            } else {
                assert(s[s.len() - 1].0 < item.0);
            }
        }
    }
}

proof fn lemma_ranked_ties(scores: Seq<int>)
    ensures
        ({
            let r = ranked::<ScoredRow>(scored_places(scores));
            &&& forall|i: int| 0 <= i < r.len() ==> (#[trigger] r[i]).0 < scores.len()
            &&& forall|i: int, j: int|
                0 <= i < j < r.len() ==> (#[trigger] r[i]).1 > (#[trigger] r[j]).1 || (r[i].1
                    == r[j].1 && r[i].0 < r[j].0)
        }),
    decreases scores.len(),
{
    if scores.len() > 0 {
        let front = scores.drop_last();
        lemma_ranked_ties(front);
        let s = scored_places(scores);
        assert(s.drop_last() =~= scored_places(front));
        lemma_placed_ties(ranked::<ScoredRow>(scored_places(front)), s.last());
    }
}

/// Of places with the same score, the one that stands first comes first.
pub proof fn lemma_equal_scores(scores: Seq<int>, n: nat)
    ensures
        ({
            let r = best_places(scores, n);
            forall|i: int, j: int|
                0 <= i < j < r.len() && scores[#[trigger] r[i]] == scores[#[trigger] r[j]] ==> r[i]
                    < r[j]
        }),
{
    let s = scored_places(scores);
    let all = ranked::<ScoredRow>(s);
    let r = best_places(scores, n);
    lemma_ranked_ties(scores);
    lemma_ranked_multiset::<ScoredRow>(s);
    assert forall|i: int| 0 <= i < all.len() implies all[i].1 == scores[(#[trigger] all[i]).0] by {
        assert(all.contains(all[i]));
        lemma_ranked_contains::<ScoredRow>(s, all[i]);
        let k = choose|k: int| 0 <= k < s.len() && s[k] == all[i];
        assert(s[k] == (k, scores[k]));
    }
    assert forall|i: int, j: int|
        0 <= i < j < r.len() && scores[#[trigger] r[i]] == scores[#[trigger] r[j]] implies r[i]
        < r[j] by {
        assert(r[i] == all[i].0 && r[j] == all[j].0);
    }
}

/// How a search is done: not at all in an empty store, through the graph where there is one, and
/// else row by row. It looks at four times as many rows as are asked for, unless a width is set,
/// and never at fewer than are asked for; the graph gives no more than it was built to give.
pub proof fn lemma_search_choice(len: nat, has_graph: bool, p: HnswParams, k: nat)
    requires
        k <= usize::MAX,
        p.rescore_k == 0 ==> 4 * k <= usize::MAX,
    ensures
        search_plan(len, has_graph, p, k) is Nothing <==> len == 0,
        search_plan(len, has_graph, p, k) is Graph <==> len > 0 && has_graph,
        len > 0 && !has_graph && p.rescore_k == 0 ==> search_plan(len, has_graph, p, k)->shortlist
            == 4 * k,
        len > 0 && !has_graph && p.rescore_k >= k && p.rescore_k > 0 ==> search_plan(
            len,
            has_graph,
            p,
            k,
        )->shortlist == p.rescore_k,
        len > 0 && !has_graph && 0 < p.rescore_k < k ==> search_plan(
            len,
            has_graph,
            p,
            k,
        )->shortlist == k,
        len > 0 && has_graph ==> {
            let c = search_plan(len, true, p, k)->candidates;
            let w = search_plan(len, false, p, k)->shortlist;
            &&& c <= w
            &&& c == w || c == p.ef_search || c == p.rescore_k || c == 1
            &&& w <= p.ef_search ==> c == w
            &&& w > p.ef_search && w > p.rescore_k && w >= 1 ==> c >= p.ef_search && c
                >= p.rescore_k
        },
        baked_width(p) >= 1,
{
}

/// A preset is known by its name whatever its case and the white space around it; any other name
/// stands for the default. The one for recall keeps twice as many links as the default and looks at
/// more than three times as much of the graph; the one for speed looks at half as much; and the one
/// for memory keeps half as many links and looks at three quarters.
pub proof fn lemma_presets(name: Seq<char>, pad: Seq<char>)
    requires
        forall|i: int| 0 <= i < pad.len() ==> crate::text::is_space(#[trigger] pad[i]),
    ensures
        params_of(pad + trimmed(name) + pad) == params_of(name),
        ascii_lower(trimmed(name)) == "high_recall"@ ==> {
            &&& params_of(name).m == 2 * default_params().m
            &&& params_of(name).ef_construction == 2 * default_params().ef_construction
            &&& params_of(name).ef_search > 3 * default_params().ef_search
        },
        ascii_lower(trimmed(name)) == "low_latency"@ ==> {
            &&& params_of(name).m == default_params().m
            &&& params_of(name).ef_construction == default_params().ef_construction
            &&& 2 * params_of(name).ef_search == default_params().ef_search
        },
        ascii_lower(trimmed(name)) == "memory_optimized"@ ==> {
            &&& 2 * params_of(name).m == default_params().m
            &&& 2 * params_of(name).ef_construction == default_params().ef_construction
            &&& 4 * params_of(name).ef_search == 3 * default_params().ef_search
        },
        params_of(name) != default_params() ==> ascii_lower(trimmed(name)) == "high_recall"@
            || ascii_lower(trimmed(name)) == "low_latency"@ || ascii_lower(trimmed(name))
            == "memory_optimized"@,
        params_of(name).rescore_k == 0,
{
    reveal_strlit("high_recall");
    reveal_strlit("low_latency");
    reveal_strlit("memory_optimized");
    assert("high_recall"@[0] == 'h' && "low_latency"@[0] == 'l' && "memory_optimized"@[0] == 'm');
    crate::text::lemma_trimmed_ends(name);
    crate::text::lemma_trim_takes_space(pad, trimmed(name), pad);
}

/// The parameters of a preset, with what is set besides.
pub open spec fn resolved_params(
    preset: Seq<char>,
    ef_search_override: usize,
    rescore_k_override: usize,
) -> HnswParams {
    HnswParams {
        ef_search: if ef_search_override != 0 {
            ef_search_override
        } else {
            params_of(preset).ef_search
        },
        rescore_k: rescore_k_override,
        ..params_of(preset)
    }
}

/// A width that is set counts in place of that of the preset, zero meaning that none is set; how
/// the graph is built is always as the preset says.
pub proof fn lemma_resolved_params(preset: Seq<char>, ef: usize, rescore: usize)
    ensures
        ({
            let r = resolved_params(preset, ef, rescore);
            &&& ef > 0 ==> r.ef_search == ef
            &&& ef == 0 ==> r.ef_search == params_of(preset).ef_search
            &&& r.rescore_k == rescore
            &&& r.m == params_of(preset).m
            &&& r.ef_construction == params_of(preset).ef_construction
        }),
{
}

/// The number of vectors from which on a graph is built.
pub open spec fn min_vectors_of(setting: Option<Seq<char>>) -> usize {
    match setting {
        Some(s) => match unsigned_upto(trimmed(s), usize::MAX as nat) {
            Some(n) => n as usize,
            None => HNSW_MIN_VECTORS_DEFAULT,
        },
        None => HNSW_MIN_VECTORS_DEFAULT,
    }
}

/// A setting counts where it is a whole number, zero as well; else the default does.
pub proof fn lemma_min_vectors(n: nat)
    ensures
        n <= usize::MAX ==> min_vectors_of(Some(crate::text::decimal(n))) == n,
        n > usize::MAX ==> min_vectors_of(Some(crate::text::decimal(n)))
            == HNSW_MIN_VECTORS_DEFAULT,
        min_vectors_of(None) == HNSW_MIN_VECTORS_DEFAULT,
{
    crate::text::lemma_decimal_reads_back(n);
    let s = crate::text::decimal(n);
    assert(crate::text::is_digit(s[0]));
    assert(crate::text::is_digit(s[s.len() - 1]));
    let none = Seq::<char>::empty();
    crate::text::lemma_trim_takes_space(none, s, none);
    assert(none + s + none =~= s);
    crate::text::lemma_numbers_read(n, usize::MAX as nat);
}

/// The places of the first `k` hits that are in the subset.
pub open spec fn hits_within(hits: Seq<u64>, subset: Seq<u64>, k: nat) -> Seq<int> {
    let all = places_within(hits, subset.to_set());
    if all.len() <= k {
        all
    } else {
        all.take(k as int)
    }
}

/// Of the hits at most `k` stay, all of them in the subset and in their order; a hit in the subset
/// is left out only behind `k` others.
pub proof fn lemma_hits_within(hits: Seq<u64>, subset: Seq<u64>, k: nat)
    ensures
        ({
            let r = hits_within(hits, subset, k);
            &&& r.len() <= k
            &&& forall|i: int|
                0 <= i < r.len() ==> 0 <= #[trigger] r[i] < hits.len() && subset.contains(
                    hits[r[i]],
                )
            &&& forall|i: int, j: int| 0 <= i < j < r.len() ==> #[trigger] r[i] < #[trigger] r[j]
            &&& forall|p: int|
                0 <= p < hits.len() && subset.contains(#[trigger] hits[p]) && !r.contains(p)
                    ==> r.len() == k && forall|i: int| 0 <= i < r.len() ==> #[trigger] r[i] < p
        }),
{
    let all = places_within(hits, subset.to_set());
    let r = hits_within(hits, subset, k);
    lemma_places_within(hits, subset.to_set());
    assert forall|i: int| 0 <= i < r.len() implies 0 <= #[trigger] r[i] < hits.len()
        && subset.contains(hits[r[i]]) by {
        assert(r[i] == all[i]);
        assert(all.contains(all[i]));
    }
    assert forall|i: int, j: int| 0 <= i < j < r.len() implies #[trigger] r[i] < #[trigger] r[j] by {
        assert(all[i] < all[j]);
    }
    assert forall|p: int|
        0 <= p < hits.len() && subset.contains(#[trigger] hits[p]) && !r.contains(p) implies r.len()
        == k && forall|i: int| 0 <= i < r.len() ==> #[trigger] r[i] < p by {
        assert(subset.to_set().contains(hits[p]));
        assert(all.contains(p));
        let m = choose|m: int| 0 <= m < all.len() && all[m] == p;
        if m < r.len() {
            assert(r[m] == p);
        }
        assert forall|i: int| 0 <= i < r.len() implies #[trigger] r[i] < p by {
            assert(all[i] < all[m]);
        }
    }
}

/// The rows that stay when chunks are removed: those of the other chunks, in their order.
pub proof fn lemma_surviving_rows(chunk_ids: Seq<u64>, removed: Seq<u64>)
    ensures
        ({
            let r = places_within(chunk_ids, removed.to_set().complement());
            &&& forall|p: int| #[trigger]
                r.contains(p) <==> 0 <= p < chunk_ids.len() && !removed.contains(chunk_ids[p])
            &&& forall|i: int, j: int| 0 <= i < j < r.len() ==> #[trigger] r[i] < #[trigger] r[j]
        }),
{
    let s = removed.to_set().complement();
    lemma_places_within(chunk_ids, s);
    let r = places_within(chunk_ids, s);
    assert forall|p: int| #[trigger] r.contains(p) <==> 0 <= p < chunk_ids.len()
        && !removed.contains(chunk_ids[p]) by {
        if 0 <= p < chunk_ids.len() {
            assert(s.contains(chunk_ids[p]) <==> !removed.contains(chunk_ids[p]));
        }
    }
}

/// The graph is built to give as many candidates as the larger of the two widths says, and at least
/// one.
pub proof fn lemma_baked_width(p: HnswParams)
    ensures
        baked_width(p) >= p.ef_search && baked_width(p) >= p.rescore_k && baked_width(p) >= 1,
        baked_width(p) == p.ef_search || baked_width(p) == p.rescore_k || baked_width(p) == 1,
{
}

} // verus!
