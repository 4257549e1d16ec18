//! Architectural overview: output budgets, coupling between top-level directories, and
//! communities of the call graph.

use crate::index::components::{components_of, connected_components};
use crate::index::history::{SqlValue, SqlValueView};
use crate::order::{
    in_order, is_weak_order, lemma_kept, lemma_ranked_contains, lemma_ranked_in_order,
    lemma_ranked_multiset, ranked, sorted, Ranked,
};
use crate::text::{
    chars_of, comes_before, decimal, decimal_text, first_ones, holds_text, lemma_before_total,
    lemma_before_transitive, lemma_first_ones, lemma_marks_add, lemma_no_mark, lemma_one_mark_last,
    opt_text, question_marks, same_text, text_before, text_of_range, views,
};
use crate::types::{chunk_with_id, find_chunk, lemma_chunk_lookup, Chunk, ChunkView};
use vstd::prelude::*;

verus! {

/// Around so many chunks, those of the highest centrality, communities are sought.
pub const COMMUNITY_SEEDS: usize = 200;

/// Below this many chunks an overview shows god nodes only.
pub const ARCH_TINY_REPO_THRESHOLD: u64 = 500;

/// How many entries each part of an overview may hold.
#[derive(Debug, Clone, Copy, PartialEq, Eq, Structural)]
pub struct ArchBudget {
    pub god_nodes: usize,
    pub communities: usize,
    pub boundaries: usize,
    pub deep_examples_max: usize,
    pub exhaustive_max: usize,
}

impl ArchBudget {
    /// The budget of a medium repository.
    pub open spec fn spec_medium() -> ArchBudget {
        ArchBudget {
            god_nodes: 10,
            communities: 5,
            boundaries: 25,
            deep_examples_max: 3,
            exhaustive_max: 25,
        }
    }

    /// The budget used when none is given: that of a medium repository.
    #[verifier::when_used_as_spec(spec_medium)]
    pub fn medium() -> (b: ArchBudget)
        ensures
            b == ArchBudget::spec_medium(),
    {
        ArchBudget {
            god_nodes: 10,
            communities: 5,
            boundaries: 25,
            deep_examples_max: 3,
            exhaustive_max: 25,
        }
    }

    /// Every part of this budget is at most that of `other`.
    pub open spec fn within(self, other: ArchBudget) -> bool {
        &&& self.god_nodes <= other.god_nodes
        &&& self.communities <= other.communities
        &&& self.boundaries <= other.boundaries
        &&& self.deep_examples_max <= other.deep_examples_max
        &&& self.exhaustive_max <= other.exhaustive_max
    }
}

/// The budget for an index of so many chunks.
pub open spec fn budget_for(chunks: nat) -> ArchBudget {
    if chunks <= 2_000 {
        ArchBudget {
            god_nodes: 5,
            communities: 3,
            boundaries: 10,
            deep_examples_max: 1,
            exhaustive_max: 12,
        }
    } else if chunks <= 10_000 {
        ArchBudget::medium()
    } else {
        ArchBudget {
            god_nodes: 15,
            communities: 8,
            boundaries: 40,
            deep_examples_max: 5,
            exhaustive_max: 40,
        }
    }
}

/// The output budget for an index of `chunks` chunks: small up to 2 000, medium up to 10 000,
/// large above.
pub fn budget_for_chunk_count(chunks: usize) -> (b: ArchBudget)
    ensures
        b == budget_for(chunks as nat),
{
    if chunks <= 2_000 {
        ArchBudget {
            god_nodes: 5,
            communities: 3,
            boundaries: 10,
            deep_examples_max: 1,
            exhaustive_max: 12,
        }
    } else if chunks <= 10_000 {
        ArchBudget {
            god_nodes: 10,
            communities: 5,
            boundaries: 25,
            deep_examples_max: 3,
            exhaustive_max: 25,
        }
    } else {
        ArchBudget {
            god_nodes: 15,
            communities: 8,
            boundaries: 40,
            deep_examples_max: 5,
            exhaustive_max: 40,
        }
    }
}

/// A larger index never gets a smaller budget.
pub proof fn lemma_budget_monotone(a: nat, b: nat)
    requires
        a <= b,
    ensures
        budget_for(a).within(budget_for(b)),
{
}

/// The budget to work with: the given one, or that of a medium repository.
pub fn effective_budget(budget: Option<ArchBudget>) -> (b: ArchBudget)
    ensures
        b == (match budget {
            Some(given) => given,
            None => ArchBudget::medium(),
        }),
{
    match budget {
        Some(given) => given,
        None => ArchBudget::medium(),
    }
}

/// The characters of `s` in front of the first `/`.
pub open spec fn up_to_slash(s: Seq<char>) -> Seq<char>
    decreases s.len(),
{
    if s.len() == 0 || s[0] == '/' {
        Seq::empty()
    } else {
        seq![s[0]] + up_to_slash(s.skip(1))
    }
}

/// The first component of a path: `/` for an absolute path, the whole text if there is no `/`.
pub open spec fn top_dir(p: Seq<char>) -> Seq<char> {
    if p.len() > 0 && p[0] == '/' {
        seq!['/']
    } else {
        up_to_slash(p)
    }
}

/// The first component of a path.
pub fn top_level_dir(p: &str) -> (r: String)
    ensures
        r@ == top_dir(p@),
{
    let v: Vec<char> = chars_of(p);
    if v.len() > 0 && v[0] == '/' {
        let r: String = text_of_range(&v, 0, 1);
        proof {
            assert(r@ =~= seq!['/']);
        }
        return r;
    }
    let mut to: usize = 0;
    proof {
        assert(v@.skip(0) =~= v@);
        assert(v@.take(0) + up_to_slash(v@) =~= up_to_slash(v@));
    }
    while to < v.len() && v[to] != '/'
        invariant
            to <= v@.len(),
            up_to_slash(v@) == v@.take(to as int) + up_to_slash(v@.skip(to as int)),
        decreases v@.len() - to,
    {
        proof {
            let rest = v@.skip(to as int);
            assert(rest.skip(1) =~= v@.skip(to + 1));
            assert(v@.take(to as int) + (seq![rest[0]] + up_to_slash(rest.skip(1))) =~= v@.take(
                to + 1,
            ) + up_to_slash(v@.skip(to + 1)));
        }
        to = to + 1;
    }
    proof {
        assert(v@.take(to as int) + up_to_slash(v@.skip(to as int)) =~= v@.subrange(
            0,
            to as int,
        ));
    }
    text_of_range(&v, 0, to)
}

/// A coupling between two top-level directories: how many imports lead from one to the other.
#[derive(Debug, Clone)]
pub struct Boundary {
    pub from: String,
    pub to: String,
    pub edge_count: u64,
}

/// What a [`Boundary`] holds.
pub struct BoundaryView {
    pub from: Seq<char>,
    pub to: Seq<char>,
    pub edge_count: nat,
}

impl View for Boundary {
    type V = BoundaryView;

    open spec fn view(&self) -> BoundaryView {
        BoundaryView { from: self.from@, to: self.to@, edge_count: self.edge_count as nat }
    }
}

impl Ranked for Boundary {
    /// More imports first; on a level, by the two names.
    open spec fn before(a: BoundaryView, b: BoundaryView) -> bool {
        if a.edge_count != b.edge_count {
            a.edge_count > b.edge_count
        } else if a.from != b.from {
            text_before(a.from, b.from)
        } else {
            text_before(a.to, b.to)
        }
    }

    fn goes_before(&self, other: &Self) -> (r: bool) {
        if self.edge_count != other.edge_count {
            self.edge_count > other.edge_count
        } else if !same_text(&self.from, &other.from) {
            comes_before(&self.from, &other.from)
        } else {
            comes_before(&self.to, &other.to)
        }
    }
}

/// An import leads from one top-level directory to another.
pub open spec fn crosses(edge: (Seq<char>, Seq<char>), from: Seq<char>, to: Seq<char>) -> bool {
    from != to && top_dir(edge.0) == from && top_dir(edge.1) == to
}

/// How many of the imports lead from the directory `from` to the directory `to`.
pub open spec fn crossings(
    edges: Seq<(Seq<char>, Seq<char>)>,
    from: Seq<char>,
    to: Seq<char>,
) -> nat
    decreases edges.len(),
{
    if edges.len() == 0 {
        0
    } else {
        crossings(edges.drop_last(), from, to) + if crosses(edges.last(), from, to) {
            1nat
        } else {
            0
        }
    }
}

/// The tally `t` after one more import from `from` to `to`.
pub open spec fn bumped(t: Seq<BoundaryView>, from: Seq<char>, to: Seq<char>) -> Seq<BoundaryView>
    decreases t.len(),
{
    if t.len() == 0 {
        seq![BoundaryView { from, to, edge_count: 1 }]
    } else if t[0].from == from && t[0].to == to {
        seq![BoundaryView { from, to, edge_count: t[0].edge_count + 1 }] + t.skip(1)
    } else {
        seq![t[0]] + bumped(t.skip(1), from, to)
    }
}

/// How many imports lead from each top-level directory to each other one, in the order in which
/// the pairs first occur.
pub open spec fn tally(edges: Seq<(Seq<char>, Seq<char>)>) -> Seq<BoundaryView>
    decreases edges.len(),
{
    if edges.len() == 0 {
        Seq::empty()
    } else {
        let t = tally(edges.drop_last());
        let from = top_dir(edges.last().0);
        let to = top_dir(edges.last().1);
        if from == to {
            t
        } else {
            bumped(t, from, to)
        }
    }
}

/// The entry of `t` for a pair of directories, counted: 0 if there is none.
pub open spec fn tallied(t: Seq<BoundaryView>, from: Seq<char>, to: Seq<char>) -> nat
    decreases t.len(),
{
    if t.len() == 0 {
        0
    } else if t[0].from == from && t[0].to == to {
        t[0].edge_count
    } else {
        tallied(t.skip(1), from, to)
    }
}

/// No two entries are for the same pair, and no entry counts nothing.
pub open spec fn tally_wf(t: Seq<BoundaryView>) -> bool {
    &&& forall|i: int| 0 <= i < t.len() ==> (#[trigger] t[i]).edge_count > 0
    &&& forall|i: int, j: int|
        0 <= i < j < t.len() ==> !((#[trigger] t[i]).from == (#[trigger] t[j]).from && t[i].to
            == t[j].to)
}

proof fn lemma_bumped(t: Seq<BoundaryView>, from: Seq<char>, to: Seq<char>)
    requires
        tally_wf(t),
    ensures
        tally_wf(bumped(t, from, to)),
        forall|f: Seq<char>, g: Seq<char>|
            #[trigger] tallied(bumped(t, from, to), f, g) == tallied(t, f, g) + if f == from && g
                == to {
                1nat
            } else {
                0
            },
        forall|i: int|
            0 <= i < bumped(t, from, to).len() ==> ((#[trigger] bumped(t, from, to)[i]).from == from
                && bumped(t, from, to)[i].to == to) || t.contains(bumped(t, from, to)[i]),
    decreases t.len(),
{
    let r = bumped(t, from, to);
    if t.len() == 0 {
        assert(r.skip(1) =~= Seq::<BoundaryView>::empty());
        assert forall|f: Seq<char>, g: Seq<char>| #[trigger]
            tallied(r, f, g) == tallied(t, f, g) + if f == from && g == to {
                1nat
            } else {
                0
            } by {
            assert(tallied(r.skip(1), f, g) == 0);
        }
    } else if t[0].from == from && t[0].to == to {
        assert(r.skip(1) =~= t.skip(1));
        assert forall|i: int, j: int| 0 <= i < j < r.len() implies !((#[trigger] r[i]).from == (
        #[trigger] r[j]).from && r[i].to == r[j].to) by {
            assert(r[j] == t[j]);
            assert(!(t[0].from == t[j].from && t[0].to == t[j].to));
            if i > 0 {
                assert(r[i] == t[i]);
            }
        }
        assert forall|i: int| 0 <= i < r.len() implies (#[trigger] r[i]).edge_count > 0 by {
            if i > 0 {
                assert(r[i] == t[i]);
            }
        }
        assert forall|i: int| 0 <= i < r.len() implies ((#[trigger] r[i]).from == from && r[i].to
            == to) || t.contains(r[i]) by {
            if i > 0 {
                assert(r[i] == t[i]);
            }
        }
    } else {
        let rest = t.skip(1);
        assert(tally_wf(rest)) by {
            assert forall|i: int| 0 <= i < rest.len() implies (#[trigger] rest[i]).edge_count
                > 0 by {
                assert(rest[i] == t[i + 1]);
            }
            assert forall|i: int, j: int| 0 <= i < j < rest.len() implies !((#[trigger] rest[i]).from
                == (#[trigger] rest[j]).from && rest[i].to == rest[j].to) by {
                assert(rest[i] == t[i + 1] && rest[j] == t[j + 1]);
            }
        }
        lemma_bumped(rest, from, to);
        let b = bumped(rest, from, to);
        assert(r.skip(1) =~= b);
        assert forall|i: int| 0 <= i < r.len() implies (#[trigger] r[i]).edge_count > 0 by {
            if i > 0 {
                assert(r[i] == b[i - 1]);
            }
        }
        assert forall|i: int| 0 <= i < r.len() implies ((#[trigger] r[i]).from == from && r[i].to
            == to) || t.contains(r[i]) by {
            if i > 0 {
                assert(r[i] == b[i - 1]);
                if rest.contains(b[i - 1]) {
                    let k = choose|k: int| 0 <= k < rest.len() && rest[k] == b[i - 1];
                    assert(t[k + 1] == r[i]);
                }
            } else {
                assert(t[0] == r[0]);
            }
        }
        assert forall|i: int, j: int| 0 <= i < j < r.len() implies !((#[trigger] r[i]).from == (
        #[trigger] r[j]).from && r[i].to == r[j].to) by {
            assert(r[j] == b[j - 1]);
            if i > 0 {
                assert(r[i] == b[i - 1]);
            } else if rest.contains(b[j - 1]) {
                let k = choose|k: int| 0 <= k < rest.len() && rest[k] == b[j - 1];
                assert(t[k + 1] == r[j]);
                assert(!(t[0].from == t[k + 1].from && t[0].to == t[k + 1].to));
            }
        }
        assert forall|f: Seq<char>, g: Seq<char>| #[trigger]
            tallied(r, f, g) == tallied(t, f, g) + if f == from && g == to {
                1nat
            } else {
                0
            } by {
            assert(tallied(b, f, g) == tallied(rest, f, g) + if f == from && g == to {
                1nat
            } else {
                0
            });
        }
    }
}

/// The tally has one entry for each pair of directories between which an import leads, and the
/// entry counts these imports.
pub proof fn lemma_tally_counts(edges: Seq<(Seq<char>, Seq<char>)>)
    ensures
        tally_wf(tally(edges)),
        forall|f: Seq<char>, g: Seq<char>| #[trigger]
            tallied(tally(edges), f, g) == crossings(edges, f, g),
    decreases edges.len(),
{
    if edges.len() > 0 {
        lemma_tally_counts(edges.drop_last());
        let from = top_dir(edges.last().0);
        let to = top_dir(edges.last().1);
        if from != to {
            lemma_bumped(tally(edges.drop_last()), from, to);
        }
        assert forall|f: Seq<char>, g: Seq<char>| #[trigger]
            tallied(tally(edges), f, g) == crossings(edges, f, g) by {
            assert(tallied(tally(edges.drop_last()), f, g) == crossings(
                edges.drop_last(),
                f,
                g,
            ));
        }
    }
}

proof fn lemma_tallied_entry(t: Seq<BoundaryView>, i: int)
    requires
        tally_wf(t),
        0 <= i < t.len(),
    ensures
        tallied(t, t[i].from, t[i].to) == t[i].edge_count,
    decreases t.len(),
{
    if i > 0 {
        let rest = t.skip(1);
        assert(!(t[0].from == t[i].from && t[0].to == t[i].to));
        assert(tally_wf(rest)) by {
            assert forall|k: int| 0 <= k < rest.len() implies (#[trigger] rest[k]).edge_count
                > 0 by {
                assert(rest[k] == t[k + 1]);
            }
            assert forall|k: int, j: int| 0 <= k < j < rest.len() implies !((#[trigger] rest[k]).from
                == (#[trigger] rest[j]).from && rest[k].to == rest[j].to) by {
                assert(rest[k] == t[k + 1] && rest[j] == t[j + 1]);
            }
        }
        assert(rest[i - 1] == t[i]);
        lemma_tallied_entry(rest, i - 1);
    }
}

proof fn lemma_crossings_bound(
    edges: Seq<(Seq<char>, Seq<char>)>,
    from: Seq<char>,
    to: Seq<char>,
)
    ensures
        crossings(edges, from, to) <= edges.len(),
    decreases edges.len(),
{
    if edges.len() > 0 {
        lemma_crossings_bound(edges.drop_last(), from, to);
    }
}

/// Counts one more import from `from` to `to`.
fn bump(t: &mut Vec<Boundary>, from: String, to: String)
    requires
        forall|i: int| 0 <= i < old(t)@.len() ==> (#[trigger] old(t)@[i]).edge_count < u64::MAX,
    ensures
        views(final(t)@) == bumped(views(old(t)@), from@, to@),
{
    let ghost s = views(t@);
    let mut i: usize = 0;
    proof {
        assert(s.skip(0) =~= s);
        assert(s.take(0) + bumped(s, from@, to@) =~= bumped(s, from@, to@));
    }
    while i < t.len()
        invariant
            i <= t@.len(),
            s == views(t@),
            t@ == old(t)@,
            forall|k: int| 0 <= k < t@.len() ==> (#[trigger] t@[k]).edge_count < u64::MAX,
            bumped(s, from@, to@) == s.take(i as int) + bumped(s.skip(i as int), from@, to@),
        decreases t@.len() - i,
    {
        let ghost rest = s.skip(i as int);
        proof {
            assert(rest[0] == t@[i as int]@);
            assert(rest.skip(1) =~= s.skip(i + 1));
        }
        if same_text(&t[i].from, &from) && same_text(&t[i].to, &to) {
            let count: u64 = t[i].edge_count + 1;
            let ghost entry = BoundaryView { from: from@, to: to@, edge_count: count as nat };
            t.set(i, Boundary { from, to, edge_count: count });
            proof {
                assert(views(t@) =~= s.take(i as int) + (seq![entry] + rest.skip(1)));
            }
            return ;
        }
        proof {
            assert(s.take(i as int) + (seq![rest[0]] + bumped(rest.skip(1), from@, to@)) =~= s.take(
                i + 1,
            ) + bumped(s.skip(i + 1), from@, to@));
        }
        i = i + 1;
    }
    let ghost entry = BoundaryView { from: from@, to: to@, edge_count: 1 };
    t.push(Boundary { from, to, edge_count: 1 });
    proof {
        assert(s.skip(i as int) =~= Seq::<BoundaryView>::empty());
        assert(views(t@) =~= s.take(i as int) + seq![entry]);
    }
}

/// The heaviest couplings between top-level directories, at most `max_boundaries` of them, the
/// heaviest first. `edges` holds for each import the importing and the imported path.
pub fn build_boundaries_n(edges: &Vec<(String, String)>, max_boundaries: usize) -> (r: Vec<Boundary>)
    ensures
        views(r@) == top_of(ranked::<Boundary>(tally(views(edges@))), max_boundaries as nat),
{
    let ghost all = views(edges@);
    let mut t: Vec<Boundary> = Vec::new();
    let mut i: usize = 0;
    proof {
        assert(views(t@) =~= tally(all.take(0)));
    }
    while i < edges.len()
        invariant
            i <= edges@.len(),
            all == views(edges@),
            views(t@) == tally(all.take(i as int)),
        decreases edges@.len() - i,
    {
        let from: String = top_level_dir(&edges[i].0);
        let to: String = top_level_dir(&edges[i].1);
        let ghost done = all.take(i as int);
        proof {
            assert(all.take(i + 1).drop_last() =~= done);
            assert(all.take(i + 1).last() == (edges@[i as int].0@, edges@[i as int].1@));
            lemma_tally_counts(done);
            assert forall|k: int| 0 <= k < t@.len() implies (#[trigger] t@[k]).edge_count
                < u64::MAX by {
                let e = views(t@)[k];
                lemma_tallied_entry(tally(done), k);
                lemma_crossings_bound(done, e.from, e.to);
                assert(tallied(tally(done), e.from, e.to) == crossings(done, e.from, e.to));
            }
        }
        if !same_text(&from, &to) {
            bump(&mut t, from, to);
        }
        i = i + 1;
    }
    proof {
        assert(all.take(i as int) =~= all);
    }
    let mut r: Vec<Boundary> = sorted(t);
    let ghost full = views(r@);
    if max_boundaries < r.len() {
        r.truncate(max_boundaries);
        proof {
            assert(views(r@) =~= full.take(max_boundaries as int));
        }
    }
    r
}

/// The first `n` values of `s`, or all of them if there are fewer.
pub open spec fn top_of<A>(s: Seq<A>, n: nat) -> Seq<A> {
    if n < s.len() {
        s.take(n as int)
    } else {
        s
    }
}

/// The 25 heaviest couplings between top-level directories.
pub fn build_boundaries(edges: &Vec<(String, String)>) -> (r: Vec<Boundary>)
    ensures
        views(r@) == top_of(ranked::<Boundary>(tally(views(edges@))), 25),
{
    build_boundaries_n(edges, 25)
}

proof fn lemma_boundary_order()
    ensures
        is_weak_order::<Boundary>(),
{
    assert forall|a: BoundaryView, b: BoundaryView| #[trigger] Boundary::before(a, b) implies
        !Boundary::before(b, a) by {
        lemma_before_total(a.from, b.from);
        lemma_before_total(a.to, b.to);
    }
    assert forall|a: BoundaryView, b: BoundaryView, c: BoundaryView|
        !(#[trigger] Boundary::before(a, b)) && !(#[trigger] Boundary::before(
            b,
            c,
        )) implies !Boundary::before(a, c) by {
        lemma_before_total(a.from, b.from);
        lemma_before_total(b.from, c.from);
        lemma_before_total(a.from, c.from);
        lemma_before_total(a.to, b.to);
        lemma_before_total(b.to, c.to);
        lemma_before_total(a.to, c.to);
        if Boundary::before(a, c) {
            if a.from != c.from {
                if text_before(c.from, b.from) && text_before(b.from, a.from) {
                    lemma_before_transitive(c.from, b.from, a.from);
                }
            } else if a.from == b.from {
                if text_before(c.to, b.to) && text_before(b.to, a.to) {
                    lemma_before_transitive(c.to, b.to, a.to);
                }
            }
        }
    }
}

/// One of the entries is for that pair of directories.
pub open spec fn lists_pair(r: Seq<BoundaryView>, from: Seq<char>, to: Seq<char>) -> bool {
    exists|i: int| 0 <= i < r.len() && (#[trigger] r[i]).from == from && r[i].to == to
}

proof fn lemma_tallied_listed(t: Seq<BoundaryView>, from: Seq<char>, to: Seq<char>) -> (k: int)
    requires
        tallied(t, from, to) > 0,
    ensures
        0 <= k < t.len(),
        t[k].from == from && t[k].to == to,
        t[k].edge_count == tallied(t, from, to),
    decreases t.len(),
{
    if t[0].from == from && t[0].to == to {
        0
    } else {
        let k = lemma_tallied_listed(t.skip(1), from, to);
        assert(t.skip(1)[k] == t[k + 1]);
        k + 1
    }
}

/// Of the couplings, at most `max` are given, and all while there are no more, the heaviest first;
/// each is given with the number of imports that lead from the one directory to the other, which is
/// never 0. No pair of directories that is left out has more imports than one that is given.
pub proof fn lemma_boundaries_heaviest_first(edges: Seq<(Seq<char>, Seq<char>)>, max: nat)
    ensures
        ({
            let r = top_of(ranked::<Boundary>(tally(edges)), max);
            &&& tally_wf(tally(edges))
            &&& r.len() == (if tally(edges).len() < max {
                tally(edges).len()
            } else {
                max
            })
            &&& forall|from: Seq<char>, to: Seq<char>| #[trigger]
                crossings(edges, from, to) > 0 && !lists_pair(r, from, to) ==> r.len() == max
                    && forall|i: int|
                    0 <= i < r.len() ==> crossings(edges, from, to) <= (#[trigger] r[i]).edge_count
            &&& in_order::<Boundary>(r)
            &&& forall|i: int|
                0 <= i < r.len() ==> (#[trigger] r[i]).edge_count == crossings(
                    edges,
                    r[i].from,
                    r[i].to,
                ) && r[i].edge_count > 0
        }),
{
    let t = tally(edges);
    let full = ranked::<Boundary>(t);
    let r = top_of(full, max);
    lemma_boundary_order();
    lemma_ranked_in_order::<Boundary>(t);
    lemma_tally_counts(edges);
    assert forall|i: int, j: int| 0 <= i < j < r.len() implies !Boundary::before(
        #[trigger] r[j],
        #[trigger] r[i],
    ) by {
        assert(r[i] == full[i] && r[j] == full[j]);
    }
    assert forall|i: int| 0 <= i < r.len() implies (#[trigger] r[i]).edge_count == crossings(
        edges,
        r[i].from,
        r[i].to,
    ) && r[i].edge_count > 0 by {
        assert(full[i] == r[i]);
        assert(full.contains(r[i]));
        lemma_ranked_contains::<Boundary>(t, r[i]);
        let k = choose|k: int| 0 <= k < t.len() && t[k] == r[i];
        lemma_tallied_entry(t, k);
        assert(tallied(t, r[i].from, r[i].to) == crossings(edges, r[i].from, r[i].to));
    }
    lemma_ranked_multiset::<Boundary>(t);
    assert forall|from: Seq<char>, to: Seq<char>| #[trigger]
        crossings(edges, from, to) > 0 && !lists_pair(r, from, to) implies r.len() == max
        && forall|i: int|
        0 <= i < r.len() ==> crossings(edges, from, to) <= (#[trigger] r[i]).edge_count by {
        assert(tallied(t, from, to) == crossings(edges, from, to));
        let k = lemma_tallied_listed(t, from, to);
        assert(t.contains(t[k]));
        lemma_ranked_contains::<Boundary>(t, t[k]);
        let m = choose|m: int| 0 <= m < full.len() && full[m] == t[k];
        if m < r.len() {
            assert(r[m].from == from && r[m].to == to);
        }
        assert forall|i: int| 0 <= i < r.len() implies crossings(edges, from, to) <= (#[trigger]
        r[i]).edge_count by {
            assert(r[i] == full[i]);
            assert(!Boundary::before(full[m], full[i]));
        }
    }
}

/// A chunk of high centrality. `score` orders the chunks as their centralities do: a greater
/// score stands for a greater centrality, an equal score for an equal one.
#[derive(Debug, Clone, Copy)]
pub struct Seed {
    pub chunk_id: u64,
    pub score: u64,
}

/// A highly central symbol of a community, with the lines of its definition.
#[derive(Debug, Clone)]
pub struct EntryPoint {
    pub symbol: String,
    pub file: String,
    pub start_line: u32,
    pub end_line: u32,
}

/// What an [`EntryPoint`] holds.
pub struct EntryPointView {
    pub symbol: Seq<char>,
    pub file: Seq<char>,
    pub start_line: u32,
    pub end_line: u32,
}

impl View for EntryPoint {
    type V = EntryPointView;

    open spec fn view(&self) -> EntryPointView {
        EntryPointView {
            symbol: self.symbol@,
            file: self.file@,
            start_line: self.start_line,
            end_line: self.end_line,
        }
    }
}

/// A connected component of the call graph around the seeds.
#[derive(Debug, Clone)]
pub struct Community {
    pub label: String,
    pub size: usize,
    pub member_files: Vec<String>,
    pub entry_points: Vec<EntryPoint>,
}

/// What a [`Community`] holds.
pub struct CommunityView {
    pub label: Seq<char>,
    pub size: nat,
    pub member_files: Seq<Seq<char>>,
    pub entry_points: Seq<EntryPointView>,
}

impl View for Community {
    type V = CommunityView;

    open spec fn view(&self) -> CommunityView {
        CommunityView {
            label: self.label@,
            size: self.size as nat,
            member_files: views(self.member_files@),
            entry_points: views(self.entry_points@),
        }
    }
}

/// A connected component as a list of chunk ids.
pub struct Component {
    pub members: Vec<u64>,
}

impl View for Component {
    type V = Seq<u64>;

    open spec fn view(&self) -> Seq<u64> {
        self.members@
    }
}

impl Ranked for Component {
    /// The larger component first.
    open spec fn before(a: Seq<u64>, b: Seq<u64>) -> bool {
        a.len() > b.len()
    }

    fn goes_before(&self, other: &Self) -> (r: bool) {
        self.members.len() > other.members.len()
    }
}

/// A member of a component, with its score if it is a seed.
#[derive(Debug, Clone, Copy)]
pub struct Member {
    pub id: u64,
    pub score: Option<u64>,
}

impl View for Member {
    type V = Member;

    open spec fn view(&self) -> Member {
        *self
    }
}

impl Ranked for Member {
    /// The greater score first; members without a score last.
    open spec fn before(a: Member, b: Member) -> bool {
        match (a.score, b.score) {
            (Some(x), Some(y)) => x > y,
            (Some(_), None) => true,
            _ => false,
        }
    }

    fn goes_before(&self, other: &Self) -> (r: bool) {
        match (self.score, other.score) {
            (Some(x), Some(y)) => x > y,
            (Some(_), None) => true,
            _ => false,
        }
    }
}

/// The ids of the seeds.
pub open spec fn seed_ids(seeds: Seq<Seed>) -> Seq<u64> {
    Seq::new(seeds.len(), |i: int| seeds[i].chunk_id)
}

/// The score of a chunk, if it is a seed.
pub open spec fn score_of(seeds: Seq<Seed>, id: u64) -> Option<u64>
    decreases seeds.len(),
{
    if seeds.len() == 0 {
        None
    } else if seeds.last().chunk_id == id {
        Some(seeds.last().score)
    } else {
        score_of(seeds.drop_last(), id)
    }
}

/// The members of a component with their scores.
pub open spec fn scored(members: Seq<u64>, seeds: Seq<Seed>) -> Seq<Member> {
    Seq::new(members.len(), |i: int| Member { id: members[i], score: score_of(seeds, members[i]) })
}

/// The files and entry points met when the members are gone through in order, until there are
/// eight files. A member without a chunk is passed over; only the first three chunks met are
/// entry points.
pub open spec fn gathered(members: Seq<Member>, chunks: Seq<ChunkView>) -> (
    Seq<Seq<char>>,
    Seq<EntryPointView>,
)
    decreases members.len(),
{
    if members.len() == 0 {
        (Seq::empty(), Seq::empty())
    } else {
        let (files, entries) = gathered(members.drop_last(), chunks);
        match chunk_with_id(chunks, members.last().id) {
            Some(c) if files.len() < 8 => (
                if files.contains(c.file_path) {
                    files
                } else {
                    files.push(c.file_path)
                },
                if entries.len() < 3 {
                    entries.push(
                        EntryPointView {
                            symbol: c.label(),
                            file: c.file_path,
                            start_line: c.start_line,
                            end_line: c.end_line,
                        },
                    )
                } else {
                    entries
                },
            ),
            _ => (files, entries),
        }
    }
}

/// The members of a component whose chunks are looked at: the twenty of the highest scores.
pub open spec fn leading_members(members: Seq<u64>, seeds: Seq<Seed>) -> Seq<Member> {
    top_of(ranked::<Member>(scored(members, seeds)), 20)
}

/// The community that the component at position `i` makes.
pub open spec fn community_of(
    i: int,
    members: Seq<u64>,
    seeds: Seq<Seed>,
    chunks: Seq<ChunkView>,
) -> CommunityView {
    let (files, entries) = gathered(leading_members(members, seeds), chunks);
    CommunityView {
        label: "community-"@ + decimal((i + 1) as nat),
        size: members.len(),
        member_files: files,
        entry_points: entries,
    }
}

/// The components of the call graph around the seeds, the `max` largest, the largest first.
pub open spec fn largest_components(
    seeds: Seq<Seed>,
    call_out: Seq<(u64, u64)>,
    call_in: Seq<(u64, u64)>,
    max: nat,
) -> Seq<Seq<u64>> {
    if max == 0 || seeds.len() == 0 {
        Seq::empty()
    } else {
        top_of(ranked::<Component>(components_of(seed_ids(seeds), call_out + call_in)), max)
    }
}

/// The score of a chunk, if it is a seed.
fn find_score(seeds: &Vec<Seed>, id: u64) -> (r: Option<u64>)
    ensures
        r == score_of(seeds@, id),
{
    let mut i: usize = seeds.len();
    proof {
        assert(seeds@.take(i as int) =~= seeds@);
    }
    while i > 0
        invariant
            i <= seeds@.len(),
            score_of(seeds@, id) == score_of(seeds@.take(i as int), id),
        decreases i,
    {
        proof {
            assert(seeds@.take(i as int).drop_last() =~= seeds@.take(i - 1));
        }
        if seeds[i - 1].chunk_id == id {
            return Some(seeds[i - 1].score);
        }
        i = i - 1;
    }
    None
}

/// The `max_communities` largest components of the call graph around the seeds, the largest
/// first; none if there are no seeds. `call_out` and `call_in` hold the call edges that leave and
/// that reach a seed.
pub fn find_components(
    seeds: &Vec<Seed>,
    call_out: &Vec<(u64, u64)>,
    call_in: &Vec<(u64, u64)>,
    max_communities: usize,
) -> (r: Vec<Component>)
    ensures
        views(r@) == largest_components(seeds@, call_out@, call_in@, max_communities as nat),
{
    if max_communities == 0 || seeds.len() == 0 {
        let r: Vec<Component> = Vec::new();
        proof {
            assert(views(r@) =~= Seq::<Seq<u64>>::empty());
        }
        return r;
    }
    let mut ids: Vec<u64> = Vec::new();
    let mut i: usize = 0;
    while i < seeds.len()
        invariant
            i <= seeds@.len(),
            ids@ == seed_ids(seeds@).take(i as int),
        decreases seeds@.len() - i,
    {
        ids.push(seeds[i].chunk_id);
        i = i + 1;
    }
    proof {
        assert(seed_ids(seeds@).take(i as int) =~= seed_ids(seeds@));
    }
    let mut edges: Vec<(u64, u64)> = Vec::new();
    let mut j: usize = 0;
    while j < call_out.len()
        invariant
            j <= call_out@.len(),
            edges@ == call_out@.take(j as int),
        decreases call_out@.len() - j,
    {
        edges.push(call_out[j]);
        j = j + 1;
    }
    let mut k: usize = 0;
    proof {
        assert(call_out@.take(j as int) =~= call_out@);
        assert(edges@ =~= call_out@ + call_in@.take(0));
    }
    while k < call_in.len()
        invariant
            k <= call_in@.len(),
            edges@ == call_out@ + call_in@.take(k as int),
        decreases call_in@.len() - k,
    {
        edges.push(call_in[k]);
        k = k + 1;
        proof {
            assert(edges@ =~= call_out@ + call_in@.take(k as int));
        }
    }
    proof {
        assert(call_in@.take(k as int) =~= call_in@);
    }
    let found: Vec<Vec<u64>> = connected_components(&ids, &edges);
    let ghost all = views(found@);
    let mut components: Vec<Component> = Vec::new();
    for members in it: found
        invariant
            it.seq() == found@,
            all == views(found@),
            views(components@) == all.take(it.index()),
    {
        let ghost before = views(components@);
        components.push(Component { members });
        proof {
            assert(views(components@) =~= before.push(members@));
            assert(views(components@) =~= all.take(it.index() + 1));
        }
    }
    proof {
        assert(all.take(all.len() as int) =~= all);
    }
    let mut r: Vec<Component> = sorted(components);
    let ghost full = views(r@);
    if max_communities < r.len() {
        r.truncate(max_communities);
        proof {
            assert(views(r@) =~= full.take(max_communities as int));
        }
    }
    r
}

/// The members of a component whose chunks are looked at: the twenty of the highest scores.
pub fn pick_leading_members(component: &Component, seeds: &Vec<Seed>) -> (r: Vec<Member>)
    ensures
        r@ == leading_members(component@, seeds@),
{
    let mut members: Vec<Member> = Vec::new();
    let ghost all = scored(component@, seeds@);
    let mut i: usize = 0;
    while i < component.members.len()
        invariant
            i <= component@.len(),
            all == scored(component@, seeds@),
            members@ == all.take(i as int),
        decreases component@.len() - i,
    {
        let id: u64 = component.members[i];
        members.push(Member { id, score: find_score(seeds, id) });
        i = i + 1;
        proof {
            assert(members@ =~= all.take(i as int));
        }
    }
    proof {
        assert(members@ =~= all);
        assert(views(members@) =~= all);
    }
    let mut r: Vec<Member> = sorted(members);
    proof {
        assert(views(r@) =~= r@);
    }
    if 20 < r.len() {
        let ghost full = r@;
        r.truncate(20);
        proof {
            assert(r@ =~= full.take(20));
        }
    }
    r
}

/// The community that the component at position `i` makes.
fn make_community(i: usize, component: &Component, seeds: &Vec<Seed>, chunks: &Vec<Chunk>) -> (r:
    Community)
    requires
        i < usize::MAX,
    ensures
        r@ == community_of(i as int, component@, seeds@, views(chunks@)),
{
    let members: Vec<Member> = pick_leading_members(component, seeds);
    let mut files: Vec<String> = Vec::new();
    let mut entries: Vec<EntryPoint> = Vec::new();
    let ghost cs = views(chunks@);
    let mut k: usize = 0;
    proof {
        assert(views(files@) =~= Seq::<Seq<char>>::empty());
        assert(views(entries@) =~= Seq::<EntryPointView>::empty());
    }
    while k < members.len()
        invariant
            k <= members@.len(),
            cs == views(chunks@),
            (views(files@), views(entries@)) == gathered(members@.take(k as int), cs),
        decreases members@.len() - k,
    {
        let ghost fs = views(files@);
        let ghost es = views(entries@);
        proof {
            assert(members@.take(k + 1).drop_last() =~= members@.take(k as int));
        }
        let at: Option<usize> = find_chunk(chunks, members[k].id);
        if files.len() < 8 {
            match at {
                Some(p) => {
                    let c: &Chunk = &chunks[p];
                    if !holds_text(&files, &c.file_path) {
                        files.push(c.file_path.clone());
                        proof {
                            assert(views(files@) =~= fs.push(c@.file_path));
                        }
                    }
                    if entries.len() < 3 {
                        let e: EntryPoint = EntryPoint {
                            symbol: c.symbol_or_file(),
                            file: c.file_path.clone(),
                            start_line: c.start_line,
                            end_line: c.end_line,
                        };
                        entries.push(e);
                        proof {
                            assert(views(entries@) =~= es.push(e@));
                        }
                    }
                },
                None => {},
            }
        }
        k = k + 1;
    }
    proof {
        assert(members@.take(k as int) =~= members@);
    }
    let mut label: String = "community-".to_owned();
    label.append(&decimal_text((i + 1) as u64));
    Community { label, size: component.members.len(), member_files: files, entry_points: entries }
}

/// The communities of the call graph: its `max_communities` largest components around the seeds,
/// the largest first, each with the files and entry points of its most central members. `chunks`
/// holds the chunks of the members that could be read.
pub fn build_communities_n(
    seeds: &Vec<Seed>,
    call_out: &Vec<(u64, u64)>,
    call_in: &Vec<(u64, u64)>,
    chunks: &Vec<Chunk>,
    max_communities: usize,
) -> (r: Vec<Community>)
    ensures
        ({
            let found = largest_components(
                seeds@,
                call_out@,
                call_in@,
                max_communities as nat,
            );
            &&& r@.len() == found.len()
            &&& forall|i: int|
                0 <= i < found.len() ==> (#[trigger] r@[i])@ == community_of(
                    i,
                    found[i],
                    seeds@,
                    views(chunks@),
                )
        }),
{
    let components: Vec<Component> = find_components(seeds, call_out, call_in, max_communities);
    let mut r: Vec<Community> = Vec::new();
    let mut i: usize = 0;
    while i < components.len()
        invariant
            i <= components@.len(),
            r@.len() == i,
            forall|k: int|
                0 <= k < i ==> (#[trigger] r@[k])@ == community_of(
                    k,
                    components@[k]@,
                    seeds@,
                    views(chunks@),
                ),
        decreases components@.len() - i,
    {
        r.push(make_community(i, &components[i], seeds, chunks));
        i = i + 1;
    }
    r
}

/// The five largest communities of the call graph.
pub fn build_communities(
    seeds: &Vec<Seed>,
    call_out: &Vec<(u64, u64)>,
    call_in: &Vec<(u64, u64)>,
    chunks: &Vec<Chunk>,
) -> (r: Vec<Community>)
    ensures
        ({
            let found = largest_components(seeds@, call_out@, call_in@, 5);
            &&& r@.len() == found.len()
            &&& forall|i: int|
                0 <= i < found.len() ==> (#[trigger] r@[i])@ == community_of(
                    i,
                    found[i],
                    seeds@,
                    views(chunks@),
                )
        }),
{
    build_communities_n(seeds, call_out, call_in, chunks, 5)
}

/// At most `max` components are given, and all while there are no more, the largest first, and each
/// is a connected component of the call graph around the seeds. No component that is left out is
/// larger than one that is given.
pub proof fn lemma_largest_components_first(
    seeds: Seq<Seed>,
    call_out: Seq<(u64, u64)>,
    call_in: Seq<(u64, u64)>,
    max: nat,
)
    ensures
        ({
            let r = largest_components(seeds, call_out, call_in, max);
            let found = components_of(seed_ids(seeds), call_out + call_in);
            &&& seeds.len() == 0 ==> r.len() == 0
            &&& seeds.len() > 0 ==> r.len() == (if found.len() < max {
                found.len()
            } else {
                max
            })
            &&& forall|c: Seq<u64>| #[trigger]
                found.contains(c) && seeds.len() > 0 && !r.contains(c) ==> r.len() == max && forall|
                    i: int,
                |
                    0 <= i < r.len() ==> c.len() <= (#[trigger] r[i]).len()
            &&& forall|i: int, j: int|
                0 <= i < j < r.len() ==> (#[trigger] r[i]).len() >= (#[trigger] r[j]).len()
            &&& forall|i: int|
                0 <= i < r.len() ==> components_of(seed_ids(seeds), call_out + call_in).contains(
                    #[trigger] r[i],
                )
        }),
{
    if max > 0 && seeds.len() > 0 {
        let found = components_of(seed_ids(seeds), call_out + call_in);
        let full = ranked::<Component>(found);
        let r = top_of(full, max);
        assert(is_weak_order::<Component>());
        lemma_ranked_in_order::<Component>(found);
        assert forall|i: int, j: int| 0 <= i < j < r.len() implies (#[trigger] r[i]).len() >= (
        #[trigger] r[j]).len() by {
            assert(r[i] == full[i] && r[j] == full[j]);
            assert(!Component::before(full[j], full[i]));
        }
        assert forall|i: int| 0 <= i < r.len() implies found.contains(#[trigger] r[i]) by {
            assert(full[i] == r[i]);
            assert(full.contains(r[i]));
            lemma_ranked_contains::<Component>(found, r[i]);
        }
        lemma_ranked_multiset::<Component>(found);
        assert forall|c: Seq<u64>| #[trigger] found.contains(c) && !r.contains(c) implies r.len()
            == max && forall|i: int|
            0 <= i < r.len() ==> c.len() <= (#[trigger] r[i]).len() by {
            lemma_ranked_contains::<Component>(found, c);
            let m = choose|m: int| 0 <= m < full.len() && full[m] == c;
            if m < r.len() {
                assert(r[m] == c);
            }
            assert forall|i: int| 0 <= i < r.len() implies c.len() <= (#[trigger] r[i]).len() by {
                assert(r[i] == full[i]);
                assert(!Component::before(full[m], full[i]));
            }
        }
    }
}

/// A chunk at the top of the centrality ranking. `centrality_bits` are the bits of its score, a
/// double-precision number.
#[derive(Debug, Clone)]
pub struct GodNode {
    pub chunk_id: u64,
    pub centrality_bits: u64,
    pub symbol: String,
    pub file: String,
    pub start_line: u32,
    pub end_line: u32,
    pub semantic_role: Option<String>,
}

/// What a [`GodNode`] holds.
pub struct GodNodeView {
    pub chunk_id: u64,
    pub centrality_bits: u64,
    pub symbol: Seq<char>,
    pub file: Seq<char>,
    pub start_line: u32,
    pub end_line: u32,
    pub semantic_role: Option<Seq<char>>,
}

impl View for GodNode {
    type V = GodNodeView;

    open spec fn view(&self) -> GodNodeView {
        GodNodeView {
            chunk_id: self.chunk_id,
            centrality_bits: self.centrality_bits,
            symbol: self.symbol@,
            file: self.file@,
            start_line: self.start_line,
            end_line: self.end_line,
            semantic_role: opt_text(self.semantic_role),
        }
    }
}

/// The role recorded for the chunk `id`, the last one if there are several.
pub open spec fn role_of(roles: Seq<(u64, Seq<char>)>, id: u64) -> Option<Seq<char>>
    decreases roles.len(),
{
    if roles.len() == 0 {
        None
    } else if roles.last().0 == id {
        Some(roles.last().1)
    } else {
        role_of(roles.drop_last(), id)
    }
}

/// The god nodes for the ranking `top` of chunk ids and scores: one for each chunk that could be
/// read, in the order of the ranking, named by its symbol or else by its file.
pub open spec fn god_nodes_of(
    top: Seq<(u64, u64)>,
    chunks: Seq<ChunkView>,
    roles: Seq<(u64, Seq<char>)>,
) -> Seq<GodNodeView>
    decreases top.len(),
{
    if top.len() == 0 {
        Seq::empty()
    } else {
        let r = god_nodes_of(top.drop_last(), chunks, roles);
        let (id, bits) = top.last();
        match chunk_with_id(chunks, id) {
            Some(c) => r.push(
                GodNodeView {
                    chunk_id: id,
                    centrality_bits: bits,
                    symbol: c.label(),
                    file: c.file_path,
                    start_line: c.start_line,
                    end_line: c.end_line,
                    semantic_role: role_of(roles, id),
                },
            ),
            None => r,
        }
    }
}

/// The role recorded for the chunk `id`.
fn find_role(roles: &Vec<(u64, String)>, id: u64) -> (r: Option<String>)
    ensures
        opt_text(r) == role_of(views(roles@), id),
{
    let ghost all = views(roles@);
    let mut i: usize = roles.len();
    proof {
        assert(all.take(i as int) =~= all);
    }
    while i > 0
        invariant
            i <= roles@.len(),
            all == views(roles@),
            role_of(all, id) == role_of(all.take(i as int), id),
        decreases i,
    {
        proof {
            assert(all.take(i as int).drop_last() =~= all.take(i - 1));
            assert(all.take(i as int).last() == roles@[i - 1]@);
        }
        if roles[i - 1].0 == id {
            return Some(roles[i - 1].1.clone());
        }
        i = i - 1;
    }
    None
}

/// The god nodes for a ranking of chunk ids, each with the bits of its score. `chunks` holds the
/// chunks that could be read, `roles` the semantic roles that are known.
pub fn build_god_nodes(
    top: &Vec<(u64, u64)>,
    chunks: &Vec<Chunk>,
    roles: &Vec<(u64, String)>,
) -> (r: Vec<GodNode>)
    ensures
        views(r@) == god_nodes_of(top@, views(chunks@), views(roles@)),
{
    let mut r: Vec<GodNode> = Vec::new();
    let mut i: usize = 0;
    proof {
        assert(views(r@) =~= Seq::<GodNodeView>::empty());
    }
    while i < top.len()
        invariant
            i <= top@.len(),
            views(r@) == god_nodes_of(top@.take(i as int), views(chunks@), views(roles@)),
        decreases top@.len() - i,
    {
        let (id, bits) = top[i];
        let ghost shown = views(r@);
        proof {
            assert(top@.take(i + 1).drop_last() =~= top@.take(i as int));
        }
        match find_chunk(chunks, id) {
            Some(p) => {
                let c: &Chunk = &chunks[p];
                let g: GodNode = GodNode {
                    chunk_id: id,
                    centrality_bits: bits,
                    symbol: c.symbol_or_file(),
                    file: c.file_path.clone(),
                    start_line: c.start_line,
                    end_line: c.end_line,
                    semantic_role: find_role(roles, id),
                };
                r.push(g);
                proof {
                    assert(views(r@) =~= shown.push(g@));
                }
            },
            None => {},
        }
        i = i + 1;
    }
    proof {
        assert(top@.take(i as int) =~= top@);
    }
    r
}

/// The architecture of a repository in short.
#[derive(Debug, Clone)]
pub struct ArchOverview {
    pub god_nodes: Vec<GodNode>,
    pub communities: Vec<Community>,
    pub boundaries: Vec<Boundary>,
}

/// What the index holds about the architecture of a repository.
#[derive(Debug, Clone)]
pub struct ArchFacts {
    /// The chunks of the highest centrality, the highest first, each with the bits of its score.
    pub top: Vec<(u64, u64)>,
    /// The chunks around which communities are sought.
    pub seeds: Vec<Seed>,
    pub call_out: Vec<(u64, u64)>,
    pub call_in: Vec<(u64, u64)>,
    /// The importing and the imported path of each import.
    pub module_edges: Vec<(String, String)>,
    /// The chunks that could be read.
    pub chunks: Vec<Chunk>,
    /// The semantic roles that are known, by chunk.
    pub roles: Vec<(u64, String)>,
}

/// The architecture of a repository, each part kept to the budget, or to that of a medium
/// repository if none is given.
pub fn build_arch_overview(facts: &ArchFacts, budget: Option<ArchBudget>) -> (r: ArchOverview)
    ensures
        ({
            let b = match budget {
                Some(given) => given,
                None => ArchBudget::medium(),
            };
            let found = largest_components(
                facts.seeds@,
                facts.call_out@,
                facts.call_in@,
                b.communities as nat,
            );
            &&& views(r.god_nodes@) == god_nodes_of(
                top_of(facts.top@, b.god_nodes as nat),
                views(facts.chunks@),
                views(facts.roles@),
            )
            &&& r.communities@.len() == found.len()
            &&& forall|i: int|
                0 <= i < found.len() ==> (#[trigger] r.communities@[i])@ == community_of(
                    i,
                    found[i],
                    facts.seeds@,
                    views(facts.chunks@),
                )
            &&& views(r.boundaries@) == top_of(
                ranked::<Boundary>(tally(views(facts.module_edges@))),
                b.boundaries as nat,
            )
            &&& (views(r.god_nodes@), views(r.communities@), views(r.boundaries@)) == overview_parts(
                *facts,
                b,
            )
        }),
{
    let b: ArchBudget = effective_budget(budget);
    let mut top: Vec<(u64, u64)> = Vec::new();
    let mut i: usize = 0;
    while i < facts.top.len() && i < b.god_nodes
        invariant
            i <= facts.top@.len(),
            i <= b.god_nodes,
            top@ == facts.top@.take(i as int),
        decreases facts.top@.len() - i,
    {
        top.push(facts.top[i]);
        i = i + 1;
    }
    proof {
        assert(top@ =~= top_of(facts.top@, b.god_nodes as nat));
    }
    let r: ArchOverview = ArchOverview {
        god_nodes: build_god_nodes(&top, &facts.chunks, &facts.roles),
        communities: build_communities_n(
            &facts.seeds,
            &facts.call_out,
            &facts.call_in,
            &facts.chunks,
            b.communities,
        ),
        boundaries: build_boundaries_n(&facts.module_edges, b.boundaries),
    };
    proof {
        assert(views(r.communities@) =~= overview_parts(*facts, b).1);
    }
    r
}

/// A statement and the values bound to its placeholders.
#[derive(Debug, Clone)]
pub struct BoundStatement {
    pub sql: String,
    pub bound: Vec<SqlValue>,
}

/// The statement that looks up the chunks in which a pattern was found, at most `max` of them, in
/// one language or in all; `None` where the index has no table of patterns, so that nothing is
/// found.
pub fn query_pattern_matches(has_table: bool, pattern: &str, language: Option<&str>, max: usize) -> (r:
    Option<BoundStatement>)
    ensures
        r is Some == has_table,
        r is Some ==> r->0.sql@ == pattern_sql(language is Some),
        r is Some ==> views(r->0.bound@) == pattern_bound(
            pattern@,
            match language {
                Some(l) => Some(l@),
                None => None,
            },
            max,
        ),
{
    if !has_table {
        return None;
    }
    let mut bound: Vec<SqlValue> = Vec::new();
    bound.push(SqlValue::Text(pattern.to_owned()));
    let sql: String = match language {
        Some(l) => {
            bound.push(SqlValue::Text(l.to_owned()));
            "SELECT chunk_id, pattern_name, language FROM pattern_matches WHERE pattern_name = ?1 AND language = ?2 LIMIT ?3".to_owned()
        },
        None =>
            "SELECT chunk_id, pattern_name, language FROM pattern_matches WHERE pattern_name = ?1 LIMIT ?2".to_owned(),
    };
    bound.push(SqlValue::Integer(max as i64));
    proof {
        match language {
            Some(l) => {
                assert(views(bound@) =~= seq![
                    SqlValueView::Text(pattern@),
                    SqlValueView::Text(l@),
                    SqlValueView::Integer(max as i64),
                ]);
            },
            None => {
                assert(views(bound@) =~= seq![
                    SqlValueView::Text(pattern@),
                    SqlValueView::Integer(max as i64),
                ]);
            },
        }
    }
    Some(BoundStatement { sql, bound })
}

proof fn lemma_up_to_slash(a: Seq<char>, rest: Seq<char>)
    requires
        !a.contains('/'),
    ensures
        up_to_slash(a.push('/') + rest) == a,
        up_to_slash(a) == a,
    decreases a.len(),
{
    let s = a.push('/') + rest;
    if a.len() > 0 {
        let b = a.skip(1);
        assert forall|c: char| #[trigger] b.contains(c) implies a.contains(c) by {
            let k = choose|k: int| 0 <= k < b.len() && b[k] == c;
            assert(a[k + 1] == c);
        }
        lemma_up_to_slash(b, rest);
        assert(s.skip(1) =~= b.push('/') + rest);
        assert(s[0] == a[0]);
        assert(a.contains(a[0]));
        assert(seq![a[0]] + b =~= a);
    } else {
        assert(s[0] == '/');
        assert(up_to_slash(s) =~= a);
        assert(up_to_slash(a) =~= a);
    }
}

/// The top-level directory of a path is its first component: what stands before its first slash, or
/// the whole path if it has none; an absolute path lies under the root.
pub proof fn lemma_top_dir(a: Seq<char>, rest: Seq<char>)
    requires
        !a.contains('/'),
    ensures
        a.len() > 0 ==> top_dir(a.push('/') + rest) == a,
        top_dir(a) == a,
        top_dir(seq!['/'] + rest) == seq!['/'],
{
    lemma_up_to_slash(a, rest);
    if a.len() > 0 {
        assert(a.contains(a[0]));
        assert((a.push('/') + rest)[0] == a[0]);
    }
}

/// The imports that are counted from one directory to another are those of which the first file
/// lies in the one and the second in the other; imports within a directory are not counted.
pub proof fn lemma_crossings(edges: Seq<(Seq<char>, Seq<char>)>, from: Seq<char>, to: Seq<char>)
    ensures
        from != to ==> crossings(edges, from, to) == edges.filter(
            |e: (Seq<char>, Seq<char>)| top_dir(e.0) == from && top_dir(e.1) == to,
        ).len(),
        from == to ==> crossings(edges, from, to) == 0,
    decreases edges.len(),
{
    reveal(Seq::filter);
    if edges.len() > 0 {
        lemma_crossings(edges.drop_last(), from, to);
    }
}

/// Couplings of the same weight are given by the name of the first directory, and those from the
/// same directory by that of the second.
pub proof fn lemma_boundaries_by_name(edges: Seq<(Seq<char>, Seq<char>)>, max: nat)
    ensures
        ({
            let r = top_of(ranked::<Boundary>(tally(edges)), max);
            &&& r.len() <= max
            &&& forall|i: int, j: int|
                0 <= i < j < r.len() && (#[trigger] r[i]).edge_count == (
                #[trigger] r[j]).edge_count ==> r[i].from == r[j].from || text_before(
                    r[i].from,
                    r[j].from,
                )
            &&& forall|i: int, j: int|
                0 <= i < j < r.len() && (#[trigger] r[i]).edge_count == (
                #[trigger] r[j]).edge_count && r[i].from == r[j].from ==> r[i].to == r[j].to
                    || text_before(r[i].to, r[j].to)
        }),
{
    let s = ranked::<Boundary>(tally(edges));
    let r = top_of(s, max);
    lemma_boundary_order();
    lemma_ranked_in_order::<Boundary>(tally(edges));
    assert forall|i: int, j: int| 0 <= i < j < r.len() implies !Boundary::before(
        #[trigger] r[j],
        #[trigger] r[i],
    ) by {
        assert(r[i] == s[i] && r[j] == s[j]);
    }
    assert forall|i: int, j: int|
        0 <= i < j < r.len() && (#[trigger] r[i]).edge_count == (
        #[trigger] r[j]).edge_count implies r[i].from == r[j].from || text_before(
        r[i].from,
        r[j].from,
    ) by {
        lemma_before_total(r[i].from, r[j].from);
        assert(!Boundary::before(r[j], r[i]));
    }
    assert forall|i: int, j: int|
        0 <= i < j < r.len() && (#[trigger] r[i]).edge_count == (#[trigger] r[j]).edge_count
            && r[i].from == r[j].from implies r[i].to == r[j].to || text_before(
        r[i].to,
        r[j].to,
    ) by {
        lemma_before_total(r[i].to, r[j].to);
        assert(!Boundary::before(r[j], r[i]));
    }
}

/// The score of a chunk is that of the last seed under its id; without a seed it has none.
pub proof fn lemma_score_lookup(seeds: Seq<Seed>, id: u64)
    ensures
        forall|i: int|
            0 <= i < seeds.len() && (#[trigger] seeds[i]).chunk_id == id && (forall|j: int|
                i < j < seeds.len() ==> (#[trigger] seeds[j]).chunk_id != id) ==> score_of(
                seeds,
                id,
            ) == Some(seeds[i].score),
        (forall|i: int| 0 <= i < seeds.len() ==> (#[trigger] seeds[i]).chunk_id != id)
            ==> score_of(seeds, id) is None,
    decreases seeds.len(),
{
    if seeds.len() > 0 {
        let front = seeds.drop_last();
        let n = seeds.len() - 1;
        lemma_score_lookup(front, id);
        assert(seeds[n] == seeds.last());
        assert forall|i: int|
            0 <= i < seeds.len() && (#[trigger] seeds[i]).chunk_id == id && (forall|j: int|
                i < j < seeds.len() ==> (#[trigger] seeds[j]).chunk_id != id) implies score_of(
            seeds,
            id,
        ) == Some(seeds[i].score) by {
            if i < n {
                assert(seeds[n].chunk_id != id);
                assert(front[i] == seeds[i]);
                assert forall|j: int| i < j < front.len() implies (#[trigger] front[j]).chunk_id
                    != id by {
                    assert(front[j] == seeds[j]);
                }
            }
        }
        if forall|i: int| 0 <= i < seeds.len() ==> (#[trigger] seeds[i]).chunk_id != id {
            assert(seeds[n].chunk_id != id);
            assert forall|j: int| 0 <= j < front.len() implies (#[trigger] front[j]).chunk_id
                != id by {
                assert(front[j] == seeds[j]);
            }
        }
    }
}

/// The role of a chunk is that of the last entry under its id; without an entry it has none.
pub proof fn lemma_role_lookup(roles: Seq<(u64, Seq<char>)>, id: u64)
    ensures
        forall|i: int|
            0 <= i < roles.len() && (#[trigger] roles[i]).0 == id && (forall|j: int|
                i < j < roles.len() ==> (#[trigger] roles[j]).0 != id) ==> role_of(roles, id)
                == Some(roles[i].1),
        (forall|i: int| 0 <= i < roles.len() ==> (#[trigger] roles[i]).0 != id) ==> role_of(
            roles,
            id,
        ) is None,
    decreases roles.len(),
{
    if roles.len() > 0 {
        let front = roles.drop_last();
        let n = roles.len() - 1;
        lemma_role_lookup(front, id);
        assert(roles[n] == roles.last());
        assert forall|i: int|
            0 <= i < roles.len() && (#[trigger] roles[i]).0 == id && (forall|j: int|
                i < j < roles.len() ==> (#[trigger] roles[j]).0 != id) implies role_of(roles, id)
            == Some(roles[i].1) by {
            if i < n {
                assert(roles[n].0 != id);
                assert(front[i] == roles[i]);
                assert forall|j: int| i < j < front.len() implies (#[trigger] front[j]).0 != id by {
                    assert(front[j] == roles[j]);
                }
            }
        }
        if forall|i: int| 0 <= i < roles.len() ==> (#[trigger] roles[i]).0 != id {
            assert(roles[n].0 != id);
            assert forall|j: int| 0 <= j < front.len() implies (#[trigger] front[j]).0 != id by {
                assert(front[j] == roles[j]);
            }
        }
    }
}

/// The leading members of a component are its members with the highest scores, at most twenty, the
/// highest first and those without a score last; none that is left out has a higher score than one
/// that is given.
pub proof fn lemma_leading_members(members: Seq<u64>, seeds: Seq<Seed>)
    ensures
        ({
            let r = leading_members(members, seeds);
            &&& r.len() <= 20 && r.len() <= members.len()
            &&& r.len() == 20 || r.len() == members.len()
            &&& forall|i: int|
                0 <= i < r.len() ==> members.contains((#[trigger] r[i]).id) && r[i].score
                    == score_of(seeds, r[i].id)
            &&& forall|i: int, j: int|
                0 <= i < j < r.len() ==> ((#[trigger] r[j]).score matches Some(y) ==> (
                #[trigger] r[i]).score matches Some(x) && x >= y)
            &&& forall|m: u64, i: int|
                members.contains(m) && 0 <= i < r.len() && (forall|k: int|
                    0 <= k < r.len() ==> (#[trigger] r[k]).id != m) ==> (#[trigger] score_of(
                    seeds,
                    m,
                ) matches Some(y) ==> (#[trigger] r[i]).score matches Some(x) && x >= y)
        }),
{
    let s = scored(members, seeds);
    let all = ranked::<Member>(s);
    let r = leading_members(members, seeds);
    assert(is_weak_order::<Member>());
    lemma_ranked_in_order::<Member>(s);
    lemma_ranked_multiset::<Member>(s);
    assert forall|i: int| 0 <= i < r.len() implies members.contains((#[trigger] r[i]).id)
        && r[i].score == score_of(seeds, r[i].id) by {
        assert(r[i] == all[i]);
        assert(all.contains(all[i]));
        lemma_ranked_contains::<Member>(s, all[i]);
        let k = choose|k: int| 0 <= k < s.len() && s[k] == all[i];
        assert(members[k] == r[i].id);
    }
    assert forall|i: int, j: int| 0 <= i < j < r.len() implies ((
    #[trigger] r[j]).score matches Some(y) ==> (#[trigger] r[i]).score matches Some(x) && x
        >= y) by {
        assert(!Member::before(all[j], all[i]));
    }
    assert forall|m: u64, i: int|
        members.contains(m) && 0 <= i < r.len() && (forall|k: int|
            0 <= k < r.len() ==> (#[trigger] r[k]).id != m) implies (#[trigger] score_of(
        seeds,
        m,
    ) matches Some(y) ==> (#[trigger] r[i]).score matches Some(x) && x >= y) by {
        let k = choose|k: int| 0 <= k < members.len() && members[k] == m;
        assert(s[k].id == m);
        assert(s.contains(s[k]));
        lemma_ranked_contains::<Member>(s, s[k]);
        let j = choose|j: int| 0 <= j < all.len() && all[j] == s[k];
        if j < r.len() {
            assert(r[j].id == m);
        }
        assert(r[i] == all[i]);
        assert(!Member::before(all[j], all[i]));
    }
}

proof fn lemma_gathered_listed(
    members: Seq<Member>,
    chunks: Seq<ChunkView>,
    known: spec_fn(Member) -> bool,
)
    requires
        forall|m: Member| #[trigger] known(m) == (chunk_with_id(chunks, m.id) is Some),
    ensures
        ({
            let found = members.filter(known);
            let paths = Seq::new(
                found.len(),
                |k: int| chunk_with_id(chunks, found[k].id)->0.file_path,
            );
            let (files, entries) = gathered(members, chunks);
            &&& files == top_of(first_ones(paths), 8)
            &&& entries.len() == if found.len() < 3 {
                found.len()
            } else {
                3
            }
            &&& first_ones(paths).len() <= found.len()
            &&& forall|k: int|
                0 <= k < entries.len() ==> {
                    let c = chunk_with_id(chunks, found[k].id);
                    &&& c is Some
                    &&& (#[trigger] entries[k]).symbol == c->0.label()
                    &&& entries[k].file == c->0.file_path
                    &&& entries[k].start_line == c->0.start_line
                    &&& entries[k].end_line == c->0.end_line
                }
        }),
    decreases members.len(),
{
    reveal(Seq::filter);
    if members.len() > 0 {
        let front = members.drop_last();
        let last = members.last();
        lemma_gathered_listed(front, chunks, known);
        let found = front.filter(known);
        let paths = Seq::new(
            found.len(),
            |k: int| chunk_with_id(chunks, found[k].id)->0.file_path,
        );
        assert(known(last) == (chunk_with_id(chunks, last.id) is Some));
        let (files, entries) = gathered(front, chunks);
        if known(last) {
            let c = chunk_with_id(chunks, last.id)->0;
            let found2 = members.filter(known);
            let paths2 = Seq::new(
                found2.len(),
                |k: int| chunk_with_id(chunks, found2[k].id)->0.file_path,
            );
            assert(found2 == found.push(last));
            assert(paths2 =~= paths.push(c.file_path));
            lemma_first_ones(paths, c.file_path);
            let f = first_ones(paths);
            if files.len() < 8 {
                assert(files == f);
                assert(files.contains(c.file_path) <==> paths.contains(c.file_path));
            } else {
                assert(files == f.take(8) || f.len() == 8);
                assert(f.take(8) =~= files);
                assert(f.push(c.file_path).take(8) =~= f.take(8));
            }
        }
    } else {
        let found = members.filter(known);
        let paths = Seq::new(
            found.len(),
            |k: int| chunk_with_id(chunks, found[k].id)->0.file_path,
        );
        assert(paths =~= Seq::<Seq<char>>::empty());
    }
}

/// The files of a community are the first eight different ones in which its leading members stand,
/// and its entry points the first three of those members, as far as their chunks can be read.
pub proof fn lemma_gathered(members: Seq<Member>, chunks: Seq<ChunkView>)
    ensures
        ({
            let found = members.filter(
                |m: Member|
                    exists|j: int| 0 <= j < chunks.len() && (#[trigger] chunks[j]).id == m.id,
            );
            let paths = Seq::new(
                found.len(),
                |k: int| chunk_with_id(chunks, found[k].id)->0.file_path,
            );
            let (files, entries) = gathered(members, chunks);
            &&& files == top_of(first_ones(paths), 8)
            &&& entries.len() == if found.len() < 3 {
                found.len()
            } else {
                3
            }
            &&& forall|k: int, i: int|
                0 <= k < entries.len() && 0 <= i < chunks.len() && (#[trigger] chunks[i]).id
                    == found[k].id && (forall|j: int|
                    i < j < chunks.len() ==> (#[trigger] chunks[j]).id != found[k].id) ==> {
                    let e = #[trigger] entries[k];
                    &&& e.file == chunks[i].file_path
                    &&& e.start_line == chunks[i].start_line
                    &&& e.end_line == chunks[i].end_line
                    &&& e.symbol == (match chunks[i].symbol {
                        Some(name) => name,
                        None => chunks[i].file_path,
                    })
                }
        }),
{
    let known = |m: Member|
        exists|j: int| 0 <= j < chunks.len() && (#[trigger] chunks[j]).id == m.id;
    assert forall|m: Member| #[trigger] known(m) == (chunk_with_id(chunks, m.id) is Some) by {
        lemma_chunk_lookup(chunks, m.id);
    }
    lemma_gathered_listed(members, chunks, known);
    let found = members.filter(known);
    let (files, entries) = gathered(members, chunks);
    assert forall|k: int, i: int|
        0 <= k < entries.len() && 0 <= i < chunks.len() && (#[trigger] chunks[i]).id
            == found[k].id && (forall|j: int|
            i < j < chunks.len() ==> (#[trigger] chunks[j]).id != found[k].id) implies {
        let e = #[trigger] entries[k];
        &&& e.file == chunks[i].file_path
        &&& e.start_line == chunks[i].start_line
        &&& e.end_line == chunks[i].end_line
        &&& e.symbol == (match chunks[i].symbol {
            Some(name) => name,
            None => chunks[i].file_path,
        })
    } by {
        lemma_chunk_lookup(chunks, found[k].id);
    }
}

/// A community has as many members as its component, whether or not they can be read, and is
/// numbered from one.
pub proof fn lemma_community(i: int, members: Seq<u64>, seeds: Seq<Seed>, chunks: Seq<ChunkView>)
    requires
        0 <= i,
    ensures
        ({
            let c = community_of(i, members, seeds, chunks);
            &&& c.size == members.len()
            &&& c.label == "community-"@ + decimal((1 + i) as nat)
            &&& c.member_files == gathered(leading_members(members, seeds), chunks).0
            &&& c.entry_points == gathered(leading_members(members, seeds), chunks).1
        }),
{
}

proof fn lemma_gods_listed(
    top: Seq<(u64, u64)>,
    chunks: Seq<ChunkView>,
    roles: Seq<(u64, Seq<char>)>,
    known: spec_fn((u64, u64)) -> bool,
)
    requires
        forall|t: (u64, u64)| #[trigger] known(t) == (chunk_with_id(chunks, t.0) is Some),
    ensures
        ({
            let found = top.filter(known);
            let r = god_nodes_of(top, chunks, roles);
            &&& r.len() == found.len()
            &&& forall|k: int|
                0 <= k < r.len() ==> {
                    let c = chunk_with_id(chunks, found[k].0);
                    &&& c is Some
                    &&& (#[trigger] r[k]).chunk_id == found[k].0
                    &&& r[k].centrality_bits == found[k].1
                    &&& r[k].symbol == c->0.label()
                    &&& r[k].file == c->0.file_path
                    &&& r[k].start_line == c->0.start_line
                    &&& r[k].end_line == c->0.end_line
                    &&& r[k].semantic_role == role_of(roles, found[k].0)
                }
        }),
    decreases top.len(),
{
    reveal(Seq::filter);
    if top.len() > 0 {
        lemma_gods_listed(top.drop_last(), chunks, roles, known);
        assert(known(top.last()) == (chunk_with_id(chunks, top.last().0) is Some));
    }
}

/// The central symbols: one for each chunk of the ranking that can be read, in the order of the
/// ranking, with its own weight, name, place and role.
pub proof fn lemma_god_nodes(
    top: Seq<(u64, u64)>,
    chunks: Seq<ChunkView>,
    roles: Seq<(u64, Seq<char>)>,
)
    ensures
        ({
            let found = top.filter(
                |t: (u64, u64)|
                    exists|j: int| 0 <= j < chunks.len() && (#[trigger] chunks[j]).id == t.0,
            );
            let r = god_nodes_of(top, chunks, roles);
            &&& r.len() == found.len()
            &&& forall|k: int|
                0 <= k < r.len() ==> (#[trigger] r[k]).chunk_id == found[k].0
                    && r[k].centrality_bits == found[k].1 && r[k].semantic_role == role_of(
                    roles,
                    found[k].0,
                )
            &&& forall|k: int, i: int|
                0 <= k < r.len() && 0 <= i < chunks.len() && (#[trigger] chunks[i]).id
                    == found[k].0 && (forall|j: int|
                    i < j < chunks.len() ==> (#[trigger] chunks[j]).id != found[k].0) ==> {
                    let g = #[trigger] r[k];
                    &&& g.file == chunks[i].file_path
                    &&& g.start_line == chunks[i].start_line
                    &&& g.end_line == chunks[i].end_line
                    &&& g.symbol == (match chunks[i].symbol {
                        Some(name) => name,
                        None => chunks[i].file_path,
                    })
                }
        }),
{
    let known = |t: (u64, u64)|
        exists|j: int| 0 <= j < chunks.len() && (#[trigger] chunks[j]).id == t.0;
    assert forall|t: (u64, u64)| #[trigger] known(t) == (chunk_with_id(chunks, t.0) is Some) by {
        lemma_chunk_lookup(chunks, t.0);
    }
    lemma_gods_listed(top, chunks, roles, known);
    let found = top.filter(known);
    let r = god_nodes_of(top, chunks, roles);
    assert forall|k: int, i: int|
        0 <= k < r.len() && 0 <= i < chunks.len() && (#[trigger] chunks[i]).id == found[k].0 && (
        forall|j: int| i < j < chunks.len() ==> (#[trigger] chunks[j]).id != found[k].0) implies {
        let g = #[trigger] r[k];
        &&& g.file == chunks[i].file_path
        &&& g.start_line == chunks[i].start_line
        &&& g.end_line == chunks[i].end_line
        &&& g.symbol == (match chunks[i].symbol {
            Some(name) => name,
            None => chunks[i].file_path,
        })
    } by {
        lemma_chunk_lookup(chunks, found[k].0);
    }
}

/// The parts of the overview of a repository: its central symbols, its communities and its
/// couplings, as many as the budget allows.
pub open spec fn overview_parts(f: ArchFacts, b: ArchBudget) -> (
    Seq<GodNodeView>,
    Seq<CommunityView>,
    Seq<BoundaryView>,
) {
    let chunks = views(f.chunks@);
    let found = largest_components(f.seeds@, f.call_out@, f.call_in@, b.communities as nat);
    (
        god_nodes_of(top_of(f.top@, b.god_nodes as nat), chunks, views(f.roles@)),
        Seq::new(found.len(), |i: int| community_of(i, found[i], f.seeds@, chunks)),
        top_of(ranked::<Boundary>(tally(views(f.module_edges@))), b.boundaries as nat),
    )
}

/// The overview keeps each part of its budget: at most so many central symbols, communities and
/// couplings, of each its own number. The symbols are the first of the ranking that can be read, and
/// each community stands for a component of as many members as it says.
pub proof fn lemma_overview_budgeted(f: ArchFacts, b: ArchBudget)
    ensures
        ({
            let (gods, communities, boundaries) = overview_parts(f, b);
            &&& gods.len() <= b.god_nodes
            &&& communities.len() <= b.communities
            &&& boundaries.len() <= b.boundaries
            &&& forall|i: int|
                0 <= i < gods.len() ==> exists|k: int|
                    0 <= k < f.top@.len() && k < b.god_nodes && (#[trigger] f.top@[k]).0 == (
                    #[trigger] gods[i]).chunk_id && f.top@[k].1 == gods[i].centrality_bits
            &&& forall|i: int|
                0 <= i < communities.len() ==> (#[trigger] communities[i]).size
                    == largest_components(
                    f.seeds@,
                    f.call_out@,
                    f.call_in@,
                    b.communities as nat,
                )[i].len()
            &&& boundaries.len() == b.boundaries || boundaries.len() == tally(
                views(f.module_edges@),
            ).len()
        }),
{
    let (gods, communities, boundaries) = overview_parts(f, b);
    let top = top_of(f.top@, b.god_nodes as nat);
    let chunks = views(f.chunks@);
    let known = |t: (u64, u64)|
        exists|j: int| 0 <= j < chunks.len() && (#[trigger] chunks[j]).id == t.0;
    lemma_god_nodes(top, chunks, views(f.roles@));
    lemma_kept(top, known);
    lemma_kept_length(top, known);
    lemma_ranked_multiset::<Boundary>(tally(views(f.module_edges@)));
    assert forall|i: int| 0 <= i < gods.len() implies exists|k: int|
        0 <= k < f.top@.len() && k < b.god_nodes && (#[trigger] f.top@[k]).0 == (
        #[trigger] gods[i]).chunk_id && f.top@[k].1 == gods[i].centrality_bits by {
        let t = top.filter(known)[i];
        assert(top.filter(known).contains(t));
        let k = choose|k: int| 0 <= k < top.len() && top[k] == t;
        assert(f.top@[k] == t);
    }
}

proof fn lemma_kept_length<A>(s: Seq<A>, p: spec_fn(A) -> bool)
    ensures
        s.filter(p).len() <= s.len(),
    decreases s.len(),
{
    reveal(Seq::filter);
    if s.len() > 0 {
        lemma_kept_length(s.drop_last(), p);
    }
}

/// The statement that looks up where a pattern was found, in a language or in any.
pub open spec fn pattern_sql(by_language: bool) -> Seq<char> {
    if by_language {
        "SELECT chunk_id, pattern_name, language FROM pattern_matches WHERE pattern_name = ?1 AND language = ?2 LIMIT ?3"@
    } else {
        "SELECT chunk_id, pattern_name, language FROM pattern_matches WHERE pattern_name = ?1 LIMIT ?2"@
    }
}

/// What is bound to that statement.
pub open spec fn pattern_bound(pattern: Seq<char>, language: Option<Seq<char>>, max: usize) -> Seq<
    SqlValueView,
> {
    match language {
        Some(l) => seq![
            SqlValueView::Text(pattern),
            SqlValueView::Text(l),
            SqlValueView::Integer(max as i64),
        ],
        None => seq![SqlValueView::Text(pattern), SqlValueView::Integer(max as i64)],
    }
}

/// The pattern is bound first and the limit last, the language between them if one is asked for;
/// the statement has as many places as values are bound.
pub proof fn lemma_pattern_query(pattern: Seq<char>, language: Option<Seq<char>>, max: usize)
    ensures
        ({
            let b = pattern_bound(pattern, language, max);
            &&& b[0] == SqlValueView::Text(pattern)
            &&& b.last() == SqlValueView::Integer(max as i64)
            &&& language matches Some(l) ==> b.len() == 3 && b[1] == SqlValueView::Text(l)
            &&& language is None ==> b.len() == 2
            &&& question_marks(pattern_sql(language is Some)) == b.len()
        }),
{
    lemma_places_by_language();
    lemma_places_in_any();
}

proof fn lemma_places_by_language()
    ensures
        question_marks(pattern_sql(true)) == 3,
{
    reveal_strlit("SELECT chunk_id, pattern_name, language FROM pattern_matches WHERE pattern_name = ?1 AND language = ?2 LIMIT ?3");
    let p0 = seq![
        'S', 'E', 'L', 'E', 'C', 'T', ' ', 'c', 'h', 'u', 'n', 'k', '_', 'i', 'd', ',', ' ', 'p',
        'a', 't', 't', 'e', 'r', 'n', '_', 'n', 'a', 'm', 'e', ',', ' ', 'l', 'a', 'n', 'g', 'u',
        'a', 'g', 'e', ' ', 'F', 'R', 'O', 'M', ' ', 'p', 'a', 't', 't', 'e', 'r', 'n', '_', 'm',
        'a', 't', 'c', 'h', 'e', 's', ' ', 'W', 'H', 'E', 'R', 'E', ' ', 'p', 'a', 't', 't', 'e',
        'r', 'n', '_', 'n', 'a', 'm', 'e', ' ', '=', ' ', '?',
    ];
    lemma_one_mark_last(p0);
    let p1 = seq![
        '1', ' ', 'A', 'N', 'D', ' ', 'l', 'a', 'n', 'g', 'u', 'a', 'g', 'e', ' ', '=', ' ', '?',
    ];
    lemma_one_mark_last(p1);
    let p2 = seq![
        '2', ' ', 'L', 'I', 'M', 'I', 'T', ' ', '?',
    ];
    lemma_one_mark_last(p2);
    let p3 = seq![
        '3',
    ];
    lemma_no_mark(p3);
    lemma_marks_add(p0, p1);
    lemma_marks_add(p0 + p1, p2);
    lemma_marks_add(p0 + p1 + p2, p3);
    assert("SELECT chunk_id, pattern_name, language FROM pattern_matches WHERE pattern_name = ?1 AND language = ?2 LIMIT ?3"@ =~= p0 + p1 + p2 + p3);
}

proof fn lemma_places_in_any()
    ensures
        question_marks(pattern_sql(false)) == 2,
{
    reveal_strlit("SELECT chunk_id, pattern_name, language FROM pattern_matches WHERE pattern_name = ?1 LIMIT ?2");
    let p0 = seq![
        'S', 'E', 'L', 'E', 'C', 'T', ' ', 'c', 'h', 'u', 'n', 'k', '_', 'i', 'd', ',', ' ', 'p',
        'a', 't', 't', 'e', 'r', 'n', '_', 'n', 'a', 'm', 'e', ',', ' ', 'l', 'a', 'n', 'g', 'u',
        'a', 'g', 'e', ' ', 'F', 'R', 'O', 'M', ' ', 'p', 'a', 't', 't', 'e', 'r', 'n', '_', 'm',
        'a', 't', 'c', 'h', 'e', 's', ' ', 'W', 'H', 'E', 'R', 'E', ' ', 'p', 'a', 't', 't', 'e',
        'r', 'n', '_', 'n', 'a', 'm', 'e', ' ', '=', ' ', '?',
    ];
    lemma_one_mark_last(p0);
    let p1 = seq![
        '1', ' ', 'L', 'I', 'M', 'I', 'T', ' ', '?',
    ];
    lemma_one_mark_last(p1);
    let p2 = seq![
        '2',
    ];
    lemma_no_mark(p2);
    lemma_marks_add(p0, p1);
    lemma_marks_add(p0 + p1, p2);
    assert("SELECT chunk_id, pattern_name, language FROM pattern_matches WHERE pattern_name = ?1 LIMIT ?2"@ =~= p0 + p1 + p2);
}

/// The budgets: small up to two thousand chunks, large above ten thousand, and between them the one
/// that also stands where none is given.
pub proof fn lemma_budgets(chunks: nat)
    ensures
        ({
            let b = budget_for(chunks);
            &&& chunks <= 2_000 ==> b.god_nodes == 5 && b.communities == 3 && b.boundaries == 10
                && b.deep_examples_max == 1 && b.exhaustive_max == 12
            &&& 2_000 < chunks <= 10_000 ==> b.god_nodes == 10 && b.communities == 5 && b.boundaries
                == 25 && b.deep_examples_max == 3 && b.exhaustive_max == 25
            &&& chunks > 10_000 ==> b.god_nodes == 15 && b.communities == 8 && b.boundaries == 40
                && b.deep_examples_max == 5 && b.exhaustive_max == 40
            &&& 2_000 < chunks <= 10_000 ==> b == ArchBudget::spec_medium()
        }),
{
}

} // verus!
