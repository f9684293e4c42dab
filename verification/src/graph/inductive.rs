//! The Inductive Miner, directly-follows variant: discovers a process tree
//! from the command sequences of a corpus of scenarios.
//!
//! Over a set of activities it builds the directly-follows graph of the
//! log restricted to them, then tries, in order, the exclusive-choice cut
//! (connected components), the sequence cut (a strict chain of
//! reachability) and the loop cut (body and redo activities), recursing on
//! the sub-log of each part; when none applies it yields a flower model.

use vstd::prelude::*;

use crate::graph::action_graph::{unit_graph, ActionGraph};
use crate::graph::cuts::{
    chain_of, components, components_partition, filter_traces, idx, idx_groups, index_filter,
    indices_where, is_chain, is_redo, lemma_components_proper, lemma_index_filter,
    lemma_index_filter_ext, lemma_index_filter_short, pick, pick_acts, redo_flags, sequence_cut,
    sub_log, xor_cut,
};
use crate::graph::dfg::{boundary_flags, build_dfg, dfg_of, is_end, is_start, log_texts, texts};
use crate::graph::process_tree::{
    children_leaves, flow, leaves, lemma_tree_models, synthetic_edges, synthetic_model,
    tree_to_graph, ProcessTree, TreeModel,
};
use crate::graph::reach::matrix_view;
use crate::graph::seqs::{flatten, no_duplicates};
use crate::scenario::{ActionModel, Scenario};
use crate::text::chars_of;

verus! {

/// The process tree the miner discovers for the activities `acts` of the
/// log `log`, with directly-follows pairs below `edge_threshold(min_count)`
/// ignored.
pub open spec fn im_tree(log: Seq<Seq<Seq<char>>>, acts: Seq<Seq<char>>, min_count: u64) -> TreeModel
    decreases acts.len(), 1int, 0int,
{
    let n = acts.len();
    if n == 0 {
        TreeModel::Tau
    } else if n == 1 {
        TreeModel::Activity(acts[0])
    } else {
        let adj = dfg_of(log, acts, min_count);
        let comps = components(adj);
        if comps.len() > 1 {
            TreeModel::ExclusiveChoice(
                im_children(log, comps.map_values(|g: Seq<int>| pick(acts, g)), n, min_count, 0),
            )
        } else if chain_of(adj) is Some {
            let o = chain_of(adj)->0;
            TreeModel::Sequence(
                im_children(log, o.map_values(|i: int| seq![acts[i]]), n, min_count, 0),
            )
        } else {
            let starts = Seq::new(n, |i: int| is_start(log, acts, acts[i]));
            let ends = Seq::new(n, |i: int| is_end(log, acts, acts[i]));
            let redo = pick(acts, index_filter(n, |i: int| is_redo(adj, starts, ends, i)));
            let body = pick(acts, index_filter(n, |i: int| !is_redo(adj, starts, ends, i)));
            if redo.len() > 0 && body.len() > 0 && redo.len() < n && body.len() < n {
                TreeModel::Loop(
                    Box::new(im_tree(sub_log(log, body), body, min_count)),
                    Box::new(im_tree(sub_log(log, redo), redo, min_count)),
                )
            } else {
                TreeModel::Flower(acts)
            }
        }
    }
}

/// The trees discovered for the groups `groups[k..]`, each on its
/// sub-log; `bound` exceeds the size of every group.
pub open spec fn im_children(
    log: Seq<Seq<Seq<char>>>,
    groups: Seq<Seq<Seq<char>>>,
    bound: nat,
    min_count: u64,
    k: int,
) -> Seq<TreeModel>
    decreases bound, 0int, groups.len() - k,
{
    if k < 0 || k >= groups.len() {
        Seq::empty()
    } else if groups[k].len() < bound {
        seq![im_tree(sub_log(log, groups[k]), groups[k], min_count)] + im_children(
            log,
            groups,
            bound,
            min_count,
            k + 1,
        )
    } else {
        Seq::empty()
    }
}

proof fn lemma_im_children(
    log: Seq<Seq<Seq<char>>>,
    groups: Seq<Seq<Seq<char>>>,
    bound: nat,
    min_count: u64,
    k: int,
)
    requires
        0 <= k <= groups.len(),
        forall|j: int| 0 <= j < groups.len() ==> #[trigger] groups[j].len() < bound,
    ensures
        im_children(log, groups, bound, min_count, k).len() == groups.len() - k,
        forall|j: int|
            0 <= j < groups.len() - k ==> #[trigger] im_children(log, groups, bound, min_count, k)[j]
                == im_tree(sub_log(log, groups[k + j]), groups[k + j], min_count),
    decreases groups.len() - k,
{
    if k < groups.len() {
        lemma_im_children(log, groups, bound, min_count, k + 1);
        let rest = im_children(log, groups, bound, min_count, k + 1);
        assert forall|j: int| 0 <= j < groups.len() - k implies #[trigger] im_children(
            log,
            groups,
            bound,
            min_count,
            k,
        )[j] == im_tree(sub_log(log, groups[k + j]), groups[k + j], min_count) by {
            if j > 0 {
                assert(rest[j - 1] == im_tree(sub_log(log, groups[k + 1 + (j - 1)]), groups[k + 1 + (j - 1)], min_count));
            }
        }
    }
}

/// Inductive Miner configuration.
#[derive(Clone, Copy, Debug)]
pub struct ImdfConfig {
    /// Minimum directly-follows count to consider an edge significant.
    /// Edges below this threshold are filtered before cut detection.
    /// Default: `1` (all edges kept).
    pub min_df_count: u64,
}

impl Default for ImdfConfig {
    fn default() -> (r: Self)
        ensures
            r.min_df_count == 1,
    {
        ImdfConfig { min_df_count: 1 }
    }
}

/// The Inductive Miner – Directly Follows (IMDF) variant.
#[derive(Clone, Copy, Debug)]
pub struct InductiveMiner {
    /// Configuration knobs.
    pub config: ImdfConfig,
}

impl Default for InductiveMiner {
    fn default() -> (r: Self)
        ensures
            r.config.min_df_count == 1,
    {
        InductiveMiner { config: ImdfConfig::default() }
    }
}

/// The discovered children are those of the groups, in order.
proof fn lemma_children_models(
    children: Seq<ProcessTree>,
    log: Seq<Seq<Seq<char>>>,
    groups: Seq<Seq<Seq<char>>>,
    bound: nat,
    min_count: u64,
)
    requires
        children.len() == groups.len(),
        forall|j: int| 0 <= j < groups.len() ==> #[trigger] groups[j].len() < bound,
        forall|j: int|
            0 <= j < children.len() ==> #[trigger] children[j].model() == im_tree(
                sub_log(log, groups[j]),
                groups[j],
                min_count,
            ),
    ensures
        ProcessTree::models(children) == im_children(log, groups, bound, min_count, 0),
{
    lemma_tree_models(children);
    lemma_im_children(log, groups, bound, min_count, 0);
    assert(ProcessTree::models(children) =~= im_children(log, groups, bound, min_count, 0));
}

impl InductiveMiner {
    /// Create a new miner with the given configuration.
    pub fn new(config: ImdfConfig) -> (r: Self)
        ensures
            r.config == config,
    {
        InductiveMiner { config }
    }

    /// The trees discovered for each group of activities, each on its
    /// sub-log.
    fn discover_groups(&self, log: &Vec<Vec<String>>, groups: &Vec<Vec<String>>, Ghost(bound): Ghost<nat>) -> (r: Vec<ProcessTree>)
        requires
            forall|j: int| 0 <= j < groups@.len() ==> #[trigger] groups@[j]@.len() < bound,
        ensures
            r@.len() == groups@.len(),
            forall|j: int|
                0 <= j < r@.len() ==> #[trigger] r@[j].model() == im_tree(
                    sub_log(log_texts(log@), texts(groups@[j]@)),
                    texts(groups@[j]@),
                    self.config.min_df_count,
                ),
        decreases bound, 0int,
    {
        let mut children: Vec<ProcessTree> = Vec::new();
        let mut k: usize = 0;
        while k < groups.len()
            invariant
                k <= groups@.len(),
                forall|j: int| 0 <= j < groups@.len() ==> #[trigger] groups@[j]@.len() < bound,
                children@.len() == k,
                forall|j: int|
                    0 <= j < k ==> #[trigger] children@[j].model() == im_tree(
                        sub_log(log_texts(log@), texts(groups@[j]@)),
                        texts(groups@[j]@),
                        self.config.min_df_count,
                    ),
            decreases groups@.len() - k,
        {
            let g = &groups[k];
            let sub = filter_traces(log, g);
            let t = self.discover(&sub, g);
            children.push(t);
            k += 1;
        }
        children
    }

    /// The tree discovered for the activities `acts` of `log`.
    fn discover(&self, log: &Vec<Vec<String>>, acts: &Vec<String>) -> (r: ProcessTree)
        ensures
            r.model() == im_tree(log_texts(log@), texts(acts@), self.config.min_df_count),
        decreases acts@.len(), 1int,
    {
        let ghost lt = log_texts(log@);
        let ghost a = texts(acts@);
        let ghost min = self.config.min_df_count;
        let n = acts.len();
        if n == 0 {
            return ProcessTree::Tau;
        }
        if n == 1 {
            let name = acts[0].clone();
            return ProcessTree::Activity(name);
        }
        let adj = build_dfg(log, acts, self.config.min_df_count);
        let ghost m = matrix_view(adj@);
        assert(m == dfg_of(lt, a, min));
        if let Some(comps) = xor_cut(&adj) {
            let ghost cs = components(m);
            proof {
                lemma_components_proper(m);
            }
            let mut groups: Vec<Vec<String>> = Vec::new();
            let mut k: usize = 0;
            while k < comps.len()
                invariant
                    n == acts@.len(),
                    a == texts(acts@),
                    idx_groups(comps@) == cs,
                    cs == components(m),
                    m.len() == n,
                    forall|j: int| 0 <= j < cs.len() ==> #[trigger] cs[j].len() < n,
                    forall|j: int, q: int| 0 <= j < cs.len() && 0 <= q < cs[j].len() ==> 0 <= #[trigger] cs[j][q] < n,
                    k <= comps@.len(),
                    groups@.len() == k,
                    forall|j: int| 0 <= j < k ==> #[trigger] texts(groups@[j]@) == pick(a, cs[j]),
                decreases comps@.len() - k,
            {
                proof {
                    assert(idx_groups(comps@)[k as int] == idx(comps@[k as int]@));
                    assert forall|q: int| 0 <= q < comps@[k as int]@.len() implies #[trigger] comps@[k as int]@[q] < acts@.len() by {
                        assert(idx(comps@[k as int]@)[q] == cs[k as int][q]);
                    }
                }
                let g = pick_acts(acts, &comps[k]);
                groups.push(g);
                k += 1;
            }
            let ghost gs = cs.map_values(|g: Seq<int>| pick(a, g));
            proof {
                assert forall|j: int| 0 <= j < groups@.len() implies #[trigger] groups@[j]@.len() < n by {
                    assert(texts(groups@[j]@).len() == groups@[j]@.len());
                }
            }
            let children = self.discover_groups(log, &groups, Ghost(n as nat));
            proof {
                assert forall|j: int| 0 <= j < gs.len() implies #[trigger] gs[j].len() < n by {}
                assert forall|j: int| 0 <= j < children@.len() implies #[trigger] children@[j].model() == im_tree(
                    sub_log(lt, gs[j]),
                    gs[j],
                    min,
                ) by {
                    assert(texts(groups@[j]@) == gs[j]);
                }
                lemma_children_models(children@, lt, gs, n as nat, min);
            }
            return ProcessTree::ExclusiveChoice(children);
        }
        if let Some(order) = sequence_cut(&adj) {
            let ghost o = idx(order@);
            let ghost gs = o.map_values(|i: int| seq![a[i]]);
            let mut groups: Vec<Vec<String>> = Vec::new();
            let mut k: usize = 0;
            while k < order.len()
                invariant
                    n == acts@.len(),
                    n >= 2,
                    a == texts(acts@),
                    o == idx(order@),
                    is_chain(m, o),
                    m.len() == n,
                    gs == o.map_values(|i: int| seq![a[i]]),
                    k <= order@.len(),
                    groups@.len() == k,
                    forall|j: int| 0 <= j < k ==> #[trigger] texts(groups@[j]@) == gs[j],
                    forall|j: int| 0 <= j < k ==> #[trigger] groups@[j]@.len() == 1,
                decreases order@.len() - k,
            {
                assert(o[k as int] == order@[k as int] as int);
                let name = acts[order[k]].clone();
                let mut g: Vec<String> = Vec::new();
                g.push(name);
                assert(texts(g@) =~= gs[k as int]);
                groups.push(g);
                k += 1;
            }
            let children = self.discover_groups(log, &groups, Ghost(n as nat));
            proof {
                assert forall|j: int| 0 <= j < gs.len() implies #[trigger] gs[j].len() < n by {}
                assert forall|j: int| 0 <= j < children@.len() implies #[trigger] children@[j].model() == im_tree(
                    sub_log(lt, gs[j]),
                    gs[j],
                    min,
                ) by {
                    assert(texts(groups@[j]@) == gs[j]);
                }
                lemma_children_models(children@, lt, gs, n as nat, min);
            }
            return ProcessTree::Sequence(children);
        }
        let starts = boundary_flags(log, acts, true);
        let ends = boundary_flags(log, acts, false);
        let flags = redo_flags(&adj, &starts, &ends);
        let body_ix = indices_where(&flags, false);
        let redo_ix = indices_where(&flags, true);
        let ghost st = Seq::new(n as nat, |i: int| is_start(lt, a, a[i]));
        let ghost en = Seq::new(n as nat, |i: int| is_end(lt, a, a[i]));
        let ghost ri = index_filter(n as nat, |i: int| is_redo(m, st, en, i));
        let ghost bi = index_filter(n as nat, |i: int| !is_redo(m, st, en, i));
        proof {
            assert(starts@ =~= st);
            assert(ends@ =~= en);
            lemma_index_filter_ext(n as nat, |i: int| flags@[i] == true, |i: int| is_redo(m, st, en, i));
            lemma_index_filter_ext(n as nat, |i: int| flags@[i] == false, |i: int| !is_redo(m, st, en, i));
            lemma_index_filter(n as nat, |i: int| is_redo(m, st, en, i));
            lemma_index_filter(n as nat, |i: int| !is_redo(m, st, en, i));
            assert(idx(redo_ix@) == ri);
            assert(idx(body_ix@) == bi);
            assert forall|k: int| 0 <= k < body_ix@.len() implies #[trigger] body_ix@[k] < acts@.len() by {
                assert(idx(body_ix@)[k] == body_ix@[k] as int);
            }
            assert forall|k: int| 0 <= k < redo_ix@.len() implies #[trigger] redo_ix@[k] < acts@.len() by {
                assert(idx(redo_ix@)[k] == redo_ix@[k] as int);
            }
        }
        if redo_ix.len() > 0 && body_ix.len() > 0 {
            let body = pick_acts(acts, &body_ix);
            let redo = pick_acts(acts, &redo_ix);
            proof {
                lemma_index_filter_short(n as nat, |i: int| is_redo(m, st, en, i), bi[0]);
                lemma_index_filter_short(n as nat, |i: int| !is_redo(m, st, en, i), ri[0]);
                assert(texts(body@).len() == body@.len());
                assert(texts(redo@).len() == redo@.len());
                assert(im_tree(lt, a, min) == TreeModel::Loop(
                    Box::new(im_tree(sub_log(lt, pick(a, bi)), pick(a, bi), min)),
                    Box::new(im_tree(sub_log(lt, pick(a, ri)), pick(a, ri), min)),
                ));
            }
            let body_log = filter_traces(log, &body);
            let redo_log = filter_traces(log, &redo);
            let body_tree = self.discover(&body_log, &body);
            let redo_tree = self.discover(&redo_log, &redo);
            return ProcessTree::Loop { body: Box::new(body_tree), redo: Box::new(redo_tree) };
        }
        let mut all: Vec<String> = Vec::new();
        let mut i: usize = 0;
        while i < n
            invariant
                n == acts@.len(),
                i <= n,
                texts(all@) == texts(acts@).subrange(0, i as int),
            decreases n - i,
        {
            let s = acts[i].clone();
            let ghost prev = all@;
            all.push(s);
            proof {
                assert(texts(all@) =~= texts(prev).push(s@));
                assert(texts(acts@).subrange(0, i + 1) =~= texts(acts@).subrange(0, i as int).push(
                    acts@[i as int]@,
                ));
            }
            i += 1;
        }
        assert(texts(acts@).subrange(0, n as int) =~= texts(acts@));
        assert(im_tree(lt, a, min) == TreeModel::Flower(a));
        ProcessTree::Flower(all)
    }
}

/// `a` comes before `b` in the character order of strings, comparing from
/// position `i` on.
pub open spec fn lt_from(a: Seq<char>, b: Seq<char>, i: int) -> bool
    decreases a.len() - i,
{
    if i < 0 || i >= a.len() {
        0 <= i < b.len()
    } else if i >= b.len() {
        false
    } else if a[i] != b[i] {
        a[i] < b[i]
    } else {
        lt_from(a, b, i + 1)
    }
}

/// `a` comes before `b` in the order of strings: at the first position
/// where they differ `a` has the smaller character, or `a` is a proper
/// prefix of `b`.
pub open spec fn text_lt(a: Seq<char>, b: Seq<char>) -> bool {
    lt_from(a, b, 0)
}

/// Each text comes strictly before the next.
pub open spec fn strictly_sorted(s: Seq<Seq<char>>) -> bool {
    forall|i: int, j: int| 0 <= i < j < s.len() ==> text_lt(#[trigger] s[i], #[trigger] s[j])
}

/// The activities of a log: its distinct events in the order of strings.
pub open spec fn activity_set(log: Seq<Seq<Seq<char>>>) -> Seq<Seq<char>> {
    choose|a: Seq<Seq<char>>|
        strictly_sorted(a) && forall|x: Seq<char>| #[trigger] a.contains(x) <==> flatten(log).contains(x)
}

/// The command texts of each scenario.
pub open spec fn scenario_log(sc: Seq<Scenario>) -> Seq<Seq<Seq<char>>> {
    sc.map_values(|s: Scenario| s.model().map_values(|a: ActionModel| a.command))
}

proof fn lemma_lt_irreflexive(a: Seq<char>, i: int)
    requires
        0 <= i,
    ensures
        !lt_from(a, a, i),
    decreases a.len() - i,
{
    if i < a.len() {
        lemma_lt_irreflexive(a, i + 1);
    }
}

proof fn lemma_lt_asymmetric(a: Seq<char>, b: Seq<char>, i: int)
    requires
        0 <= i,
        lt_from(a, b, i),
    ensures
        !lt_from(b, a, i),
    decreases a.len() - i,
{
    if i < a.len() && i < b.len() && a[i] == b[i] {
        lemma_lt_asymmetric(a, b, i + 1);
    }
}

proof fn lemma_lt_transitive(a: Seq<char>, b: Seq<char>, c: Seq<char>, i: int)
    requires
        0 <= i,
        lt_from(a, b, i),
        lt_from(b, c, i),
    ensures
        lt_from(a, c, i),
    decreases a.len() - i,
{
    if i < a.len() && i < b.len() && i < c.len() && a[i] == b[i] && b[i] == c[i] {
        lemma_lt_transitive(a, b, c, i + 1);
    }
}

proof fn lemma_lt_total(a: Seq<char>, b: Seq<char>, i: int)
    requires
        0 <= i <= a.len(),
        i <= b.len(),
        forall|k: int| 0 <= k < i ==> a[k] == b[k],
        a != b,
    ensures
        lt_from(a, b, i) || lt_from(b, a, i),
    decreases a.len() - i,
{
    if i == a.len() && i == b.len() {
        assert(a =~= b);
    } else if i < a.len() && i < b.len() && a[i] == b[i] {
        lemma_lt_total(a, b, i + 1);
    }
}

/// The order of strings is a strict total order.
pub proof fn lemma_text_order()
    ensures
        forall|a: Seq<char>| !#[trigger] text_lt(a, a),
        forall|a: Seq<char>, b: Seq<char>| #[trigger] text_lt(a, b) ==> !text_lt(b, a),
        forall|a: Seq<char>, b: Seq<char>| a != b ==> #[trigger] text_lt(a, b) || text_lt(b, a),
        forall|a: Seq<char>, b: Seq<char>, c: Seq<char>|
            #[trigger] text_lt(a, b) && #[trigger] text_lt(b, c) ==> text_lt(a, c),
{
    assert forall|a: Seq<char>| !#[trigger] text_lt(a, a) by {
        lemma_lt_irreflexive(a, 0);
    }
    assert forall|a: Seq<char>, b: Seq<char>| #[trigger] text_lt(a, b) implies !text_lt(b, a) by {
        lemma_lt_asymmetric(a, b, 0);
    }
    assert forall|a: Seq<char>, b: Seq<char>| a != b implies #[trigger] text_lt(a, b) || text_lt(b, a) by {
        lemma_lt_total(a, b, 0);
    }
    assert forall|a: Seq<char>, b: Seq<char>, c: Seq<char>|
        #[trigger] text_lt(a, b) && #[trigger] text_lt(b, c) implies text_lt(a, c) by {
        lemma_lt_transitive(a, b, c, 0);
    }
}

/// Two strictly sorted lists of the same texts are equal.
pub proof fn lemma_sorted_unique(a: Seq<Seq<char>>, b: Seq<Seq<char>>)
    requires
        strictly_sorted(a),
        strictly_sorted(b),
        forall|x: Seq<char>| #![trigger a.contains(x)] #![trigger b.contains(x)] a.contains(x) <==> b.contains(x),
    ensures
        a == b,
    decreases a.len(),
{
    lemma_text_order();
    if a.len() == 0 {
        if b.len() > 0 {
            assert(b.contains(b[0]));
        }
        assert(a =~= b);
    } else {
        assert(a.contains(a[0]));
        assert(b.len() > 0);
        assert(b.contains(b[0]));
        if a[0] != b[0] {
            let j = choose|j: int| 0 <= j < b.len() && b[j] == a[0];
            let k = choose|k: int| 0 <= k < a.len() && a[k] == b[0];
            assert(text_lt(b[0], b[j]));
            assert(text_lt(a[0], a[k]));
            assert(false);
        }
        let a2 = a.drop_first();
        let b2 = b.drop_first();
        assert forall|x: Seq<char>| #![trigger a2.contains(x)] #![trigger b2.contains(x)] a2.contains(x) <==> b2.contains(x) by {
            if a2.contains(x) {
                let k = choose|k: int| 0 <= k < a2.len() && a2[k] == x;
                assert(a[k + 1] == x);
                assert(text_lt(a[0], a[k + 1]));
                assert(a.contains(x));
                let j = choose|j: int| 0 <= j < b.len() && b[j] == x;
                assert(j != 0);
                assert(b2[j - 1] == x);
            }
            if b2.contains(x) {
                let k = choose|k: int| 0 <= k < b2.len() && b2[k] == x;
                assert(b[k + 1] == x);
                assert(text_lt(b[0], b[k + 1]));
                assert(b.contains(x));
                let j = choose|j: int| 0 <= j < a.len() && a[j] == x;
                assert(j != 0);
                assert(a2[j - 1] == x);
            }
        }
        assert(strictly_sorted(a2)) by {
            assert forall|i: int, j: int| 0 <= i < j < a2.len() implies text_lt(#[trigger] a2[i], #[trigger] a2[j]) by {
                assert(a2[i] == a[i + 1] && a2[j] == a[j + 1]);
            }
        }
        assert(strictly_sorted(b2)) by {
            assert forall|i: int, j: int| 0 <= i < j < b2.len() implies text_lt(#[trigger] b2[i], #[trigger] b2[j]) by {
                assert(b2[i] == b[i + 1] && b2[j] == b[j + 1]);
            }
        }
        lemma_sorted_unique(a2, b2);
        assert(a.len() == b.len());
        assert forall|k: int| 0 <= k < a.len() implies a[k] == b[k] by {
            if k > 0 {
                assert(a[k] == a2[k - 1]);
                assert(b[k] == b2[k - 1]);
            }
        }
        assert(a =~= b);
    }
}

/// Whether `a` comes before `b` in the order of strings.
pub fn text_less(a: &String, b: &String) -> (r: bool)
    ensures
        r == text_lt(a@, b@),
{
    let va = chars_of(a.as_str());
    let vb = chars_of(b.as_str());
    let mut i: usize = 0;
    loop
        invariant
            va@ == a@,
            vb@ == b@,
            i <= va@.len(),
            i <= vb@.len(),
            lt_from(a@, b@, 0) == lt_from(a@, b@, i as int),
        decreases va@.len() - i,
    {
        if i >= va.len() {
            return i < vb.len();
        }
        if i >= vb.len() {
            return false;
        }
        if va[i] != vb[i] {
            return va[i] < vb[i];
        }
        i += 1;
    }
}

/// Adds `x` to the strictly sorted `set` unless it is there already.
fn insert_sorted(set: &mut Vec<String>, x: &String)
    requires
        strictly_sorted(texts(old(set)@)),
    ensures
        strictly_sorted(texts(final(set)@)),
        forall|y: Seq<char>| #[trigger] texts(final(set)@).contains(y) <==> (texts(old(set)@).contains(y) || y == x@),
{
    proof {
        lemma_text_order();
    }
    let ghost s0 = texts(set@);
    let mut p: usize = 0;
    loop
        invariant
            s0 == texts(set@),
            strictly_sorted(s0),
            p <= set@.len(),
            forall|k: int| 0 <= k < p ==> text_lt(#[trigger] s0[k], x@),
        ensures
            p <= set@.len(),
            forall|k: int| 0 <= k < p ==> text_lt(#[trigger] s0[k], x@),
            p < set@.len() ==> !text_lt(s0[p as int], x@),
        decreases set@.len() - p,
    {
        if p >= set.len() {
            break;
        }
        if !text_less(&set[p], x) {
            break;
        }
        p += 1;
    }
    if p < set.len() && set[p] == *x {
        return;
    }
    let ghost s1 = s0.insert(p as int, x@);
    let c = x.clone();
    set.insert(p, c);
    proof {
        assert(texts(set@) =~= s1);
        if p < s0.len() {
            assert(s0[p as int] != x@);
            assert(text_lt(x@, s0[p as int]));
        }
        assert forall|i: int, j: int| 0 <= i < j < s1.len() implies text_lt(#[trigger] s1[i], #[trigger] s1[j]) by {
            if j < p {
                assert(s1[i] == s0[i] && s1[j] == s0[j]);
            } else if j == p {
                assert(s1[i] == s0[i]);
            } else if i < p {
                assert(s1[i] == s0[i] && s1[j] == s0[j - 1]);
                assert(text_lt(s0[i], x@));
                if j - 1 > p {
                    assert(text_lt(s0[p as int], s0[j - 1]));
                }
            } else if i == p {
                assert(s1[j] == s0[j - 1]);
                if j - 1 > p {
                    assert(text_lt(s0[p as int], s0[j - 1]));
                }
            } else {
                assert(s1[i] == s0[i - 1] && s1[j] == s0[j - 1]);
            }
        }
        assert forall|y: Seq<char>| #[trigger] s1.contains(y) <==> (s0.contains(y) || y == x@) by {
            if s1.contains(y) {
                let k = choose|k: int| 0 <= k < s1.len() && s1[k] == y;
                if k < p {
                    assert(s0[k] == y);
                } else if k > p {
                    assert(s0[k - 1] == y);
                }
            }
            if s0.contains(y) {
                let k = choose|k: int| 0 <= k < s0.len() && s0[k] == y;
                if k < p {
                    assert(s1[k] == y);
                } else {
                    assert(s1[k + 1] == y);
                }
            }
            if y == x@ {
                assert(s1[p as int] == y);
            }
        }
    }
}

/// The activities of `log`: its distinct events in the order of strings.
fn activity_set_of(log: &Vec<Vec<String>>) -> (r: Vec<String>)
    ensures
        texts(r@) == activity_set(log_texts(log@)),
        strictly_sorted(texts(r@)),
        same_items(texts(r@), flatten(log_texts(log@))),
{
    let ghost lt = log_texts(log@);
    let mut set: Vec<String> = Vec::new();
    assert(texts(set@) =~= Seq::<Seq<char>>::empty());
    let mut i: usize = 0;
    while i < log.len()
        invariant
            lt == log_texts(log@),
            i <= log@.len(),
            strictly_sorted(texts(set@)),
            forall|y: Seq<char>| #[trigger] texts(set@).contains(y) <==> flatten(lt.subrange(0, i as int)).contains(y),
        decreases log@.len() - i,
    {
        let t = &log[i];
        let ghost before = flatten(lt.subrange(0, i as int));
        let mut j: usize = 0;
        while j < t.len()
            invariant
                lt == log_texts(log@),
                i < log@.len(),
                t == log@[i as int],
                j <= t@.len(),
                strictly_sorted(texts(set@)),
                forall|y: Seq<char>|
                    #[trigger] texts(set@).contains(y) <==> (before.contains(y) || texts(t@).subrange(0, j as int).contains(y)),
            decreases t@.len() - j,
        {
            insert_sorted(&mut set, &t[j]);
            proof {
                let pre = texts(t@).subrange(0, j as int);
                let next = texts(t@).subrange(0, j + 1);
                assert(next =~= pre.push(t@[j as int]@));
                assert forall|y: Seq<char>| #[trigger] next.contains(y) <==> (pre.contains(y) || y == t@[j as int]@) by {
                    if next.contains(y) {
                        let k = choose|k: int| 0 <= k < next.len() && next[k] == y;
                        if k < j {
                            assert(pre[k] == y);
                        }
                    }
                    if pre.contains(y) {
                        let k = choose|k: int| 0 <= k < pre.len() && pre[k] == y;
                        assert(next[k] == y);
                    }
                    if y == t@[j as int]@ {
                        assert(next[j as int] == y);
                    }
                }
            }
            j += 1;
        }
        proof {
            let next = lt.subrange(0, i + 1);
            assert(next.drop_last() =~= lt.subrange(0, i as int));
            assert(next.last() == texts(t@));
            assert(texts(t@).subrange(0, t@.len() as int) =~= texts(t@));
            let f = flatten(next);
            assert(f == before + texts(t@));
            assert forall|y: Seq<char>| #[trigger] f.contains(y) <==> (before.contains(y) || texts(t@).contains(y)) by {
                if f.contains(y) {
                    let k = choose|k: int| 0 <= k < f.len() && f[k] == y;
                    if k < before.len() {
                        assert(before[k] == y);
                    } else {
                        assert(texts(t@)[k - before.len()] == y);
                    }
                }
                if before.contains(y) {
                    let k = choose|k: int| 0 <= k < before.len() && before[k] == y;
                    assert(f[k] == y);
                }
                if texts(t@).contains(y) {
                    let k = choose|k: int| 0 <= k < texts(t@).len() && texts(t@)[k] == y;
                    assert(f[before.len() + k] == y);
                }
            }
        }
        i += 1;
    }
    proof {
        assert(lt.subrange(0, log@.len() as int) =~= lt);
        let w = texts(set@);
        assert(strictly_sorted(w) && forall|x: Seq<char>| #[trigger] w.contains(x) <==> flatten(lt).contains(x));
        let c = activity_set(lt);
        lemma_sorted_unique(w, c);
        assert(same_items(w, flatten(lt)));
    }
    set
}

/// The tree the miner discovers for a corpus of scenarios.
pub open spec fn mined_tree(config: ImdfConfig, sc: Seq<Scenario>) -> TreeModel {
    im_tree(scenario_log(sc), activity_set(scenario_log(sc)), config.min_df_count)
}

/// The graph of a tree fits the graph's `u32` indices.
pub open spec fn graph_fits(m: TreeModel) -> bool {
    leaves(m).len() + 2 * flow(m).edges.len() + 1 < u32::MAX
}

impl InductiveMiner {
    /// The process tree mined from the command sequences of `scenarios`;
    /// each command of the scenarios is exactly one of its leaves.
    pub fn discover_tree(&self, scenarios: &[Scenario]) -> (r: ProcessTree)
        ensures
            r.model() == mined_tree(self.config, scenarios@),
            same_items(leaves(r.model()), flatten(scenario_log(scenarios@))),
            no_duplicates(leaves(r.model())),
    {
        let ghost sl = scenario_log(scenarios@);
        let mut traces: Vec<Vec<String>> = Vec::new();
        let mut i: usize = 0;
        while i < scenarios.len()
            invariant
                sl == scenario_log(scenarios@),
                i <= scenarios@.len(),
                log_texts(traces@) == sl.subrange(0, i as int),
            decreases scenarios@.len() - i,
        {
            let acts = &scenarios[i].actions;
            let ghost want = sl[i as int];
            assert(want == actions_model_commands(acts@));
            let mut t: Vec<String> = Vec::new();
            let mut j: usize = 0;
            while j < acts.len()
                invariant
                    j <= acts@.len(),
                    want == actions_model_commands(acts@),
                    texts(t@) == want.subrange(0, j as int),
                decreases acts@.len() - j,
            {
                let c = acts[j].command_id.0.clone();
                let ghost prev = t@;
                t.push(c);
                proof {
                    assert(texts(t@) =~= texts(prev).push(c@));
                    assert(want.subrange(0, j + 1) =~= want.subrange(0, j as int).push(want[j as int]));
                }
                j += 1;
            }
            assert(want.subrange(0, acts@.len() as int) =~= want);
            let ghost prev = traces@;
            traces.push(t);
            proof {
                assert(log_texts(traces@) =~= log_texts(prev).push(texts(t@)));
                assert(sl.subrange(0, i + 1) =~= sl.subrange(0, i as int).push(sl[i as int]));
            }
            i += 1;
        }
        assert(sl.subrange(0, scenarios@.len() as int) =~= sl);
        let acts = activity_set_of(&traces);
        proof {
            let a = texts(acts@);
            lemma_text_order();
            assert(no_duplicates(a)) by {
                assert forall|i: int, j: int| 0 <= i < j < a.len() implies a[i] != a[j] by {
                    assert(text_lt(a[i], a[j]));
                }
            }
            discovered_leaves_are_the_activities(sl, a, self.config.min_df_count);
        }
        self.discover(&traces, &acts)
    }

    /// Discover a process model from `scenarios`: the process tree mined
    /// from their command sequences, and the action graph of that tree.
    pub fn mine(&self, scenarios: &[Scenario]) -> (r: (ActionGraph, ProcessTree))
        requires
            graph_fits(mined_tree(self.config, scenarios@)),
        ensures
            r.1.model() == mined_tree(self.config, scenarios@),
            same_items(leaves(r.1.model()), flatten(scenario_log(scenarios@))),
            no_duplicates(leaves(r.1.model())),
            unit_graph(
                r.0.node_actions(),
                r.0.visits(),
                r.0.edges(),
                leaves(r.1.model()).map_values(|n: Seq<char>| synthetic_model(n)),
                synthetic_edges(flow(r.1.model()).edges),
            ),
            r.0.scored() == Seq::new(flow(r.1.model()).edges.len(), |k: int| false),
    {
        let tree = self.discover_tree(scenarios);
        let graph = tree_to_graph(&tree);
        (graph, tree)
    }
}

/// Whether the graph of `tree` fits the graph's `u32` indices.
pub fn fits_graph(tree: &ProcessTree) -> (r: bool)
    ensures
        r == graph_fits(tree.model()),
{
    let names = tree.collect_leaf_names();
    let (_, _, edges) = tree.collect_tree_edges();
    assert(texts(names@).len() == names@.len());
    assert(crate::graph::process_tree::pair_texts(edges@).len() == edges@.len());
    let n = names.len() as u128;
    let e = edges.len() as u128;
    n + 2 * e + 1 < 0xFFFF_FFFFu128
}

/// The command texts of a list of actions.
pub open spec fn actions_model_commands(acts: Seq<crate::scenario::CanonicalAction>) -> Seq<Seq<char>> {
    crate::scenario::actions_model(acts).map_values(|a: ActionModel| a.command)
}

/// `a` and `b` hold the same texts.
pub open spec fn same_items(a: Seq<Seq<char>>, b: Seq<Seq<char>>) -> bool {
    forall|x: Seq<char>| #[trigger] a.contains(x) <==> b.contains(x)
}

proof fn lemma_concat_items(a: Seq<Seq<char>>, b: Seq<Seq<char>>)
    ensures
        forall|x: Seq<char>| #[trigger] (a + b).contains(x) <==> a.contains(x) || b.contains(x),
        no_duplicates(a) && no_duplicates(b) && (forall|x: Seq<char>| a.contains(x) ==> !#[trigger] b.contains(x))
            ==> no_duplicates(a + b),
{
    assert forall|x: Seq<char>| #[trigger] (a + b).contains(x) <==> a.contains(x) || b.contains(x) by {
        if (a + b).contains(x) {
            let k = choose|k: int| 0 <= k < (a + b).len() && (a + b)[k] == x;
            if k < a.len() {
                assert(a[k] == x);
            } else {
                assert(b[k - a.len()] == x);
            }
        }
        if a.contains(x) {
            let k = choose|k: int| 0 <= k < a.len() && a[k] == x;
            assert((a + b)[k] == x);
        }
        if b.contains(x) {
            let k = choose|k: int| 0 <= k < b.len() && b[k] == x;
            assert((a + b)[a.len() + k] == x);
        }
    }
    if no_duplicates(a) && no_duplicates(b) && (forall|x: Seq<char>| a.contains(x) ==> !#[trigger] b.contains(x)) {
        let c = a + b;
        assert forall|i: int, j: int| 0 <= i < j < c.len() implies c[i] != c[j] by {
            if i < a.len() && j >= a.len() {
                assert(a.contains(c[i]));
                assert(b[j - a.len()] == c[j]);
                assert(b.contains(c[j]));
            } else if i >= a.len() {
                assert(c[i] == b[i - a.len()] && c[j] == b[j - a.len()]);
            }
        }
    }
}

/// The leaves of a list of trees, each holding the texts of its group,
/// hold the texts of all groups; distinct in each tree and disjoint across
/// groups, they are distinct.
proof fn lemma_children_cover(cs: Seq<TreeModel>, gs: Seq<Seq<Seq<char>>>)
    requires
        cs.len() == gs.len(),
        forall|j: int| 0 <= j < cs.len() ==> same_items(leaves(#[trigger] cs[j]), gs[j]),
    ensures
        forall|x: Seq<char>|
            #[trigger] children_leaves(cs).contains(x) <==> exists|j: int| 0 <= j < gs.len() && #[trigger] gs[j].contains(x),
        (forall|j: int| 0 <= j < cs.len() ==> no_duplicates(leaves(#[trigger] cs[j]))) && (forall|j1: int, j2: int, x: Seq<char>|
            0 <= j1 < gs.len() && 0 <= j2 < gs.len() && #[trigger] gs[j1].contains(x) && #[trigger] gs[j2].contains(x)
                ==> j1 == j2) ==> no_duplicates(children_leaves(cs)),
    decreases cs.len(),
{
    if cs.len() > 0 {
        let k = cs.len() - 1;
        let pre = cs.subrange(0, k);
        let gpre = gs.subrange(0, k);
        assert forall|j: int| 0 <= j < pre.len() implies same_items(leaves(#[trigger] pre[j]), gpre[j]) by {
            assert(pre[j] == cs[j] && gpre[j] == gs[j]);
        }
        lemma_children_cover(pre, gpre);
        lemma_concat_items(children_leaves(pre), leaves(cs[k]));
        assert(children_leaves(cs) == children_leaves(pre) + leaves(cs[k]));
        assert(same_items(leaves(cs[k]), gs[k]));
        assert forall|x: Seq<char>|
            #[trigger] children_leaves(cs).contains(x) <==> exists|j: int| 0 <= j < gs.len() && #[trigger] gs[j].contains(x) by {
            if children_leaves(pre).contains(x) {
                let j = choose|j: int| 0 <= j < gpre.len() && #[trigger] gpre[j].contains(x);
                assert(gs[j].contains(x));
            }
            if leaves(cs[k]).contains(x) {
                assert(gs[k].contains(x));
            }
            if exists|j: int| 0 <= j < gs.len() && #[trigger] gs[j].contains(x) {
                let j = choose|j: int| 0 <= j < gs.len() && #[trigger] gs[j].contains(x);
                if j < k {
                    assert(gpre[j].contains(x));
                } else {
                    assert(leaves(cs[k]).contains(x));
                }
            }
        }
        if (forall|j: int| 0 <= j < cs.len() ==> no_duplicates(leaves(#[trigger] cs[j]))) && (forall|j1: int, j2: int, x: Seq<char>|
            0 <= j1 < gs.len() && 0 <= j2 < gs.len() && #[trigger] gs[j1].contains(x) && #[trigger] gs[j2].contains(x)
                ==> j1 == j2) {
            assert forall|j: int| 0 <= j < pre.len() implies no_duplicates(leaves(#[trigger] pre[j])) by {
                assert(pre[j] == cs[j]);
            }
            assert forall|j1: int, j2: int, x: Seq<char>|
                0 <= j1 < gpre.len() && 0 <= j2 < gpre.len() && #[trigger] gpre[j1].contains(x)
                    && #[trigger] gpre[j2].contains(x) implies j1 == j2 by {
                assert(gs[j1].contains(x) && gs[j2].contains(x));
            }
            assert forall|x: Seq<char>| children_leaves(pre).contains(x) implies !#[trigger] leaves(cs[k]).contains(x) by {
                let j = choose|j: int| 0 <= j < gpre.len() && #[trigger] gpre[j].contains(x);
                assert(gs[j].contains(x));
                if leaves(cs[k]).contains(x) {
                    assert(gs[k].contains(x));
                }
            }
            assert(no_duplicates(leaves(cs[k])));
        }
    } else {
        assert(children_leaves(cs) =~= Seq::<Seq<char>>::empty());
    }
}

/// The texts at indices `ix` of `acts`, when the indices ascend strictly and
/// the texts are distinct, are distinct.
proof fn lemma_pick_distinct(acts: Seq<Seq<char>>, ix: Seq<int>)
    requires
        no_duplicates(acts),
        forall|k: int| 0 <= k < ix.len() ==> 0 <= #[trigger] ix[k] < acts.len(),
        forall|k: int, q: int| 0 <= k < q < ix.len() ==> ix[k] < ix[q],
    ensures
        no_duplicates(pick(acts, ix)),
{
    assert forall|k: int, q: int| 0 <= k < q < pick(acts, ix).len() implies pick(acts, ix)[k] != pick(acts, ix)[q] by {
        assert(ix[k] < ix[q]);
        assert(acts[ix[k]] != acts[ix[q]]);
    }
}

/// The activities of the discovered tree are exactly the activities it
/// was discovered for: every activity is a leaf, every leaf an activity,
/// and distinct activities give distinct leaves.
pub proof fn discovered_leaves_are_the_activities(log: Seq<Seq<Seq<char>>>, acts: Seq<Seq<char>>, min_count: u64)
    ensures
        same_items(leaves(im_tree(log, acts, min_count)), acts),
        no_duplicates(acts) ==> no_duplicates(leaves(im_tree(log, acts, min_count))),
    decreases acts.len(),
{
    let n = acts.len();
    let t = im_tree(log, acts, min_count);
    if n == 0 {
        assert(leaves(t) =~= acts);
    } else if n == 1 {
        assert(leaves(t) =~= acts);
    } else {
        let adj = dfg_of(log, acts, min_count);
        let comps = components(adj);
        if comps.len() > 1 {
            let gs = comps.map_values(|g: Seq<int>| pick(acts, g));
            lemma_components_proper(adj);
            assert forall|j: int| 0 <= j < gs.len() implies #[trigger] gs[j].len() < n by {}
            lemma_im_children(log, gs, n, min_count, 0);
            let cs = im_children(log, gs, n, min_count, 0);
            assert forall|j: int| 0 <= j < cs.len() implies same_items(leaves(#[trigger] cs[j]), gs[j])
                && (no_duplicates(gs[j]) ==> no_duplicates(leaves(cs[j]))) by {
                assert(cs[j] == im_tree(sub_log(log, gs[j]), gs[j], min_count));
                discovered_leaves_are_the_activities(sub_log(log, gs[j]), gs[j], min_count);
            }
            lemma_children_cover(cs, gs);
            assert forall|x: Seq<char>| #[trigger] leaves(t).contains(x) <==> acts.contains(x) by {
                if acts.contains(x) {
                    let v = choose|v: int| 0 <= v < n && acts[v] == x;
                    components_partition(adj, v);
                    let k = choose|k: int| 0 <= k < comps.len() && #[trigger] comps[k].contains(v);
                    let q = choose|q: int| 0 <= q < comps[k].len() && comps[k][q] == v;
                    assert(gs[k][q] == x);
                    assert(gs[k].contains(x));
                }
                if leaves(t).contains(x) {
                    let j = choose|j: int| 0 <= j < gs.len() && #[trigger] gs[j].contains(x);
                    let q = choose|q: int| 0 <= q < gs[j].len() && gs[j][q] == x;
                    assert(0 <= comps[j][q] < n);
                    assert(acts[comps[j][q]] == x);
                }
            }
            if no_duplicates(acts) {
                let ls = index_filter(n, |l: int| crate::graph::cuts::is_leader(adj, l));
                assert forall|j: int| 0 <= j < cs.len() implies no_duplicates(leaves(#[trigger] cs[j])) by {
                    lemma_index_filter(n, |q: int| crate::graph::reach::linked(adj, ls[j], q));
                    lemma_pick_distinct(acts, comps[j]);
                }
                assert forall|j1: int, j2: int, x: Seq<char>|
                    0 <= j1 < gs.len() && 0 <= j2 < gs.len() && #[trigger] gs[j1].contains(x)
                        && #[trigger] gs[j2].contains(x) implies j1 == j2 by {
                    let q1 = choose|q: int| 0 <= q < gs[j1].len() && gs[j1][q] == x;
                    let q2 = choose|q: int| 0 <= q < gs[j2].len() && gs[j2][q] == x;
                    let v1 = comps[j1][q1];
                    let v2 = comps[j2][q2];
                    assert(0 <= v1 < n && 0 <= v2 < n);
                    assert(acts[v1] == acts[v2]);
                    assert(v1 == v2);
                    assert(comps[j1].contains(v1));
                    assert(comps[j2].contains(v1));
                    components_partition(adj, v1);
                }
            }
        } else if chain_of(adj) is Some {
            let o = chain_of(adj)->0;
            assert(is_chain(adj, o));
            let gs = o.map_values(|i: int| seq![acts[i]]);
            lemma_im_children(log, gs, n, min_count, 0);
            let cs = im_children(log, gs, n, min_count, 0);
            assert forall|j: int| 0 <= j < cs.len() implies same_items(leaves(#[trigger] cs[j]), gs[j])
                && (no_duplicates(gs[j]) ==> no_duplicates(leaves(cs[j]))) by {
                assert(cs[j] == im_tree(sub_log(log, gs[j]), gs[j], min_count));
                discovered_leaves_are_the_activities(sub_log(log, gs[j]), gs[j], min_count);
            }
            lemma_children_cover(cs, gs);
            assert(t == TreeModel::Sequence(cs));
            assert(leaves(t) == children_leaves(cs));
            assert(gs.len() == o.len());
            assert forall|x: Seq<char>| #[trigger] leaves(t).contains(x) <==> acts.contains(x) by {
                if acts.contains(x) {
                    let v = choose|v: int| 0 <= v < n && acts[v] == x;
                    assert(o.contains(v));
                    let k = choose|k: int| 0 <= k < o.len() && o[k] == v;
                    assert(gs[k] == seq![acts[o[k]]]);
                    assert(gs[k][0] == x);
                    assert(gs[k].contains(x));
                }
                if leaves(t).contains(x) {
                    let j = choose|j: int| 0 <= j < gs.len() && #[trigger] gs[j].contains(x);
                    assert(gs[j] == seq![acts[o[j]]]);
                    let q = choose|q: int| 0 <= q < gs[j].len() && gs[j][q] == x;
                    assert(q == 0);
                    assert(0 <= o[j] < n);
                    assert(acts[o[j]] == x);
                }
            }
            if no_duplicates(acts) {
                assert forall|j: int| 0 <= j < cs.len() implies no_duplicates(leaves(#[trigger] cs[j])) by {}
                assert forall|j1: int, j2: int, x: Seq<char>|
                    0 <= j1 < gs.len() && 0 <= j2 < gs.len() && #[trigger] gs[j1].contains(x)
                        && #[trigger] gs[j2].contains(x) implies j1 == j2 by {
                    assert(gs[j1] == seq![acts[o[j1]]]);
                    assert(gs[j2] == seq![acts[o[j2]]]);
                    let q1 = choose|q: int| 0 <= q < gs[j1].len() && gs[j1][q] == x;
                    let q2 = choose|q: int| 0 <= q < gs[j2].len() && gs[j2][q] == x;
                    assert(q1 == 0 && q2 == 0);
                    assert(0 <= o[j1] < n && 0 <= o[j2] < n);
                    assert(acts[o[j1]] == acts[o[j2]]);
                    assert(o[j1] == o[j2]);
                    if j1 < j2 {
                        assert(crate::graph::reach::reach(adj, o[j1], o[j2]) && !crate::graph::reach::reach(adj, o[j2], o[j1]));
                    } else if j2 < j1 {
                        assert(crate::graph::reach::reach(adj, o[j2], o[j1]) && !crate::graph::reach::reach(adj, o[j1], o[j2]));
                    }
                }
            }
        } else {
            let starts = Seq::new(n, |i: int| is_start(log, acts, acts[i]));
            let ends = Seq::new(n, |i: int| is_end(log, acts, acts[i]));
            let pr = |i: int| is_redo(adj, starts, ends, i);
            let ri = index_filter(n, |i: int| is_redo(adj, starts, ends, i));
            let bi = index_filter(n, |i: int| !is_redo(adj, starts, ends, i));
            let redo = pick(acts, ri);
            let body = pick(acts, bi);
            lemma_index_filter(n, |i: int| is_redo(adj, starts, ends, i));
            lemma_index_filter(n, |i: int| !is_redo(adj, starts, ends, i));
            if redo.len() > 0 && body.len() > 0 && redo.len() < n && body.len() < n {
                discovered_leaves_are_the_activities(sub_log(log, body), body, min_count);
                discovered_leaves_are_the_activities(sub_log(log, redo), redo, min_count);
                let lb = leaves(im_tree(sub_log(log, body), body, min_count));
                let lr = leaves(im_tree(sub_log(log, redo), redo, min_count));
                assert(leaves(t) == lb + lr);
                lemma_concat_items(lb, lr);
                assert forall|x: Seq<char>| #[trigger] leaves(t).contains(x) <==> acts.contains(x) by {
                    if acts.contains(x) {
                        let v = choose|v: int| 0 <= v < n && acts[v] == x;
                        if is_redo(adj, starts, ends, v) {
                            assert(ri.contains(v));
                            let q = choose|q: int| 0 <= q < ri.len() && ri[q] == v;
                            assert(redo[q] == x);
                            assert(redo.contains(x));
                        } else {
                            assert(bi.contains(v));
                            let q = choose|q: int| 0 <= q < bi.len() && bi[q] == v;
                            assert(body[q] == x);
                            assert(body.contains(x));
                        }
                    }
                    if body.contains(x) {
                        let q = choose|q: int| 0 <= q < body.len() && body[q] == x;
                        assert(acts[bi[q]] == x);
                    }
                    if redo.contains(x) {
                        let q = choose|q: int| 0 <= q < redo.len() && redo[q] == x;
                        assert(acts[ri[q]] == x);
                    }
                }
                if no_duplicates(acts) {
                    lemma_pick_distinct(acts, ri);
                    lemma_pick_distinct(acts, bi);
                    assert forall|x: Seq<char>| lb.contains(x) implies !#[trigger] lr.contains(x) by {
                        assert(body.contains(x));
                        let q1 = choose|q: int| 0 <= q < body.len() && body[q] == x;
                        if lr.contains(x) {
                            assert(redo.contains(x));
                            let q2 = choose|q: int| 0 <= q < redo.len() && redo[q] == x;
                            assert(acts[bi[q1]] == acts[ri[q2]]);
                            assert(bi[q1] == ri[q2]);
                        }
                    }
                }
            } else {
                assert(leaves(t) == acts);
            }
        }
    }
}

} // verus!
