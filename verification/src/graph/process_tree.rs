//! [`ProcessTree`]: the process model the inductive miner discovers, its
//! textual rendering, its leaves, the control-flow edges its structure
//! implies, and the action graph drawn from those edges.

use vstd::prelude::*;

use crate::graph::action_graph::{from_unit_edges, unit_graph, ActionGraph};
use crate::graph::dfg::texts;
use crate::ids::{CommandId, ScreenId};
use crate::json::{JsonModel, JsonValue};
use crate::scenario::{ActionModel, CanonicalAction};

verus! {

/// A process-tree node.
#[derive(Debug)]
#[non_exhaustive]
pub enum ProcessTree {
    /// A single activity.
    Activity(String),
    /// Sequence of children (→).
    Sequence(Vec<ProcessTree>),
    /// Exclusive choice between children (×).
    ExclusiveChoice(Vec<ProcessTree>),
    /// Loop: body followed by optional redo (↺).
    Loop {
        /// The main body (executed at least once).
        body: Box<ProcessTree>,
        /// The redo part (executed zero or more times).
        redo: Box<ProcessTree>,
    },
    /// Flower model: any activity may follow any other (τ*).
    Flower(Vec<String>),
    /// Silent (tau) step — skippable.
    Tau,
}

/// The mathematical model of a [`ProcessTree`]: names as character
/// sequences, children as sequences.
pub enum TreeModel {
    Activity(Seq<char>),
    Sequence(Seq<TreeModel>),
    ExclusiveChoice(Seq<TreeModel>),
    Loop(Box<TreeModel>, Box<TreeModel>),
    Flower(Seq<Seq<char>>),
    Tau,
}

impl ProcessTree {
    /// The model of this tree.
    pub open spec fn model(self) -> TreeModel
        decreases self,
    {
        match self {
            ProcessTree::Activity(n) => TreeModel::Activity(n@),
            ProcessTree::Sequence(c) => TreeModel::Sequence(ProcessTree::models(c@)),
            ProcessTree::ExclusiveChoice(c) => TreeModel::ExclusiveChoice(ProcessTree::models(c@)),
            ProcessTree::Loop { body, redo } => TreeModel::Loop(
                Box::new(body.model()),
                Box::new(redo.model()),
            ),
            ProcessTree::Flower(a) => TreeModel::Flower(texts(a@)),
            ProcessTree::Tau => TreeModel::Tau,
        }
    }

    /// Element-wise model of a sequence of trees.
    pub open spec fn models(s: Seq<ProcessTree>) -> Seq<TreeModel>
        decreases s,
    {
        if s.len() == 0 {
            Seq::empty()
        } else {
            ProcessTree::models(s.subrange(0, s.len() - 1)).push(s[s.len() - 1].model())
        }
    }
}

/// `models` is element-wise.
pub proof fn lemma_tree_models(s: Seq<ProcessTree>)
    ensures
        ProcessTree::models(s).len() == s.len(),
        forall|i: int| 0 <= i < s.len() ==> #[trigger] ProcessTree::models(s)[i] == s[i].model(),
    decreases s.len(),
{
    if s.len() > 0 {
        lemma_tree_models(s.subrange(0, s.len() - 1));
    }
}

/// Parts joined by `", "`.
pub open spec fn join(parts: Seq<Seq<char>>) -> Seq<char>
    decreases parts.len(),
{
    if parts.len() == 0 {
        Seq::empty()
    } else if parts.len() == 1 {
        parts[0]
    } else {
        join(parts.drop_last()) + seq![',', ' '] + parts.last()
    }
}

/// The rendering of a tree: `→(..)`, `×(..)`, `↺(body, redo)`,
/// `flower(..)`, `τ`, and an activity by its name.
pub open spec fn tree_text(m: TreeModel) -> Seq<char>
    decreases m,
{
    match m {
        TreeModel::Activity(n) => n,
        TreeModel::Sequence(c) => seq!['→', '('] + join(tree_texts(c)) + seq![')'],
        TreeModel::ExclusiveChoice(c) => seq!['×', '('] + join(tree_texts(c)) + seq![')'],
        TreeModel::Loop(b, r) => seq!['↺', '('] + tree_text(*b) + seq![',', ' '] + tree_text(*r) + seq![')'],
        TreeModel::Flower(a) => seq!['f', 'l', 'o', 'w', 'e', 'r', '('] + join(a) + seq![')'],
        TreeModel::Tau => seq!['τ'],
    }
}

/// The rendering of each tree of `c`.
pub open spec fn tree_texts(c: Seq<TreeModel>) -> Seq<Seq<char>>
    decreases c,
{
    if c.len() == 0 {
        Seq::empty()
    } else {
        tree_texts(c.subrange(0, c.len() - 1)).push(tree_text(c[c.len() - 1]))
    }
}

/// The activity names at the leaves, left to right (a flower contributes
/// its activities).
pub open spec fn leaves(m: TreeModel) -> Seq<Seq<char>>
    decreases m,
{
    match m {
        TreeModel::Activity(n) => seq![n],
        TreeModel::Sequence(c) => children_leaves(c),
        TreeModel::ExclusiveChoice(c) => children_leaves(c),
        TreeModel::Loop(b, r) => leaves(*b) + leaves(*r),
        TreeModel::Flower(a) => a,
        TreeModel::Tau => Seq::empty(),
    }
}

/// The leaves of each tree of `c`, one tree after another.
pub open spec fn children_leaves(c: Seq<TreeModel>) -> Seq<Seq<char>>
    decreases c,
{
    if c.len() == 0 {
        Seq::empty()
    } else {
        children_leaves(c.subrange(0, c.len() - 1)) + leaves(c[c.len() - 1])
    }
}

proof fn lemma_tree_texts_step(c: Seq<TreeModel>, i: int)
    requires
        0 <= i < c.len(),
    ensures
        tree_texts(c.subrange(0, i + 1)) == tree_texts(c.subrange(0, i)).push(tree_text(c[i])),
        tree_texts(c.subrange(0, i)).len() == i,
    decreases i,
{
    assert(c.subrange(0, i + 1).subrange(0, i) =~= c.subrange(0, i));
    if i > 0 {
        lemma_tree_texts_step(c, i - 1);
    }
}

proof fn lemma_children_leaves_step(c: Seq<TreeModel>, i: int)
    requires
        0 <= i < c.len(),
    ensures
        children_leaves(c.subrange(0, i + 1)) == children_leaves(c.subrange(0, i)) + leaves(c[i]),
{
    assert(c.subrange(0, i + 1).subrange(0, i) =~= c.subrange(0, i));
}

proof fn lemma_join_step(p: Seq<Seq<char>>, i: int)
    requires
        0 <= i < p.len(),
    ensures
        join(p.subrange(0, i + 1)) == if i == 0 {
            p[0]
        } else {
            join(p.subrange(0, i)) + seq![',', ' '] + p[i]
        },
{
    assert(p.subrange(0, i + 1).drop_last() =~= p.subrange(0, i));
}

/// Appends `", "` to `out` unless `i` is 0.
fn push_separator(out: &mut String, i: usize)
    ensures
        final(out)@ == if i == 0 {
            old(out)@
        } else {
            old(out)@ + seq![',', ' ']
        },
{
    if i > 0 {
        out.append(", ");
        proof {
            reveal_strlit(", ");
        }
    }
}

impl ProcessTree {
    /// Appends the rendering of this tree to `out`.
    #[verifier::loop_isolation(false)]
    pub fn write_text(&self, out: &mut String)
        ensures
            final(out)@ == old(out)@ + tree_text(self.model()),
        decreases self,
    {
        match self {
            ProcessTree::Activity(name) => {
                out.append(name.as_str());
            },
            ProcessTree::Sequence(children) | ProcessTree::ExclusiveChoice(children) => {
                let is_seq = match self {
                    ProcessTree::Sequence(_) => true,
                    _ => false,
                };
                if is_seq {
                    out.append("→(");
                    proof {
                        reveal_strlit("→(");
                    }
                } else {
                    out.append("×(");
                    proof {
                        reveal_strlit("×(");
                    }
                }
                let ghost base = out@;
                let ghost ms = ProcessTree::models(children@);
                proof {
                    lemma_tree_models(children@);
                    lemma_texts_prefix(ms, 0);
                }
                let mut i: usize = 0;
                while i < children.len()
                    invariant
                        i <= children@.len(),
                        ms == ProcessTree::models(children@),
                        ms.len() == children@.len(),
                        forall|k: int| 0 <= k < children@.len() ==> #[trigger] ms[k] == children@[k].model(),
                        out@ == base + join(tree_texts(ms).subrange(0, i as int)),
                        tree_texts(ms).len() == ms.len(),
                    decreases children@.len() - i,
                {
                    proof {
                        if is_seq {
                            assert(*self == ProcessTree::Sequence(*children));
                        } else {
                            assert(*self == ProcessTree::ExclusiveChoice(*children));
                        }
                        assert(decreases_to!(*self => children@[i as int]));
                    }
                    push_separator(out, i);
                    children[i].write_text(out);
                    proof {
                        let t = tree_texts(ms);
                        lemma_tree_texts_step(ms, i as int);
                        lemma_texts_prefix(ms, i as int + 1);
                        assert(t.subrange(0, i + 1)[i as int] == t[i as int]);
                        lemma_join_step(t, i as int);
                    }
                    i += 1;
                }
                proof {
                    let t = tree_texts(ms);
                    assert(t.subrange(0, ms.len() as int) =~= t);
                }
                out.append(")");
                proof {
                    reveal_strlit(")");
                }
            },
            ProcessTree::Loop { body, redo } => {
                out.append("↺(");
                proof {
                    reveal_strlit("↺(");
                }
                body.write_text(out);
                out.append(", ");
                proof {
                    reveal_strlit(", ");
                }
                redo.write_text(out);
                out.append(")");
                proof {
                    reveal_strlit(")");
                }
            },
            ProcessTree::Flower(acts) => {
                out.append("flower(");
                proof {
                    reveal_strlit("flower(");
                }
                let ghost base = out@;
                let ghost t = texts(acts@);
                let mut i: usize = 0;
                while i < acts.len()
                    invariant
                        i <= acts@.len(),
                        t == texts(acts@),
                        out@ == base + join(t.subrange(0, i as int)),
                    decreases acts@.len() - i,
                {
                    push_separator(out, i);
                    out.append(acts[i].as_str());
                    proof {
                        lemma_join_step(t, i as int);
                    }
                    i += 1;
                }
                proof {
                    assert(t.subrange(0, acts@.len() as int) =~= t);
                }
                out.append(")");
                proof {
                    reveal_strlit(")");
                }
            },
            ProcessTree::Tau => {
                out.append("τ");
                proof {
                    reveal_strlit("τ");
                }
            },
        }
    }

    /// Render the process tree as a human-readable expression string.
    pub fn display(&self) -> (r: String)
        ensures
            r@ == tree_text(self.model()),
    {
        let mut s = String::new();
        self.write_text(&mut s);
        s
    }
}

/// `tree_texts` of a prefix is the prefix of `tree_texts`.
proof fn lemma_texts_prefix(c: Seq<TreeModel>, i: int)
    requires
        0 <= i <= c.len(),
    ensures
        tree_texts(c.subrange(0, i)) == tree_texts(c).subrange(0, i),
        tree_texts(c).len() == c.len(),
    decreases c.len(),
{
    if c.len() > 0 {
        let pre = c.subrange(0, c.len() - 1);
        lemma_texts_prefix(pre, if i < c.len() {
            i
        } else {
            c.len() - 1
        });
        if i == c.len() {
            assert(c.subrange(0, i) =~= c);
            assert(tree_texts(c).subrange(0, i) =~= tree_texts(c));
        } else {
            assert(pre.subrange(0, i) =~= c.subrange(0, i));
            assert(tree_texts(pre).subrange(0, i) =~= tree_texts(c).subrange(0, i));
        }
    }
}

/// Entry activities, exit activities and control-flow edges of a tree.
pub struct FlowModel {
    pub entries: Seq<Seq<char>>,
    pub exits: Seq<Seq<char>>,
    pub edges: Seq<(Seq<char>, Seq<char>)>,
}

/// Every pair of an activity of `a` and one of `b`, by `a` then `b`.
pub open spec fn cross(a: Seq<Seq<char>>, b: Seq<Seq<char>>) -> Seq<(Seq<char>, Seq<char>)>
    decreases a.len(),
{
    if a.len() == 0 {
        Seq::empty()
    } else {
        cross(a.drop_last(), b) + b.map_values(|y: Seq<char>| (a.last(), y))
    }
}

/// The pairs `(x, y)` for the activities `y` of `b` other than `x`.
pub open spec fn others(x: Seq<char>, b: Seq<Seq<char>>) -> Seq<(Seq<char>, Seq<char>)>
    decreases b.len(),
{
    if b.len() == 0 {
        Seq::empty()
    } else {
        let r = others(x, b.drop_last());
        if b.last() != x {
            r.push((x, b.last()))
        } else {
            r
        }
    }
}

/// The pairs of distinct activities of `a` whose first lies among the
/// first `k` of `a`.
pub open spec fn flower_pairs(a: Seq<Seq<char>>, k: nat) -> Seq<(Seq<char>, Seq<char>)>
    decreases k,
{
    if k == 0 {
        Seq::empty()
    } else {
        flower_pairs(a, (k - 1) as nat) + others(a[k - 1], a)
    }
}

/// The edges a tree's structure implies: a sequence links the exits of
/// each child to the entries of the next; a choice adds no edge between
/// branches; a loop links body exits to redo entries and redo exits to
/// body entries; a flower links every activity to every other one.
pub open spec fn flow(m: TreeModel) -> FlowModel
    decreases m,
{
    match m {
        TreeModel::Activity(n) => FlowModel { entries: seq![n], exits: seq![n], edges: Seq::empty() },
        TreeModel::Sequence(c) => seq_flow(c),
        TreeModel::ExclusiveChoice(c) => choice_flow(c),
        TreeModel::Loop(b, r) => {
            let fb = flow(*b);
            let fr = flow(*r);
            FlowModel {
                entries: fb.entries,
                exits: fb.exits,
                edges: fb.edges + fr.edges + cross(fb.exits, fr.entries) + cross(fr.exits, fb.entries),
            }
        },
        TreeModel::Flower(a) => FlowModel { entries: a, exits: a, edges: flower_pairs(a, a.len()) },
        TreeModel::Tau => FlowModel { entries: Seq::empty(), exits: Seq::empty(), edges: Seq::empty() },
    }
}

/// The flow of the children of a sequence.
pub open spec fn seq_flow(c: Seq<TreeModel>) -> FlowModel
    decreases c,
{
    if c.len() == 0 {
        FlowModel { entries: Seq::empty(), exits: Seq::empty(), edges: Seq::empty() }
    } else {
        let last = flow(c[c.len() - 1]);
        if c.len() == 1 {
            last
        } else {
            let pre = seq_flow(c.subrange(0, c.len() - 1));
            FlowModel {
                entries: pre.entries,
                exits: last.exits,
                edges: pre.edges + last.edges + cross(pre.exits, last.entries),
            }
        }
    }
}

/// The flow of the branches of a choice.
pub open spec fn choice_flow(c: Seq<TreeModel>) -> FlowModel
    decreases c,
{
    if c.len() == 0 {
        FlowModel { entries: Seq::empty(), exits: Seq::empty(), edges: Seq::empty() }
    } else {
        let last = flow(c[c.len() - 1]);
        let pre = choice_flow(c.subrange(0, c.len() - 1));
        FlowModel {
            entries: pre.entries + last.entries,
            exits: pre.exits + last.exits,
            edges: pre.edges + last.edges,
        }
    }
}

/// The texts of a list of pairs of strings.
pub open spec fn pair_texts(v: Seq<(String, String)>) -> Seq<(Seq<char>, Seq<char>)> {
    v.map_values(|p: (String, String)| (p.0@, p.1@))
}

/// The model of entries, exits and edges held in vectors.
pub open spec fn flow_view(r: (Vec<String>, Vec<String>, Vec<(String, String)>)) -> FlowModel {
    FlowModel { entries: texts(r.0@), exits: texts(r.1@), edges: pair_texts(r.2@) }
}

/// The action the graph of a tree gives an activity: the activity as the
/// command, on the screen `discovered`, with no arguments.
pub open spec fn synthetic_model(name: Seq<char>) -> ActionModel {
    ActionModel {
        screen: seq!['d', 'i', 's', 'c', 'o', 'v', 'e', 'r', 'e', 'd'],
        command: name,
        args: JsonModel::Object(Seq::empty()),
    }
}

/// The leaves and edges of a tree as synthetic actions.
pub open spec fn synthetic_edges(e: Seq<(Seq<char>, Seq<char>)>) -> Seq<(ActionModel, ActionModel)> {
    e.map_values(|p: (Seq<char>, Seq<char>)| (synthetic_model(p.0), synthetic_model(p.1)))
}

fn append_texts(dst: &mut Vec<String>, src: &Vec<String>)
    ensures
        texts(final(dst)@) == texts(old(dst)@) + texts(src@),
{
    let ghost base = texts(dst@);
    let mut i: usize = 0;
    while i < src.len()
        invariant
            i <= src@.len(),
            texts(dst@) == base + texts(src@).subrange(0, i as int),
        decreases src@.len() - i,
    {
        let a = src[i].clone();
        let ghost prev = dst@;
        dst.push(a);
        proof {
            assert(texts(dst@) =~= texts(prev).push(a@));
            assert(texts(src@).subrange(0, i + 1) =~= texts(src@).subrange(0, i as int).push(src@[i as int]@));
        }
        i += 1;
        assert(texts(dst@) =~= base + texts(src@).subrange(0, i as int));
    }
    assert(texts(src@).subrange(0, src@.len() as int) =~= texts(src@));
}

fn append_pairs(dst: &mut Vec<(String, String)>, src: Vec<(String, String)>)
    ensures
        pair_texts(final(dst)@) == pair_texts(old(dst)@) + pair_texts(src@),
{
    let ghost base = pair_texts(dst@);
    let mut i: usize = 0;
    while i < src.len()
        invariant
            i <= src@.len(),
            pair_texts(dst@) == base + pair_texts(src@).subrange(0, i as int),
        decreases src@.len() - i,
    {
        let a = src[i].0.clone();
        let b = src[i].1.clone();
        let ghost prev = dst@;
        dst.push((a, b));
        proof {
            assert(pair_texts(dst@) =~= pair_texts(prev).push((a@, b@)));
            assert(pair_texts(src@).subrange(0, i + 1) =~= pair_texts(src@).subrange(0, i as int).push(
                (src@[i as int].0@, src@[i as int].1@),
            ));
        }
        i += 1;
        assert(pair_texts(dst@) =~= base + pair_texts(src@).subrange(0, i as int));
    }
    assert(pair_texts(src@).subrange(0, src@.len() as int) =~= pair_texts(src@));
}

fn push_cross(dst: &mut Vec<(String, String)>, a: &Vec<String>, b: &Vec<String>)
    ensures
        pair_texts(final(dst)@) == pair_texts(old(dst)@) + cross(texts(a@), texts(b@)),
{
    let ghost base = pair_texts(dst@);
    let ghost ta = texts(a@);
    let ghost tb = texts(b@);
    let mut i: usize = 0;
    while i < a.len()
        invariant
            i <= a@.len(),
            ta == texts(a@),
            tb == texts(b@),
            pair_texts(dst@) == base + cross(ta.subrange(0, i as int), tb),
        decreases a@.len() - i,
    {
        let ghost mid = pair_texts(dst@);
        let mut j: usize = 0;
        while j < b.len()
            invariant
                i < a@.len(),
                j <= b@.len(),
                ta == texts(a@),
                tb == texts(b@),
                pair_texts(dst@) == mid + tb.subrange(0, j as int).map_values(
                    |y: Seq<char>| (ta[i as int], y),
                ),
            decreases b@.len() - j,
        {
            let x = a[i].clone();
            let y = b[j].clone();
            let ghost prev = dst@;
            dst.push((x, y));
            proof {
                assert(pair_texts(dst@) =~= pair_texts(prev).push((x@, y@)));
                assert(tb.subrange(0, j + 1) =~= tb.subrange(0, j as int).push(b@[j as int]@));
                assert(x@ == ta[i as int]);
            }
            j += 1;
            assert(pair_texts(dst@) =~= mid + tb.subrange(0, j as int).map_values(
                |y: Seq<char>| (ta[i as int], y),
            ));
        }
        assert(tb.subrange(0, b@.len() as int) =~= tb);
        assert(ta.subrange(0, i + 1).drop_last() =~= ta.subrange(0, i as int));
        i += 1;
    }
    assert(ta.subrange(0, a@.len() as int) =~= ta);
}

fn push_others(dst: &mut Vec<(String, String)>, x: &String, b: &Vec<String>)
    ensures
        pair_texts(final(dst)@) == pair_texts(old(dst)@) + others(x@, texts(b@)),
{
    let ghost base = pair_texts(dst@);
    let ghost tb = texts(b@);
    let mut j: usize = 0;
    while j < b.len()
        invariant
            j <= b@.len(),
            tb == texts(b@),
            pair_texts(dst@) == base + others(x@, tb.subrange(0, j as int)),
        decreases b@.len() - j,
    {
        assert(tb.subrange(0, j + 1).drop_last() =~= tb.subrange(0, j as int));
        if b[j] != *x {
            let p = x.clone();
            let q = b[j].clone();
            let ghost prev = dst@;
            dst.push((p, q));
            assert(pair_texts(dst@) =~= pair_texts(prev).push((p@, q@)));
            assert(tb[j as int] == q@);
            assert(pair_texts(dst@) =~= base + others(x@, tb.subrange(0, j + 1)));
        }
        j += 1;
    }
    assert(tb.subrange(0, b@.len() as int) =~= tb);
}

fn copy_texts(src: &Vec<String>) -> (r: Vec<String>)
    ensures
        texts(r@) == texts(src@),
{
    let mut r: Vec<String> = Vec::new();
    append_texts(&mut r, src);
    assert(texts(r@) =~= texts(src@));
    r
}

proof fn lemma_seq_flow_step(c: Seq<TreeModel>, i: int)
    requires
        0 <= i < c.len(),
    ensures
        seq_flow(c.subrange(0, i + 1)) == if i == 0 {
            flow(c[0])
        } else {
            FlowModel {
                entries: seq_flow(c.subrange(0, i)).entries,
                exits: flow(c[i]).exits,
                edges: seq_flow(c.subrange(0, i)).edges + flow(c[i]).edges + cross(
                    seq_flow(c.subrange(0, i)).exits,
                    flow(c[i]).entries,
                ),
            }
        },
{
    assert(c.subrange(0, i + 1).subrange(0, i) =~= c.subrange(0, i));
}

proof fn lemma_choice_flow_step(c: Seq<TreeModel>, i: int)
    requires
        0 <= i < c.len(),
    ensures
        choice_flow(c.subrange(0, i + 1)) == (FlowModel {
            entries: choice_flow(c.subrange(0, i)).entries + flow(c[i]).entries,
            exits: choice_flow(c.subrange(0, i)).exits + flow(c[i]).exits,
            edges: choice_flow(c.subrange(0, i)).edges + flow(c[i]).edges,
        }),
{
    assert(c.subrange(0, i + 1).subrange(0, i) =~= c.subrange(0, i));
}

impl ProcessTree {
    /// Appends the leaves of this tree to `out`.
    #[verifier::loop_isolation(false)]
    fn push_leaves(&self, out: &mut Vec<String>)
        ensures
            texts(final(out)@) == texts(old(out)@) + leaves(self.model()),
        decreases self,
    {
        match self {
            ProcessTree::Activity(name) => {
                let ghost prev = out@;
                out.push(name.clone());
                assert(texts(out@) =~= texts(prev) + seq![name@]);
            },
            ProcessTree::Sequence(children) | ProcessTree::ExclusiveChoice(children) => {
                let is_seq = match self {
                    ProcessTree::Sequence(_) => true,
                    _ => false,
                };
                let ghost base = texts(out@);
                let ghost ms = ProcessTree::models(children@);
                proof {
                    lemma_tree_models(children@);
                    assert(ms.subrange(0, 0) =~= Seq::<TreeModel>::empty());
                }
                let mut i: usize = 0;
                while i < children.len()
                    invariant
                        i <= children@.len(),
                        ms == ProcessTree::models(children@),
                        ms.len() == children@.len(),
                        forall|k: int| 0 <= k < children@.len() ==> #[trigger] ms[k] == children@[k].model(),
                        texts(out@) == base + children_leaves(ms.subrange(0, i as int)),
                    decreases children@.len() - i,
                {
                    proof {
                        if is_seq {
                            assert(*self == ProcessTree::Sequence(*children));
                        } else {
                            assert(*self == ProcessTree::ExclusiveChoice(*children));
                        }
                        assert(decreases_to!(*self => children@[i as int]));
                        lemma_children_leaves_step(ms, i as int);
                    }
                    children[i].push_leaves(out);
                    i += 1;
                }
                assert(ms.subrange(0, ms.len() as int) =~= ms);
            },
            ProcessTree::Loop { body, redo } => {
                body.push_leaves(out);
                redo.push_leaves(out);
            },
            ProcessTree::Flower(acts) => {
                append_texts(out, acts);
            },
            ProcessTree::Tau => {
                assert(texts(out@) =~= texts(out@) + Seq::<Seq<char>>::empty());
            },
        }
    }

    /// The activity names at the leaves, left to right.
    pub fn collect_leaf_names(&self) -> (r: Vec<String>)
        ensures
            texts(r@) == leaves(self.model()),
    {
        let mut r: Vec<String> = Vec::new();
        self.push_leaves(&mut r);
        assert(texts(r@) =~= leaves(self.model()));
        r
    }

    /// The entry activities, the exit activities and the control-flow
    /// edges the structure of this tree implies.
    #[verifier::loop_isolation(false)]
    pub fn collect_tree_edges(&self) -> (r: (Vec<String>, Vec<String>, Vec<(String, String)>))
        ensures
            flow_view(r) == flow(self.model()),
        decreases self,
    {
        match self {
            ProcessTree::Activity(name) => {
                let mut entries: Vec<String> = Vec::new();
                entries.push(name.clone());
                let mut exits: Vec<String> = Vec::new();
                exits.push(name.clone());
                let edges: Vec<(String, String)> = Vec::new();
                assert(texts(entries@) =~= seq![name@]);
                assert(texts(exits@) =~= seq![name@]);
                assert(pair_texts(edges@) =~= Seq::<(Seq<char>, Seq<char>)>::empty());
                (entries, exits, edges)
            },
            ProcessTree::Tau => {
                let entries: Vec<String> = Vec::new();
                let exits: Vec<String> = Vec::new();
                let edges: Vec<(String, String)> = Vec::new();
                assert(texts(entries@) =~= Seq::<Seq<char>>::empty());
                assert(texts(exits@) =~= Seq::<Seq<char>>::empty());
                assert(pair_texts(edges@) =~= Seq::<(Seq<char>, Seq<char>)>::empty());
                (entries, exits, edges)
            },
            ProcessTree::Sequence(children) => {
                let ghost ms = ProcessTree::models(children@);
                proof {
                    lemma_tree_models(children@);
                }
                let mut entries: Vec<String> = Vec::new();
                let mut prev_exits: Vec<String> = Vec::new();
                let mut edges: Vec<(String, String)> = Vec::new();
                assert(texts(entries@) =~= Seq::<Seq<char>>::empty());
                assert(texts(prev_exits@) =~= Seq::<Seq<char>>::empty());
                assert(pair_texts(edges@) =~= Seq::<(Seq<char>, Seq<char>)>::empty());
                assert(ms.subrange(0, 0) =~= Seq::<TreeModel>::empty());
                let mut i: usize = 0;
                while i < children.len()
                    invariant
                        i <= children@.len(),
                        ms == ProcessTree::models(children@),
                        ms.len() == children@.len(),
                        forall|k: int| 0 <= k < children@.len() ==> #[trigger] ms[k] == children@[k].model(),
                        flow_view((entries, prev_exits, edges)) == seq_flow(ms.subrange(0, i as int)),
                    decreases children@.len() - i,
                {
                    proof {
                        assert(decreases_to!(*self => children@[i as int]));
                        lemma_seq_flow_step(ms, i as int);
                    }
                    let (ce, cx, cd) = children[i].collect_tree_edges();
                    append_pairs(&mut edges, cd);
                    if i == 0 {
                        entries = ce;
                    } else {
                        push_cross(&mut edges, &prev_exits, &ce);
                    }
                    prev_exits = cx;
                    i += 1;
                }
                assert(ms.subrange(0, ms.len() as int) =~= ms);
                (entries, prev_exits, edges)
            },
            ProcessTree::ExclusiveChoice(children) => {
                let ghost ms = ProcessTree::models(children@);
                proof {
                    lemma_tree_models(children@);
                }
                let mut entries: Vec<String> = Vec::new();
                let mut exits: Vec<String> = Vec::new();
                let mut edges: Vec<(String, String)> = Vec::new();
                assert(texts(entries@) =~= Seq::<Seq<char>>::empty());
                assert(texts(exits@) =~= Seq::<Seq<char>>::empty());
                assert(pair_texts(edges@) =~= Seq::<(Seq<char>, Seq<char>)>::empty());
                assert(ms.subrange(0, 0) =~= Seq::<TreeModel>::empty());
                let mut i: usize = 0;
                while i < children.len()
                    invariant
                        i <= children@.len(),
                        ms == ProcessTree::models(children@),
                        ms.len() == children@.len(),
                        forall|k: int| 0 <= k < children@.len() ==> #[trigger] ms[k] == children@[k].model(),
                        flow_view((entries, exits, edges)) == choice_flow(ms.subrange(0, i as int)),
                    decreases children@.len() - i,
                {
                    proof {
                        assert(decreases_to!(*self => children@[i as int]));
                        lemma_choice_flow_step(ms, i as int);
                    }
                    let (ce, cx, cd) = children[i].collect_tree_edges();
                    append_texts(&mut entries, &ce);
                    append_texts(&mut exits, &cx);
                    append_pairs(&mut edges, cd);
                    i += 1;
                }
                assert(ms.subrange(0, ms.len() as int) =~= ms);
                (entries, exits, edges)
            },
            ProcessTree::Loop { body, redo } => {
                let (be, bx, bd) = body.collect_tree_edges();
                let (re, rx, rd) = redo.collect_tree_edges();
                let mut edges = bd;
                append_pairs(&mut edges, rd);
                push_cross(&mut edges, &bx, &re);
                push_cross(&mut edges, &rx, &be);
                (be, bx, edges)
            },
            ProcessTree::Flower(acts) => {
                let ghost a = texts(acts@);
                let mut edges: Vec<(String, String)> = Vec::new();
                assert(pair_texts(edges@) =~= Seq::<(Seq<char>, Seq<char>)>::empty());
                let mut i: usize = 0;
                while i < acts.len()
                    invariant
                        i <= acts@.len(),
                        a == texts(acts@),
                        pair_texts(edges@) == flower_pairs(a, i as nat),
                    decreases acts@.len() - i,
                {
                    push_others(&mut edges, &acts[i], acts);
                    i += 1;
                }
                (copy_texts(acts), copy_texts(acts), edges)
            },
        }
    }
}

impl ProcessTree {
    /// A copy with the same model.
    #[verifier::loop_isolation(false)]
    pub fn duplicate(&self) -> (r: ProcessTree)
        ensures
            r.model() == self.model(),
        decreases self,
    {
        match self {
            ProcessTree::Activity(name) => ProcessTree::Activity(name.clone()),
            ProcessTree::Sequence(children) | ProcessTree::ExclusiveChoice(children) => {
                let is_seq = match self {
                    ProcessTree::Sequence(_) => true,
                    _ => false,
                };
                let mut out: Vec<ProcessTree> = Vec::new();
                let mut i: usize = 0;
                while i < children.len()
                    invariant
                        i <= children@.len(),
                        out@.len() == i,
                        forall|k: int| 0 <= k < i ==> #[trigger] out@[k].model() == children@[k].model(),
                    decreases children@.len() - i,
                {
                    proof {
                        if is_seq {
                            assert(*self == ProcessTree::Sequence(*children));
                        } else {
                            assert(*self == ProcessTree::ExclusiveChoice(*children));
                        }
                        assert(decreases_to!(*self => children@[i as int]));
                    }
                    let c = children[i].duplicate();
                    out.push(c);
                    i += 1;
                }
                proof {
                    lemma_tree_models(out@);
                    lemma_tree_models(children@);
                    assert(ProcessTree::models(out@) =~= ProcessTree::models(children@));
                }
                if is_seq {
                    ProcessTree::Sequence(out)
                } else {
                    ProcessTree::ExclusiveChoice(out)
                }
            },
            ProcessTree::Loop { body, redo } => {
                let b = body.duplicate();
                let r = redo.duplicate();
                ProcessTree::Loop { body: Box::new(b), redo: Box::new(r) }
            },
            ProcessTree::Flower(acts) => {
                let copy = copy_texts(acts);
                ProcessTree::Flower(copy)
            },
            ProcessTree::Tau => ProcessTree::Tau,
        }
    }
}

/// The action a tree's graph gives an activity.
fn synthetic_action(name: &String) -> (r: CanonicalAction)
    ensures
        r.model() == synthetic_model(name@),
{
    let a = CanonicalAction {
        screen_id: ScreenId::new("discovered"),
        command_id: CommandId::new(name.as_str()),
        abstract_args: JsonValue::Object(Vec::new()),
    };
    proof {
        reveal_strlit("discovered");
        assert(a.screen_id@ =~= seq!['d', 'i', 's', 'c', 'o', 'v', 'e', 'r', 'e', 'd']);
        assert(a.command_id@ == name@);
        assert(a.abstract_args.model() == JsonModel::Object(Seq::empty()));
    }
    a
}

/// Convert a process tree to an [`ActionGraph`]: one node per distinct
/// activity of its leaves and edges, on the synthetic screen
/// `discovered` and with no visits, and one edge of frequency one and
/// anomaly score zero per control-flow edge the structure implies.
pub fn tree_to_graph(tree: &ProcessTree) -> (r: ActionGraph)
    requires
        leaves(tree.model()).len() + 2 * flow(tree.model()).edges.len() + 1 < u32::MAX,
    ensures
        unit_graph(
            r.node_actions(),
            r.visits(),
            r.edges(),
            leaves(tree.model()).map_values(|n: Seq<char>| synthetic_model(n)),
            synthetic_edges(flow(tree.model()).edges),
        ),
        r.scored() == Seq::new(flow(tree.model()).edges.len(), |k: int| false),
{
    let names = tree.collect_leaf_names();
    let (_, _, edges) = tree.collect_tree_edges();
    let ghost ln = leaves(tree.model());
    let ghost fe = flow(tree.model()).edges;
    let mut nodes: Vec<CanonicalAction> = Vec::new();
    let mut i: usize = 0;
    while i < names.len()
        invariant
            i <= names@.len(),
            texts(names@) == ln,
            actions_model_of(nodes@) == ln.subrange(0, i as int).map_values(|n: Seq<char>| synthetic_model(n)),
        decreases names@.len() - i,
    {
        let a = synthetic_action(&names[i]);
        let ghost prev = nodes@;
        nodes.push(a);
        proof {
            assert(actions_model_of(nodes@) =~= actions_model_of(prev).push(a.model()));
            assert(ln[i as int] == names@[i as int]@);
            assert(ln.subrange(0, i + 1) =~= ln.subrange(0, i as int).push(ln[i as int]));
        }
        i += 1;
        assert(actions_model_of(nodes@) =~= ln.subrange(0, i as int).map_values(
            |n: Seq<char>| synthetic_model(n),
        ));
    }
    assert(ln.subrange(0, names@.len() as int) =~= ln);
    let mut pairs: Vec<(CanonicalAction, CanonicalAction)> = Vec::new();
    let mut k: usize = 0;
    while k < edges.len()
        invariant
            k <= edges@.len(),
            pair_texts(edges@) == fe,
            crate::graph::action_graph::pairs_model(pairs@) == synthetic_edges(fe.subrange(0, k as int)),
        decreases edges@.len() - k,
    {
        let a = synthetic_action(&edges[k].0);
        let b = synthetic_action(&edges[k].1);
        let ghost prev = pairs@;
        pairs.push((a, b));
        proof {
            assert(crate::graph::action_graph::pairs_model(pairs@) =~= crate::graph::action_graph::pairs_model(
                prev,
            ).push((a.model(), b.model())));
            assert(fe[k as int] == (edges@[k as int].0@, edges@[k as int].1@));
            assert(fe.subrange(0, k + 1) =~= fe.subrange(0, k as int).push(fe[k as int]));
        }
        k += 1;
        assert(crate::graph::action_graph::pairs_model(pairs@) =~= synthetic_edges(fe.subrange(0, k as int)));
    }
    assert(fe.subrange(0, edges@.len() as int) =~= fe);
    assert(texts(names@).len() == names@.len());
    assert(pair_texts(edges@).len() == edges@.len());
    assert(crate::graph::action_graph::pairs_model(pairs@).len() == pairs@.len());
    from_unit_edges(&nodes, &pairs)
}

/// The models of a list of actions.
pub open spec fn actions_model_of(v: Seq<CanonicalAction>) -> Seq<ActionModel> {
    crate::scenario::actions_model(v)
}

} // verus!
