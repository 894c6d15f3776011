//! Chain-bounded dependency graph built from a rendered pipeline.
//!
//! Each step has at most one `builds_in` parent, whose container state
//! it runs in (a lineage edge, which implies a synchronisation edge),
//! and a set of `depends_on` synchronisation edges: the `builds_in`
//! parent plus the implicit barriers that `wait` steps introduce. A
//! lineage chain is a maximal path of `builds_in` edges with a single
//! child at every internal node; it can run as one long-lived container.
use vstd::prelude::*;
use crate::protocol::{CommandStep, Env, Pipeline, Step};
use std::collections::BTreeSet;

verus! {

/// One command step of the graph.
#[derive(Debug)]
pub struct Node {
    /// The step, with its image resolved.
    pub step: CommandStep,
    /// Final environment: the pipeline's, overridden by the step's.
    pub env: Env,
    /// Index of the `builds_in` parent, if any.
    pub builds_in: Option<usize>,
    /// Synchronisation edges.
    pub depends_on: Vec<usize>,
    /// Indices of the `builds_in` children.
    pub builds_in_children: Vec<usize>,
}

/// The synchronisation graph of a pipeline.
#[derive(Debug)]
pub struct Graph {
    /// The command steps, in pipeline order.
    pub nodes: Vec<Node>,
    /// The pipeline's default image.
    pub default_image: Option<String>,
}

/// Why a pipeline has no valid graph.
#[derive(Debug)]
pub enum GraphError {
    /// A step's `builds_in` names no step.
    UnknownBuildsIn {
        /// The step.
        step: String,
        /// The key it names.
        parent: String,
    },
    /// A wait barrier names no step.
    UnknownWaitDep {
        /// The step.
        step: String,
        /// The key it names.
        dep: String,
    },
    /// The steps form a cycle; `target` is reachable from itself via
    /// `via`.
    Cycle {
        /// The step the back edge enters.
        target: String,
        /// The step the back edge leaves.
        via: Option<String>,
    },
}

} // verus!

verus! {

/// A flattened command step and the keys of the steps that a preceding
/// wait barrier makes it wait for.
pub type FlatView = (crate::protocol::CommandStepView, Seq<Seq<char>>);

/// The command steps of `steps` in order, each with the keys of every
/// command step before the last wait barrier preceding it.
pub open spec fn flat_spec(steps: Seq<Step>) -> Seq<FlatView>
    decreases steps.len(),
{
    if steps.len() == 0 {
        Seq::empty()
    } else {
        let prev = steps.drop_last();
        match steps.last() {
            Step::Command(c) => flat_spec(prev).push((c@, wait_targets(prev))),
            Step::Wait(_) => flat_spec(prev),
        }
    }
}

/// Keys of the command steps before the last wait barrier of `steps`.
pub open spec fn wait_targets(steps: Seq<Step>) -> Seq<Seq<char>>
    decreases steps.len(),
{
    if steps.len() == 0 {
        Seq::empty()
    } else {
        let prev = steps.drop_last();
        match steps.last() {
            Step::Command(_) => wait_targets(prev),
            Step::Wait(_) => keys_of(flat_spec(prev)),
        }
    }
}

/// The keys of flattened steps.
pub open spec fn keys_of(f: Seq<FlatView>) -> Seq<Seq<char>> {
    f.map_values(|x: FlatView| x.0.key)
}

/// Index of the last step with key `k`, or -1.
pub open spec fn last_index(keys: Seq<Seq<char>>, k: Seq<char>) -> int
    decreases keys.len(),
{
    if keys.len() == 0 {
        -1
    } else if keys.last() == k {
        keys.len() - 1
    } else {
        last_index(keys.drop_last(), k)
    }
}

/// The keys a step synchronises on: its `builds_in` parent first, then
/// its wait-barrier targets.
pub open spec fn dep_keys(x: FlatView) -> Seq<Seq<char>> {
    match x.0.builds_in {
        Some(b) => seq![b] + x.1,
        None => x.1,
    }
}

/// Every key the step synchronises on names a step.
pub open spec fn resolves(keys: Seq<Seq<char>>, x: FlatView) -> bool {
    forall|j: int| 0 <= j < dep_keys(x).len() ==> last_index(keys, #[trigger] dep_keys(x)[j]) >= 0
}

/// `s` without repetitions, first occurrences kept in order.
pub open spec fn dedup<T>(s: Seq<T>) -> Seq<T>
    decreases s.len(),
{
    if s.len() == 0 {
        Seq::empty()
    } else {
        let d = dedup(s.drop_last());
        if d.contains(s.last()) { d } else { d.push(s.last()) }
    }
}

/// The synchronisation edges of a flattened step.
pub open spec fn spec_depends_on(keys: Seq<Seq<char>>, x: FlatView) -> Seq<usize> {
    dedup(dep_keys(x).map_values(|k: Seq<char>| last_index(keys, k) as usize))
}

/// The `builds_in` parent index of a flattened step.
pub open spec fn parent_index(keys: Seq<Seq<char>>, x: FlatView) -> Option<usize> {
    match x.0.builds_in {
        Some(b) => Some(last_index(keys, b) as usize),
        None => None,
    }
}

/// The synchronisation edges of every flattened step.
pub open spec fn spec_adj(f: Seq<FlatView>) -> Seq<Seq<usize>> {
    Seq::new(f.len(), |i: int| spec_depends_on(keys_of(f), f[i]))
}

struct FlatStep {
    step: CommandStep,
    extra_deps: Vec<String>,
}

spec fn flat_view(v: Seq<FlatStep>) -> Seq<FlatView> {
    v.map_values(|f: FlatStep| (f.step@, f.extra_deps.deep_view()))
}

fn clone_strings(v: &Vec<String>) -> (r: Vec<String>)
    ensures
        r.deep_view() == v.deep_view(),
{
    let mut r: Vec<String> = Vec::new();
    let mut i: usize = 0;
    while i < v.len()
        invariant
            i <= v.len(),
            r@ == v@.take(i as int),
        decreases v.len() - i,
    {
        r.push(v[i].clone());
        i = i + 1;
        assert(r@ =~= v@.take(i as int));
    }
    assert(r@ =~= v@);
    r
}

/// Drops wait barriers; each command step after a wait records the keys
/// of the steps that completed before that wait.
fn flatten_steps(steps: &Vec<Step>) -> (out: Vec<FlatStep>)
    ensures
        flat_view(out@) == flat_spec(steps@),
{
    let mut out: Vec<FlatStep> = Vec::new();
    let mut implicit_wait_targets: Vec<String> = Vec::new();
    let mut i: usize = 0;
    while i < steps.len()
        invariant
            i <= steps.len(),
            flat_view(out@) == flat_spec(steps@.take(i as int)),
            implicit_wait_targets.deep_view() == wait_targets(steps@.take(i as int)),
        decreases steps.len() - i,
    {
        let ghost prefix = steps@.take(i as int);
        proof {
            assert(steps@.take(i + 1).drop_last() =~= prefix);
            assert(steps@.take(i + 1).last() == steps@[i as int]);
        }
        match &steps[i] {
            Step::Command(c) => {
                let step = (**c).clone();
                let extra_deps = clone_strings(&implicit_wait_targets);
                out.push(FlatStep { step, extra_deps });
                assert(flat_view(out@) =~= flat_view(out@.drop_last()).push((c@, wait_targets(prefix))));
            },
            Step::Wait(_) => {
                let mut keys: Vec<String> = Vec::new();
                let mut j: usize = 0;
                while j < out.len()
                    invariant
                        j <= out.len(),
                        keys@.len() == j,
                        forall|m: int| 0 <= m < j ==> (#[trigger] keys@[m])@ == out@[m].step.key@,
                    decreases out.len() - j,
                {
                    keys.push(out[j].step.key.clone());
                    j = j + 1;
                }
                proof {
                    let ks = keys_of(flat_view(out@));
                    assert forall|m: int| 0 <= m < ks.len() implies keys.deep_view()[m] == ks[m] by {
                        assert(flat_view(out@)[m] == (out@[m].step@, out@[m].extra_deps.deep_view()));
                        assert(keys@[m]@ == out@[m].step.key@);
                    }
                    assert(keys.deep_view() =~= ks);
                }
                implicit_wait_targets = keys;
            },
        }
        i = i + 1;
    }
    assert(steps@.take(i as int) =~= steps@);
    out
}

/// Index of the last flattened step whose key is `key`.
fn key_index(flat: &Vec<FlatStep>, key: &String) -> (r: Option<usize>)
    ensures
        match r {
            Some(j) => j as int == last_index(keys_of(flat_view(flat@)), key@) && j < flat@.len(),
            None => last_index(keys_of(flat_view(flat@)), key@) < 0,
        },
{
    let ghost keys = keys_of(flat_view(flat@));
    let mut j: usize = flat.len();
    assert(keys.take(j as int) =~= keys);
    while j > 0
        invariant
            j <= flat@.len(),
            keys == keys_of(flat_view(flat@)),
            keys.len() == flat@.len(),
            last_index(keys, key@) == last_index(keys.take(j as int), key@),
        decreases j,
    {
        proof {
            assert(keys.take(j as int).drop_last() =~= keys.take(j - 1));
            assert(flat_view(flat@)[j - 1] == (flat@[j - 1].step@, flat@[j - 1].extra_deps.deep_view()));
            assert(keys[j - 1] == flat@[j - 1].step@.key);
            assert(keys.take(j as int).last() == keys[j - 1]);
        }
        if flat[j - 1].step.key == *key {
            return Some(j - 1);
        }
        j = j - 1;
    }
    assert(keys.take(0) =~= Seq::<Seq<char>>::empty());
    None
}

} // verus!

verus! {

/// `s` is strictly increasing.
pub open spec fn strictly_increasing(s: Seq<usize>) -> bool {
    forall|a: int, b: int| 0 <= a < b < s.len() ==> #[trigger] s[a] < #[trigger] s[b]
}

/// The step as it stands in the graph: a root step without an image
/// takes the pipeline's default image.
pub open spec fn resolved_step(x: crate::protocol::CommandStepView, default_image: Option<Seq<char>>) -> crate::protocol::CommandStepView {
    if x.builds_in is None && x.image is None && default_image is Some {
        crate::protocol::CommandStepView { image: default_image, ..x }
    } else {
        x
    }
}

/// The pipeline's environment overridden by the step's.
pub open spec fn merged_env(
    pipeline_env: Option<Map<Seq<char>, Seq<char>>>,
    step_env: Option<Map<Seq<char>, Seq<char>>>,
) -> Map<Seq<char>, Seq<char>> {
    let base = match pipeline_env {
        Some(m) => m,
        None => Map::empty(),
    };
    match step_env {
        Some(m) => base.union_prefer_right(m),
        None => base,
    }
}

/// Node `i` is what the pipeline's `i`-th command step becomes.
pub open spec fn node_matches(p: Pipeline, f: Seq<FlatView>, i: int, nd: Node) -> bool {
    let keys = keys_of(f);
    &&& nd.step@ == resolved_step(f[i].0, p.default_image.deep_view())
    &&& nd.env@ == merged_env(crate::protocol::env_view(p.env), f[i].0.env)
    &&& nd.builds_in == parent_index(keys, f[i])
    &&& nd.depends_on@ == spec_depends_on(keys, f[i])
    &&& strictly_increasing(nd.builds_in_children@)
    &&& forall|c: int| 0 <= c < f.len() ==> (nd.builds_in_children@.contains(c as usize) <==> parent_index(keys, #[trigger] f[c]) == Some(i as usize))
    &&& forall|k: int| 0 <= k < nd.builds_in_children@.len() ==> #[trigger] nd.builds_in_children@[k] < f.len()
}

/// `g` is the graph of pipeline `p`, whatever its cycles.
pub open spec fn builds_from(p: Pipeline, g: Graph) -> bool {
    let f = flat_spec(p.steps@);
    &&& g.nodes@.len() == f.len()
    &&& forall|i: int| 0 <= i < f.len() ==> node_matches(p, f, i, #[trigger] g.nodes@[i])
    &&& g.default_image.deep_view() == p.default_image.deep_view()
}

impl Graph {
    /// Every `builds_in` parent and every listed child names a node.
    pub open spec fn lineage_ok(&self) -> bool {
        let n = self.nodes@.len();
        &&& forall|i: int| 0 <= i < n ==> match (#[trigger] self.nodes@[i]).builds_in {
                Some(q) => q < n,
                None => true,
            }
        &&& forall|i: int, k: int| 0 <= i < n && 0 <= k < self.nodes@[i].builds_in_children@.len() ==>
                #[trigger] self.nodes@[i].builds_in_children@[k] < n
    }

    /// Every index stored in the graph names a node.
    pub open spec fn indices_ok(&self) -> bool {
        &&& crate::orchestrator::cycle::edges_in_range(self.adj())
        &&& self.lineage_ok()
    }

    /// Each listed `builds_in` child names its parent.
    pub open spec fn children_name_parent(&self) -> bool {
        forall|q: int, k: int| 0 <= q < self.nodes@.len() && 0 <= k < self.nodes@[q].builds_in_children@.len() ==>
            self.nodes@[#[trigger] self.nodes@[q].builds_in_children@[k] as int].builds_in == Some(q as usize)
    }

    /// The invariants of a graph built from a pipeline.
    pub open spec fn wf(&self) -> bool {
        let n = self.nodes@.len();
        &&& self.indices_ok()
        &&& self.children_name_parent()
        &&& forall|i: int| 0 <= i < n ==> match (#[trigger] self.nodes@[i]).builds_in {
                Some(q) => self.nodes@[i].depends_on@.contains(q),
                None => true,
            }
        &&& forall|q: int, c: int|
                #![trigger self.nodes@[q].builds_in_children@.contains(c as usize), self.nodes@[c]]
                0 <= q < n && 0 <= c < n ==>
                (self.nodes@[q].builds_in_children@.contains(c as usize) <==> self.nodes@[c].builds_in == Some(q as usize))
        &&& forall|i: int| 0 <= i < n ==> strictly_increasing(#[trigger] self.nodes@[i].builds_in_children@)
    }
}

} // verus!

verus! {

/// `last_index` finds a key exactly when the key is present, and then at
/// a matching position.
pub proof fn lemma_last_index(keys: Seq<Seq<char>>, k: Seq<char>)
    ensures
        -1 <= last_index(keys, k) < keys.len(),
        last_index(keys, k) >= 0 <==> keys.contains(k),
        last_index(keys, k) >= 0 ==> keys[last_index(keys, k)] == k,
        forall|j: int| last_index(keys, k) < j < keys.len() ==> keys[j] != k,
    decreases keys.len(),
{
    if keys.len() > 0 {
        let q = keys.drop_last();
        lemma_last_index(q, k);
        if keys.last() != k {
            if keys.contains(k) {
                let j = choose|j: int| 0 <= j < keys.len() && keys[j] == k;
                assert(q[j] == k);
            }
            if q.contains(k) {
                let j = choose|j: int| 0 <= j < q.len() && q[j] == k;
                assert(keys[j] == k);
            }
            assert forall|j: int| last_index(keys, k) < j < keys.len() implies keys[j] != k by {
                if j < q.len() {
                    assert(q[j] == keys[j]);
                }
            }
        } else {
            assert(keys[keys.len() - 1] == k);
        }
    }
}

/// `dedup` keeps exactly the elements of its argument.
pub proof fn lemma_dedup<T>(s: Seq<T>)
    ensures
        forall|y: T| dedup(s).contains(y) <==> s.contains(y),
        dedup(s).no_duplicates(),
    decreases s.len(),
{
    if s.len() > 0 {
        let q = s.drop_last();
        let x = s.last();
        lemma_dedup(q);
        let d = dedup(q);
        assert(s =~= q.push(x));
        assert forall|y: T| s.contains(y) <==> (q.contains(y) || y == x) by {
            if s.contains(y) {
                let j = choose|j: int| 0 <= j < s.len() && s[j] == y;
                if j < q.len() {
                    assert(q[j] == y);
                }
            }
            if q.contains(y) {
                let j = choose|j: int| 0 <= j < q.len() && q[j] == y;
                assert(s[j] == y);
            }
            if y == x {
                assert(s[s.len() - 1] == y);
            }
        }
        if d.contains(x) {
            assert(dedup(s) == d);
        } else {
            assert(dedup(s) == d.push(x));
            assert forall|y: T| d.push(x).contains(y) <==> (d.contains(y) || y == x) by {
                if d.push(x).contains(y) {
                    let j = choose|j: int| 0 <= j < d.len() + 1 && d.push(x)[j] == y;
                    if j < d.len() {
                        assert(d[j] == y);
                    }
                }
                if d.contains(y) {
                    let j = choose|j: int| 0 <= j < d.len() && d[j] == y;
                    assert(d.push(x)[j] == y);
                }
                if y == x {
                    assert(d.push(x)[d.len() as int] == y);
                }
            }
            let e = d.push(x);
            assert forall|a: int, b: int| 0 <= a < e.len() && 0 <= b < e.len() && a != b implies e[a] != e[b] by {
                if a < d.len() && b < d.len() {
                    assert(e[a] == d[a] && e[b] == d[b]);
                } else if a < d.len() {
                    assert(e[a] == d[a]);
                    assert(d.contains(d[a]));
                } else {
                    assert(e[b] == d[b]);
                    assert(d.contains(d[b]));
                }
            }
        }
    }
}

proof fn lemma_keys_prefix(steps: Seq<Step>)
    requires
        steps.len() > 0,
    ensures
        flat_spec(steps.drop_last()).len() <= flat_spec(steps).len(),
        forall|i: int| 0 <= i < flat_spec(steps.drop_last()).len() ==> flat_spec(steps)[i] == flat_spec(steps.drop_last())[i],
{
}

/// Every wait-barrier target of a flattened step is the key of some
/// flattened step, as are the current wait targets.
proof fn lemma_wait_targets_are_keys(steps: Seq<Step>)
    ensures
        forall|i: int, j: int| 0 <= i < flat_spec(steps).len() && 0 <= j < flat_spec(steps)[i].1.len() ==>
            keys_of(flat_spec(steps)).contains(#[trigger] flat_spec(steps)[i].1[j]),
        forall|j: int| 0 <= j < wait_targets(steps).len() ==> keys_of(flat_spec(steps)).contains(#[trigger] wait_targets(steps)[j]),
    decreases steps.len(),
{
    if steps.len() > 0 {
        let prev = steps.drop_last();
        lemma_wait_targets_are_keys(prev);
        lemma_keys_prefix(steps);
        let f0 = flat_spec(prev);
        let f1 = flat_spec(steps);
        assert forall|k: Seq<char>| keys_of(f0).contains(k) implies keys_of(f1).contains(k) by {
            let a = choose|a: int| 0 <= a < keys_of(f0).len() && keys_of(f0)[a] == k;
            assert(f1[a] == f0[a]);
            assert(keys_of(f1)[a] == k);
        }
        assert forall|i: int, j: int| 0 <= i < f1.len() && 0 <= j < f1[i].1.len() implies
            keys_of(f1).contains(#[trigger] f1[i].1[j]) by {
            if i < f0.len() {
                assert(f1[i] == f0[i]);
                assert(keys_of(f0).contains(f0[i].1[j]));
            } else {
                assert(f1[i].1 == wait_targets(prev));
                assert(keys_of(f0).contains(wait_targets(prev)[j]));
            }
        }
        assert forall|j: int| 0 <= j < wait_targets(steps).len() implies keys_of(f1).contains(#[trigger] wait_targets(steps)[j]) by {
            match steps.last() {
                Step::Command(_) => {
                    assert(keys_of(f0).contains(wait_targets(prev)[j]));
                },
                Step::Wait(_) => {
                    assert(f1 == f0);
                    assert(keys_of(f0)[j] == wait_targets(steps)[j]);
                },
            }
        }
    }
}

/// Wait barriers only name steps that exist: their targets always
/// resolve.
pub proof fn lemma_wait_targets_resolve(steps: Seq<Step>)
    ensures
        forall|i: int, j: int| 0 <= i < flat_spec(steps).len() && 0 <= j < flat_spec(steps)[i].1.len() ==>
            last_index(keys_of(flat_spec(steps)), #[trigger] flat_spec(steps)[i].1[j]) >= 0,
{
    lemma_wait_targets_are_keys(steps);
    assert forall|i: int, j: int| 0 <= i < flat_spec(steps).len() && 0 <= j < flat_spec(steps)[i].1.len() implies
        last_index(keys_of(flat_spec(steps)), #[trigger] flat_spec(steps)[i].1[j]) >= 0 by {
        lemma_last_index(keys_of(flat_spec(steps)), flat_spec(steps)[i].1[j]);
    }
}

} // verus!

verus! {

fn contains_usize(v: &Vec<usize>, x: usize) -> (r: bool)
    ensures
        r == v@.contains(x),
{
    let mut i: usize = 0;
    while i < v.len()
        invariant
            i <= v.len(),
            forall|j: int| 0 <= j < i ==> v@[j] != x,
        decreases v.len() - i,
    {
        if v[i] == x {
            return true;
        }
        i = i + 1;
    }
    false
}

fn copy_usizes(v: &Vec<usize>) -> (r: Vec<usize>)
    ensures
        r@ == v@,
{
    let mut r: Vec<usize> = Vec::new();
    let mut i: usize = 0;
    while i < v.len()
        invariant
            i <= v.len(),
            r@ == v@.take(i as int),
        decreases v.len() - i,
    {
        r.push(v[i]);
        i = i + 1;
        assert(r@ =~= v@.take(i as int));
    }
    assert(v@.take(i as int) =~= v@);
    r
}

/// Append `x` to the list at position `q`.
fn append_at(v: &mut Vec<Vec<usize>>, q: usize, x: usize)
    requires
        q < old(v)@.len(),
    ensures
        final(v)@.len() == old(v)@.len(),
        final(v)@[q as int]@ == old(v)@[q as int]@.push(x),
        forall|j: int| 0 <= j < old(v)@.len() && j != q ==> final(v)@[j] == old(v)@[j],
{
    let mut tmp: Vec<usize> = Vec::new();
    v.set_and_swap(q, &mut tmp);
    tmp.push(x);
    v.set_and_swap(q, &mut tmp);
}

/// Push `x` unless it is already present.
fn push_unique(d: &mut Vec<usize>, x: usize)
    ensures
        final(d)@ == if old(d)@.contains(x) { old(d)@ } else { old(d)@.push(x) },
{
    if !contains_usize(d, x) {
        d.push(x);
    }
}

/// A graph built from a pipeline whose keys all resolve satisfies the
/// graph invariants.
proof fn lemma_built_wf(p: Pipeline, g: Graph)
    requires
        builds_from(p, g),
        forall|i: int| 0 <= i < flat_spec(p.steps@).len() ==> resolves(keys_of(flat_spec(p.steps@)), #[trigger] flat_spec(p.steps@)[i]),
    ensures
        g.wf(),
{
    let f = flat_spec(p.steps@);
    let keys = keys_of(f);
    let n = f.len();
    assert(keys.len() == n);
    assert forall|i: int| 0 <= i < n implies {
        &&& forall|k: int| 0 <= k < g.adj()[i].len() ==> #[trigger] g.adj()[i][k] < g.adj().len()
        &&& match (#[trigger] g.nodes@[i]).builds_in {
            Some(q) => q < n && g.nodes@[i].depends_on@.contains(q),
            None => true,
        }
    } by {
        let x = f[i];
        assert(node_matches(p, f, i, g.nodes@[i]));
        let mapped = dep_keys(x).map_values(|k: Seq<char>| last_index(keys, k) as usize);
        lemma_dedup(mapped);
        assert(g.adj()[i] == dedup(mapped));
        assert forall|k: int| 0 <= k < g.adj()[i].len() implies #[trigger] g.adj()[i][k] < g.adj().len() by {
            let y = g.adj()[i][k];
            assert(dedup(mapped).contains(y));
            assert(mapped.contains(y));
            let a = choose|a: int| 0 <= a < mapped.len() && mapped[a] == y;
            lemma_last_index(keys, dep_keys(x)[a]);
            assert(last_index(keys, dep_keys(x)[a]) >= 0);
        }
        if let Some(b) = x.0.builds_in {
            assert(dep_keys(x)[0] == b);
            lemma_last_index(keys, b);
            assert(last_index(keys, dep_keys(x)[0]) >= 0);
            assert(mapped[0] == last_index(keys, b) as usize);
            assert(mapped.contains(mapped[0]));
        }
    }
    assert(crate::orchestrator::cycle::edges_in_range(g.adj())) by {
        assert forall|u: int, k: int| 0 <= u < g.adj().len() && 0 <= k < g.adj()[u].len() implies #[trigger] g.adj()[u][k] < g.adj().len() by {
        }
    }
    assert forall|q: int, k: int| 0 <= q < n && 0 <= k < g.nodes@[q].builds_in_children@.len() implies
        g.nodes@[#[trigger] g.nodes@[q].builds_in_children@[k] as int].builds_in == Some(q as usize) by {
        assert(node_matches(p, f, q, g.nodes@[q]));
        let c = g.nodes@[q].builds_in_children@[k];
        assert(g.nodes@[q].builds_in_children@.contains(c));
        assert(node_matches(p, f, c as int, g.nodes@[c as int]));
    }
    assert forall|q: int, c: int| 0 <= q < n && 0 <= c < n implies
        (#[trigger] g.nodes@[q].builds_in_children@.contains(c as usize) <==> #[trigger] g.nodes@[c].builds_in == Some(q as usize)) by {
        assert(node_matches(p, f, q, g.nodes@[q]));
        assert(node_matches(p, f, c, g.nodes@[c]));
    }
    assert forall|i: int, k: int| 0 <= i < n && 0 <= k < g.nodes@[i].builds_in_children@.len() implies
        #[trigger] g.nodes@[i].builds_in_children@[k] < n by {
        assert(node_matches(p, f, i, g.nodes@[i]));
    }
    assert forall|i: int| 0 <= i < n implies strictly_increasing(#[trigger] g.nodes@[i].builds_in_children@) by {
        assert(node_matches(p, f, i, g.nodes@[i]));
    }
}

impl Graph {
    /// Builds the synchronisation graph of a rendered pipeline.
    ///
    /// Fails when a step's `builds_in` names no step (reporting the first
    /// such step), or when the steps form a cycle (naming both ends of the
    /// first back edge a depth-first search meets). Wait barriers only ever name existing steps, so the
    /// wait-barrier error never occurs.
    pub fn build(pipeline: &Pipeline) -> (res: Result<Graph, GraphError>)
        ensures
            ({
                let f = flat_spec(pipeline.steps@);
                let keys = keys_of(f);
                match res {
                    Ok(g) => {
                        &&& forall|i: int| 0 <= i < f.len() ==> resolves(keys, #[trigger] f[i])
                        &&& builds_from(*pipeline, g)
                        &&& g.wf()
                        &&& g.adj() == spec_adj(f)
                        &&& !crate::orchestrator::cycle::has_cycle(g.adj())
                        &&& forall|p: int| 0 <= p < pipeline.steps@.len() && #[trigger] pipeline.steps@[p] is Command ==> {
                            &&& node_of(pipeline.steps@, p) < g.nodes@.len()
                            &&& g.nodes@[node_of(pipeline.steps@, p)].step@.key == step_key(pipeline.steps@[p])
                        }
                        &&& command_keys_distinct(pipeline.steps@) ==> forall|p: int, w: int, q: int|
                            #![trigger pipeline.steps@[p], pipeline.steps@[w], pipeline.steps@[q]]
                            0 <= q < w < p < pipeline.steps@.len() && pipeline.steps@[w] is Wait
                                && pipeline.steps@[p] is Command && pipeline.steps@[q] is Command
                                ==> g.nodes@[node_of(pipeline.steps@, p)].depends_on@.contains(node_of(pipeline.steps@, q) as usize)
                    },
                    Err(GraphError::UnknownBuildsIn { step, parent }) => exists|i: int| {
                        &&& 0 <= i < f.len()
                        &&& forall|j: int| 0 <= j < i ==> resolves(keys, #[trigger] f[j])
                        &&& #[trigger] f[i].0.builds_in == Some(parent@)
                        &&& last_index(keys, parent@) < 0
                        &&& step@ == f[i].0.key
                    },
                    Err(GraphError::UnknownWaitDep { .. }) => false,
                    Err(GraphError::Cycle { target, via }) => {
                        &&& forall|i: int| 0 <= i < f.len() ==> resolves(keys, #[trigger] f[i])
                        &&& crate::orchestrator::cycle::has_cycle(spec_adj(f))
                        &&& match crate::orchestrator::cycle::dfs_back_edge(spec_adj(f)) {
                            Some((Some(v), t)) => {
                                &&& crate::orchestrator::cycle::is_back_edge(spec_adj(f), v as int, t as int)
                                &&& target@ == keys[t as int]
                                &&& via.deep_view() == Some(keys[v as int])
                            },
                            _ => false,
                        }
                    },
                }
            }),
    {
        let flat = flatten_steps(&pipeline.steps);
        let ghost f = flat_spec(pipeline.steps@);
        let ghost keys = keys_of(f);
        proof { lemma_wait_targets_resolve(pipeline.steps@); }
        let n = flat.len();
        let mut children: Vec<Vec<usize>> = Vec::new();
        let mut z: usize = 0;
        while z < n
            invariant
                z <= n,
                children@.len() == z,
                forall|q: int| 0 <= q < z ==> (#[trigger] children@[q])@.len() == 0,
            decreases n - z,
        {
            children.push(Vec::new());
            z = z + 1;
        }
        let mut parents: Vec<Option<usize>> = Vec::new();
        let mut deps: Vec<Vec<usize>> = Vec::new();
        let mut i: usize = 0;
        while i < n
            invariant
                n == flat@.len(),
                f == flat_view(flat@),
                f == flat_spec(pipeline.steps@),
                keys == keys_of(f),
                f.len() == n,
                i <= n,
                forall|a: int, j: int| 0 <= a < f.len() && 0 <= j < f[a].1.len() ==>
                    last_index(keys, #[trigger] f[a].1[j]) >= 0,
                parents@.len() == i,
                deps@.len() == i,
                children@.len() == n,
                forall|j: int| 0 <= j < i ==> resolves(keys, #[trigger] f[j]),
                forall|j: int| 0 <= j < i ==> #[trigger] parents@[j] == parent_index(keys, f[j]),
                forall|j: int| 0 <= j < i ==> (#[trigger] deps@[j])@ == spec_depends_on(keys, f[j]),
                forall|q: int| 0 <= q < n ==> strictly_increasing(#[trigger] children@[q]@),
                forall|q: int, k: int| 0 <= q < n && 0 <= k < children@[q]@.len() ==> #[trigger] children@[q]@[k] < i,
                forall|q: int, c: int| 0 <= q < n && 0 <= c < i ==>
                    (#[trigger] children@[q]@.contains(c as usize) <==> parent_index(keys, #[trigger] f[c]) == Some(q as usize)),
            decreases n - i,
        {
            let ghost x = f[i as int];
            let ghost mapped = dep_keys(x).map_values(|k: Seq<char>| last_index(keys, k) as usize);
            proof {
                assert(flat_view(flat@)[i as int] == (flat@[i as int].step@, flat@[i as int].extra_deps.deep_view()));
            }
            let mut d: Vec<usize> = Vec::new();
            let mut par: Option<usize> = None;
            let mut off: usize = 0;
            if let Some(parent_key) = &flat[i].step.builds_in {
                match key_index(&flat, parent_key) {
                    None => {
                        let step = flat[i].step.key.clone();
                        let parent = parent_key.clone();
                        proof {
                            assert(x.0.builds_in == Some(parent@));
                            assert(f[i as int].0.builds_in == Some(parent@));
                            assert(f[i as int].0.key == step@);
                            assert(forall|j: int| 0 <= j < i ==> resolves(keys, #[trigger] f[j]));
                            assert(last_index(keys, parent@) < 0);
                            assert(exists|i: int| {
                                &&& 0 <= i < f.len()
                                &&& forall|j: int| 0 <= j < i ==> resolves(keys, #[trigger] f[j])
                                &&& #[trigger] f[i].0.builds_in == Some(parent@)
                                &&& last_index(keys, parent@) < 0
                                &&& step@ == f[i].0.key
                            });
                        }
                        return Err(GraphError::UnknownBuildsIn { step, parent });
                    },
                    Some(pi) => {
                        par = Some(pi);
                        let ghost before = children@;
                        append_at(&mut children, pi, i);
                        proof {
                            lemma_last_index(keys, parent_key@);
                            assert forall|q: int, c: int| 0 <= q < n && 0 <= c < i + 1 implies
                                (#[trigger] children@[q]@.contains(c as usize) <==> parent_index(keys, #[trigger] f[c]) == Some(q as usize)) by {
                                if q == pi {
                                    assert(children@[q]@ == before[q]@.push(i));
                                    if before[q]@.contains(c as usize) {
                                        let a = choose|a: int| 0 <= a < before[q]@.len() && before[q]@[a] == c as usize;
                                        assert(children@[q]@[a] == c as usize);
                                    }
                                    if children@[q]@.contains(c as usize) && c != i {
                                        let a = choose|a: int| 0 <= a < children@[q]@.len() && children@[q]@[a] == c as usize;
                                        assert(a < before[q]@.len());
                                        assert(before[q]@[a] == c as usize);
                                    }
                                    if c == i {
                                        assert(children@[q]@[before[q]@.len() as int] == i);
                                    }
                                } else {
                                    assert(children@[q] == before[q]);
                                    if c == i {
                                        assert(parent_index(keys, f[c]) == Some(pi));
                                    }
                                }
                            }
                            assert forall|q: int| 0 <= q < n implies strictly_increasing(#[trigger] children@[q]@) by {
                                if q == pi {
                                    assert(children@[q]@ == before[q]@.push(i));
                                    assert(strictly_increasing(before[q]@));
                                    assert forall|a: int, b: int| 0 <= a < b < children@[q]@.len() implies #[trigger] children@[q]@[a] < #[trigger] children@[q]@[b] by {
                                        if b < before[q]@.len() {
                                            assert(before[q]@[a] < before[q]@[b]);
                                        } else {
                                            assert(before[q]@[a] < i);
                                        }
                                    }
                                } else {
                                    assert(children@[q] == before[q]);
                                }
                            }
                            assert forall|q: int, k: int| 0 <= q < n && 0 <= k < children@[q]@.len() implies #[trigger] children@[q]@[k] < i + 1 by {
                                if q == pi {
                                    assert(children@[q]@ == before[q]@.push(i));
                                    if k < before[q]@.len() {
                                        assert(before[q]@[k] < i);
                                    }
                                } else {
                                    assert(children@[q] == before[q]);
                                }
                            }
                        }
                        push_unique(&mut d, pi);
                        off = 1;
                        proof {
                            assert(mapped.take(1) =~= seq![pi]);
                            let s1 = seq![pi];
                            assert(s1.drop_last() =~= Seq::<usize>::empty());
                            assert(dedup(s1.drop_last()) =~= Seq::<usize>::empty());
                            assert(!Seq::<usize>::empty().contains(pi));
                            assert(dedup(s1) == Seq::<usize>::empty().push(pi));
                            assert(d@ =~= Seq::<usize>::empty().push(pi));
                            assert(d@ == dedup(mapped.take(1)));
                        }
                    },
                }
            } else {
                proof {
                    assert(mapped.take(0) =~= Seq::<usize>::empty());
                    assert forall|q: int, c: int| 0 <= q < n && 0 <= c < i + 1 implies
                        (#[trigger] children@[q]@.contains(c as usize) <==> parent_index(keys, #[trigger] f[c]) == Some(q as usize)) by {
                        if c == i {
                            if children@[q]@.contains(c as usize) {
                                let a = choose|a: int| 0 <= a < children@[q]@.len() && children@[q]@[a] == c as usize;
                            }
                        }
                    }
                }
            }
            proof {
                assert(d@ == dedup(mapped.take(off as int)));
                assert(off as int + x.1.len() == dep_keys(x).len());
            }
            let extra = &flat[i].extra_deps;
            let mut m: usize = 0;
            while m < extra.len()
                invariant
                    n == flat@.len(),
                    f == flat_view(flat@),
                    keys == keys_of(f),
                    i < n,
                    x == f[i as int],
                    extra.deep_view() == x.1,
                    mapped == dep_keys(x).map_values(|k: Seq<char>| last_index(keys, k) as usize),
                    off as int + x.1.len() == dep_keys(x).len(),
                    forall|j: int| 0 <= j < x.1.len() ==> dep_keys(x)[off as int + j] == x.1[j],
                    forall|j: int| 0 <= j < x.1.len() ==> last_index(keys, #[trigger] x.1[j]) >= 0,
                    off == 0 || (off == 1 && x.0.builds_in is Some && last_index(keys, x.0.builds_in->0) >= 0),
                    m <= extra.len(),
                    d@ == dedup(mapped.take(off + m)),
                decreases extra.len() - m,
            {
                let dep_key = &extra[m];
                proof {
                    assert(extra.deep_view()[m as int] == dep_key@);
                }
                match key_index(&flat, dep_key) {
                    None => {
                        let step = flat[i].step.key.clone();
                        let dep = dep_key.clone();
                        proof {
                            assert(last_index(keys, x.1[m as int]) >= 0);
                        }
                        return Err(GraphError::UnknownWaitDep { step, dep });
                    },
                    Some(pi) => {
                        proof {
                            let t = mapped.take(off + m + 1);
                            assert(t.drop_last() =~= mapped.take(off + m));
                            assert(t.last() == mapped[off + m]);
                            assert(mapped[off + m] == pi);
                        }
                        push_unique(&mut d, pi);
                    },
                }
                m = m + 1;
            }
            proof {
                assert(mapped.take(off + m) =~= mapped);
                assert(resolves(keys, x)) by {
                    assert forall|j: int| 0 <= j < dep_keys(x).len() implies last_index(keys, #[trigger] dep_keys(x)[j]) >= 0 by {
                        if j < off {
                            assert(dep_keys(x)[j] == x.0.builds_in->0);
                        } else {
                            assert(dep_keys(x)[off + (j - off)] == x.1[j - off]);
                        }
                    }
                }
                assert(par == parent_index(keys, x));
            }
            parents.push(par);
            deps.push(d);
            i = i + 1;
        }
        proof {
            assert forall|j: int| 0 <= j < n implies resolves(keys, #[trigger] f[j]) by {}
        }
        let pipeline_env = match &pipeline.env {
            Some(e) => e.clone(),
            None => Env::new(),
        };
        let mut nodes: Vec<Node> = Vec::new();
        let mut k: usize = 0;
        while k < n
            invariant
                n == flat@.len(),
                f == flat_view(flat@),
                keys == keys_of(f),
                f.len() == n,
                parents@.len() == n,
                deps@.len() == n,
                children@.len() == n,
                k <= n,
                nodes@.len() == k,
                pipeline_env@ == merged_env(crate::protocol::env_view(pipeline.env), None),
                forall|j: int| 0 <= j < n ==> #[trigger] parents@[j] == parent_index(keys, f[j]),
                forall|j: int| 0 <= j < n ==> (#[trigger] deps@[j])@ == spec_depends_on(keys, f[j]),
                forall|q: int| 0 <= q < n ==> strictly_increasing(#[trigger] children@[q]@),
                forall|q: int, t: int| 0 <= q < n && 0 <= t < children@[q]@.len() ==> #[trigger] children@[q]@[t] < n,
                forall|q: int, c: int| 0 <= q < n && 0 <= c < n ==>
                    (#[trigger] children@[q]@.contains(c as usize) <==> parent_index(keys, #[trigger] f[c]) == Some(q as usize)),
                forall|j: int| 0 <= j < k ==> node_matches(*pipeline, f, j, #[trigger] nodes@[j]),
            decreases n - k,
        {
            proof {
                assert(flat_view(flat@)[k as int] == (flat@[k as int].step@, flat@[k as int].extra_deps.deep_view()));
            }
            let mut env = pipeline_env.clone();
            if let Some(e) = &flat[k].step.env {
                env.extend(e);
            }
            let mut step = flat[k].step.clone();
            if let Some(img) = &pipeline.default_image {
                if parents[k].is_none() && step.image.is_none() {
                    step.image = Some(img.clone());
                }
            }
            let node = Node {
                step,
                env,
                builds_in: parents[k],
                depends_on: copy_usizes(&deps[k]),
                builds_in_children: copy_usizes(&children[k]),
            };
            proof {
                let fx = f[k as int];
                assert(node.step@ =~= resolved_step(fx.0, pipeline.default_image.deep_view()));
                assert(node.env@ =~= merged_env(crate::protocol::env_view(pipeline.env), fx.0.env));
            }
            nodes.push(node);
            k = k + 1;
        }
        let g = Graph { nodes, default_image: crate::protocol::clone_opt_string(&pipeline.default_image) };
        proof {
            assert(builds_from(*pipeline, g));
            assert(g.adj() =~= spec_adj(f)) by {
                assert forall|j: int| 0 <= j < n implies g.adj()[j] == spec_adj(f)[j] by {
                    assert(node_matches(*pipeline, f, j, g.nodes@[j]));
                }
            }
            lemma_built_wf(*pipeline, g);
        }
        match g.assert_acyclic() {
            Ok(()) => {
                proof {
                    let st = pipeline.steps@;
                    assert forall|p: int| 0 <= p < st.len() && #[trigger] st[p] is Command implies {
                        &&& node_of(st, p) < g.nodes@.len()
                        &&& g.nodes@[node_of(st, p)].step@.key == step_key(st[p])
                    } by {
                        lemma_flat_at(st, p);
                        assert(node_matches(*pipeline, f, node_of(st, p), g.nodes@[node_of(st, p)]));
                    }
                    if command_keys_distinct(st) {
                        assert forall|p: int, w: int, q: int|
                            #![trigger st[p], st[w], st[q]]
                            0 <= q < w < p < st.len() && st[w] is Wait && st[p] is Command && st[q] is Command
                            implies g.nodes@[node_of(st, p)].depends_on@.contains(node_of(st, q) as usize) by {
                            lemma_wait_barrier_edge(st, p, w, q);
                            lemma_flat_at(st, p);
                            assert(g.adj()[node_of(st, p)] == g.nodes@[node_of(st, p)].depends_on@);
                        }
                    }
                }
                Ok(g)
            },
            Err(e) => {
                proof {
                    let (p, tu) = crate::orchestrator::cycle::dfs_back_edge(g.adj())->0;
                    let t = tu as int;
                    let v = p->0 as int;
                    assert(crate::orchestrator::cycle::edge(g.adj(), v, t));
                    assert(0 <= v < n);
                    assert(node_matches(*pipeline, f, v, g.nodes@[v]));
                    let pth = choose|pth: Seq<int>| crate::orchestrator::cycle::is_path(g.adj(), pth) && pth[0] == t && pth.last() == v;
                    assert(0 <= t < n) by {
                        if pth.len() > 1 {
                            assert(crate::orchestrator::cycle::edge(g.adj(), pth[0int], pth[0int + 1]));
                        }
                    }
                    assert(node_matches(*pipeline, f, t, g.nodes@[t]));
                    assert(keys[t] == f[t].0.key);
                    assert(keys[v] == f[v].0.key);
                    assert(e->Cycle_target@ == keys[t]);
                    assert(e->Cycle_via.deep_view() == Some(keys[v]));
                }
                Err(e)
            },
        }
    }
}

} // verus!

verus! {

/// Number of `false` entries.
spec fn unplaced(s: Seq<bool>) -> nat
    decreases s.len(),
{
    if s.len() == 0 {
        0
    } else {
        unplaced(s.drop_last()) + if s.last() { 0nat } else { 1nat }
    }
}

proof fn lemma_unplaced_set(s: Seq<bool>, x: int)
    requires
        0 <= x < s.len(),
        !s[x],
    ensures
        unplaced(s.update(x, true)) + 1 == unplaced(s),
    decreases s.len(),
{
    let d = s.update(x, true);
    if x < s.len() - 1 {
        assert(d.drop_last() =~= s.drop_last().update(x, true));
        lemma_unplaced_set(s.drop_last(), x);
    } else {
        assert(d.drop_last() =~= s.drop_last());
    }
}

/// `x` appears in one of the chains.
pub open spec fn in_some_chain(chains: Seq<Seq<usize>>, x: usize) -> bool {
    exists|j: int, k: int| 0 <= j < chains.len() && 0 <= k < chains[j].len() && #[trigger] chains[j][k] == x
}

/// Index of the last chain that holds `x`, or `usize::MAX`.
pub open spec fn chain_index(chains: Seq<Seq<usize>>, x: usize) -> usize
    decreases chains.len(),
{
    if chains.len() == 0 {
        usize::MAX
    } else if chains.last().contains(x) {
        (chains.len() - 1) as usize
    } else {
        chain_index(chains.drop_last(), x)
    }
}

/// Chain `y` holds a step that chain `ci` synchronises on, as far as the
/// chain index of that step says.
pub open spec fn chain_uses(g: Graph, chains: Seq<Seq<usize>>, ci: int, y: usize) -> bool {
    exists|k: int, t: int|
        0 <= k < chains[ci].len() && 0 <= t < g.adj()[chains[ci][k] as int].len()
            && chain_index(chains, #[trigger] g.adj()[chains[ci][k] as int][t]) == y
}

impl Graph {
    /// Step `i` runs in its parent's container: it is the unique
    /// `builds_in` child of its parent and has no other synchronisation
    /// edge.
    pub open spec fn spec_is_chain_step(&self, i: int) -> bool {
        match self.nodes@[i].builds_in {
            Some(q) => self.nodes@[q as int].builds_in_children@.len() == 1 && self.nodes@[i].depends_on@.len() == 1,
            None => false,
        }
    }

    /// A lineage chain: a root that is not a chain step, then chain steps
    /// each building in the previous one, ending where no child of the
    /// last step is a chain step.
    pub open spec fn chain_ok(&self, ch: Seq<usize>) -> bool {
        let n = self.nodes@.len();
        &&& ch.len() >= 1
        &&& forall|k: int| 0 <= k < ch.len() ==> #[trigger] ch[k] < n
        &&& !self.spec_is_chain_step(ch[0] as int)
        &&& forall|k: int| 1 <= k < ch.len() ==> self.spec_is_chain_step(#[trigger] ch[k] as int)
                && self.nodes@[ch[k] as int].builds_in == Some(ch[k - 1])
        &&& forall|t: int| 0 <= t < self.nodes@[ch.last() as int].builds_in_children@.len() ==>
                !self.spec_is_chain_step(#[trigger] self.nodes@[ch.last() as int].builds_in_children@[t] as int)
    }

    /// True iff `i` is the unique `builds_in` child of its parent and has
    /// no other `depends_on` edge; such a step can run in the parent's
    /// running container.
    pub fn is_chain_step(&self, i: usize) -> (r: bool)
        requires
            i < self.nodes@.len(),
            match self.nodes@[i as int].builds_in {
                Some(q) => q < self.nodes@.len(),
                None => true,
            },
        ensures
            r == self.spec_is_chain_step(i as int),
            r ==> self.nodes@[i as int].builds_in is Some && self.nodes@[i as int].depends_on@.len() == 1,
            r ==> self.nodes@[self.nodes@[i as int].builds_in->0 as int].builds_in_children@.len() == 1,
    {
        match self.nodes[i].builds_in {
            Some(p) => {
                self.nodes[p].builds_in_children.len() == 1 && self.nodes[i].depends_on.len() == 1
            },
            None => false,
        }
    }

    /// Partitions the nodes into chain units `[root, step_1, ...]` where
    /// the root is not a chain step and each further index is a chain
    /// step building in the previous one. Chains come in ascending root
    /// order and no node appears twice.
    pub fn chains(&self) -> (out: Vec<Vec<usize>>)
        requires
            self.lineage_ok(),
            self.children_name_parent(),
        ensures
            forall|j: int| 0 <= j < out@.len() ==> self.chain_ok(#[trigger] out@[j]@),
            forall|a: int, b: int| 0 <= a < b < out@.len() ==> #[trigger] out@[a]@[0] < #[trigger] out@[b]@[0],
            forall|i: int| 0 <= i < self.nodes@.len() && !self.spec_is_chain_step(i) ==>
                exists|j: int| 0 <= j < out@.len() && #[trigger] out@[j]@[0] == i,
            forall|j1: int, k1: int, j2: int, k2: int|
                0 <= j1 < out@.len() && 0 <= k1 < out@[j1]@.len() && 0 <= j2 < out@.len() && 0 <= k2 < out@[j2]@.len()
                && #[trigger] out@[j1]@[k1] == #[trigger] out@[j2]@[k2] ==> j1 == j2 && k1 == k2,
            self.chains_spec(out@.map_values(|c: Vec<usize>| c@)),
            forall|j: int, k: int| 0 <= j < out@.len() && 1 <= k < out@[j]@.len() ==>
                self.nodes@[#[trigger] out@[j]@[k] as int].depends_on@.len() == 1
                && self.nodes@[out@[j]@[k] as int].builds_in == Some(out@[j]@[k - 1]),
    {
        let n = self.nodes.len();
        let mut placed: Vec<bool> = Vec::new();
        let mut z: usize = 0;
        while z < n
            invariant
                z <= n,
                placed@.len() == z,
                forall|x: int| 0 <= x < z ==> !placed@[x],
            decreases n - z,
        {
            placed.push(false);
            z = z + 1;
        }
        let mut out: Vec<Vec<usize>> = Vec::new();
        let mut root: usize = 0;
        while root < n
            invariant
                n == self.nodes@.len(),
                self.lineage_ok(),
                self.children_name_parent(),
                root <= n,
                placed@.len() == n,
                forall|j: int| 0 <= j < out@.len() ==> self.chain_ok(#[trigger] out@[j]@),
                forall|a: int, b: int| 0 <= a < b < out@.len() ==> #[trigger] out@[a]@[0] < #[trigger] out@[b]@[0],
                forall|j: int| 0 <= j < out@.len() ==> #[trigger] out@[j]@[0] < root,
                forall|i: int| 0 <= i < root && !self.spec_is_chain_step(i) ==>
                    exists|j: int| 0 <= j < out@.len() && #[trigger] out@[j]@[0] == i,
                forall|j1: int, k1: int, j2: int, k2: int|
                    0 <= j1 < out@.len() && 0 <= k1 < out@[j1]@.len() && 0 <= j2 < out@.len() && 0 <= k2 < out@[j2]@.len()
                    && #[trigger] out@[j1]@[k1] == #[trigger] out@[j2]@[k2] ==> j1 == j2 && k1 == k2,
                forall|x: int| 0 <= x < n ==> (#[trigger] placed@[x] <==> in_some_chain(out@.map_values(|c: Vec<usize>| c@), x as usize)),
            decreases n - root,
        {
            let ghost outs = out@.map_values(|c: Vec<usize>| c@);
            if placed[root] || self.is_chain_step(root) {
                proof {
                    if !self.spec_is_chain_step(root as int) {
                        assert(in_some_chain(outs, root));
                        let (j, k) = choose|j: int, k: int| 0 <= j < outs.len() && 0 <= k < outs[j].len() && #[trigger] outs[j][k] == root;
                        assert(outs[j] == out@[j]@);
                        assert(self.chain_ok(out@[j]@));
                        assert(out@[j]@[0] < root);
                    }
                }
                root = root + 1;
                continue;
            }
            assert(!in_some_chain(outs, root)) by {
                assert(!placed@[root as int]);
            }
            let mut chain: Vec<usize> = Vec::new();
            chain.push(root);
            let ghost p0 = placed@;
            placed.set(root, true);
            proof {
                lemma_unplaced_set(p0, root as int);
                assert(chain@ == seq![root]);
                assert forall|x: int| 0 <= x < n implies (#[trigger] placed@[x] <==> (in_some_chain(outs, x as usize) || chain@.contains(x as usize))) by {
                    if x == root {
                        assert(chain@[0] == root);
                    }
                }
            }
            let mut cur = root;
            let mut done = false;
            while !done
                invariant
                    n == self.nodes@.len(),
                    self.lineage_ok(),
                    self.children_name_parent(),
                    root < n,
                    placed@.len() == n,
                    outs == out@.map_values(|c: Vec<usize>| c@),
                    forall|j: int| 0 <= j < out@.len() ==> self.chain_ok(#[trigger] out@[j]@),
                    forall|j: int| 0 <= j < out@.len() ==> #[trigger] out@[j]@[0] < root,
                    !self.spec_is_chain_step(root as int),
                    chain@.len() >= 1,
                    chain@[0] == root,
                    cur == chain@.last(),
                    forall|k: int| 0 <= k < chain@.len() ==> #[trigger] chain@[k] < n,
                    forall|k: int| 1 <= k < chain@.len() ==> self.spec_is_chain_step(#[trigger] chain@[k] as int)
                        && self.nodes@[chain@[k] as int].builds_in == Some(chain@[k - 1]),
                    chain@.no_duplicates(),
                    forall|k: int| 0 <= k < chain@.len() ==> !in_some_chain(outs, #[trigger] chain@[k]),
                    forall|x: int| 0 <= x < n ==> (#[trigger] placed@[x] <==> (in_some_chain(outs, x as usize) || chain@.contains(x as usize))),
                    done ==> forall|t: int| 0 <= t < self.nodes@[cur as int].builds_in_children@.len() ==>
                        !self.spec_is_chain_step(#[trigger] self.nodes@[cur as int].builds_in_children@[t] as int),
                decreases unplaced(placed@), if done { 0nat } else { 1nat },
            {
                let ch = &self.nodes[cur].builds_in_children;
                let mut found: Option<usize> = None;
                let mut t: usize = 0;
                while found.is_none() && t < ch.len()
                    invariant
                        n == self.nodes@.len(),
                        self.lineage_ok(),
                        cur < n,
                        ch@ == self.nodes@[cur as int].builds_in_children@,
                        t <= ch@.len(),
                        found.is_none() ==> forall|u: int| 0 <= u < t ==> !self.spec_is_chain_step(#[trigger] ch@[u] as int),
                        found matches Some(c) ==> self.spec_is_chain_step(c as int) && ch@.contains(c),
                    decreases ch@.len() - t,
                {
                    proof { assert(ch@[t as int] < n); }
                    if self.is_chain_step(ch[t]) {
                        found = Some(ch[t]);
                    }
                    t = t + 1;
                }
                match found {
                    Some(next) => {
                        let ghost old_chain = chain@;
                        let ghost pb = placed@;
                        proof {
                            let a = choose|a: int| 0 <= a < ch@.len() && ch@[a] == next;
                            assert(self.nodes@[ch@[a] as int].builds_in == Some(cur));
                            assert(next < n);
                            assert(!chain@.contains(next)) by {
                                if chain@.contains(next) {
                                    let k = choose|k: int| 0 <= k < chain@.len() && chain@[k] == next;
                                    if k == 0 {
                                    } else {
                                        assert(self.nodes@[chain@[k] as int].builds_in == Some(chain@[k - 1]));
                                        assert(chain@[k - 1] == chain@[chain@.len() - 1]);
                                    }
                                }
                            }
                            assert(!in_some_chain(outs, next)) by {
                                if in_some_chain(outs, next) {
                                    let (j, k) = choose|j: int, k: int| 0 <= j < outs.len() && 0 <= k < outs[j].len() && #[trigger] outs[j][k] == next;
                                    assert(outs[j] == out@[j]@);
                                    assert(self.chain_ok(out@[j]@));
                                    if k == 0 {
                                    } else {
                                        assert(self.nodes@[out@[j]@[k] as int].builds_in == Some(out@[j]@[k - 1]));
                                        assert(outs[j][k - 1] == cur);
                                        assert(chain@[chain@.len() - 1] == cur);
                                        assert(in_some_chain(outs, chain@[chain@.len() - 1]));
                                    }
                                }
                            }
                            assert(!pb[next as int]);
                            lemma_unplaced_set(pb, next as int);
                        }
                        chain.push(next);
                        placed.set(next, true);
                        cur = next;
                        proof {
                            assert(chain@ == old_chain.push(next));
                            assert forall|k: int| 1 <= k < chain@.len() implies self.spec_is_chain_step(#[trigger] chain@[k] as int)
                                && self.nodes@[chain@[k] as int].builds_in == Some(chain@[k - 1]) by {
                                if k < old_chain.len() {
                                    assert(chain@[k] == old_chain[k] && chain@[k - 1] == old_chain[k - 1]);
                                } else {
                                    let a = choose|a: int| 0 <= a < ch@.len() && ch@[a] == next;
                                    assert(self.nodes@[ch@[a] as int].builds_in == Some(old_chain.last()));
                                }
                            }
                            assert(chain@.no_duplicates()) by {
                                assert forall|a: int, b: int| 0 <= a < chain@.len() && 0 <= b < chain@.len() && a != b implies chain@[a] != chain@[b] by {
                                    if a < old_chain.len() && b < old_chain.len() {
                                        assert(chain@[a] == old_chain[a] && chain@[b] == old_chain[b]);
                                    } else if a < old_chain.len() {
                                        assert(chain@[a] == old_chain[a]);
                                        assert(old_chain.contains(old_chain[a]));
                                    } else {
                                        assert(chain@[b] == old_chain[b]);
                                        assert(old_chain.contains(old_chain[b]));
                                    }
                                }
                            }
                            assert forall|k: int| 0 <= k < chain@.len() implies !in_some_chain(outs, #[trigger] chain@[k]) by {
                                if k < old_chain.len() {
                                    assert(chain@[k] == old_chain[k]);
                                }
                            }
                            assert forall|k: int| 0 <= k < chain@.len() implies #[trigger] chain@[k] < n by {
                                if k < old_chain.len() {
                                    assert(chain@[k] == old_chain[k]);
                                }
                            }
                            assert forall|x: int| 0 <= x < n implies (#[trigger] placed@[x] <==> (in_some_chain(outs, x as usize) || chain@.contains(x as usize))) by {
                                if old_chain.contains(x as usize) {
                                    let k = choose|k: int| 0 <= k < old_chain.len() && old_chain[k] == x as usize;
                                    assert(chain@[k] == x as usize);
                                }
                                if chain@.contains(x as usize) && x != next {
                                    let k = choose|k: int| 0 <= k < chain@.len() && chain@[k] == x as usize;
                                    assert(k < old_chain.len());
                                    assert(old_chain[k] == x as usize);
                                }
                                if x == next {
                                    assert(chain@[old_chain.len() as int] == next);
                                }
                            }
                        }
                    },
                    None => {
                        done = true;
                    },
                }
            }
            let ghost new_chain = chain@;
            let ghost out_before = out@;
            out.push(chain);
            proof {
                let outs2 = out@.map_values(|c: Vec<usize>| c@);
                assert(outs2 =~= outs.push(new_chain));
                assert(out@[out@.len() - 1]@ == new_chain);
                assert(self.chain_ok(new_chain));
                assert forall|j1: int, k1: int, j2: int, k2: int|
                    0 <= j1 < out@.len() && 0 <= k1 < out@[j1]@.len() && 0 <= j2 < out@.len() && 0 <= k2 < out@[j2]@.len()
                    && #[trigger] out@[j1]@[k1] == #[trigger] out@[j2]@[k2] implies j1 == j2 && k1 == k2 by {
                    let last = out@.len() - 1;
                    if j1 == last && j2 == last {
                    } else if j1 == last {
                        assert(outs[j2] == out@[j2]@);
                        assert(!in_some_chain(outs, new_chain[k1]));
                        assert(outs[j2][k2] == new_chain[k1]);
                    } else if j2 == last {
                        assert(outs[j1] == out@[j1]@);
                        assert(!in_some_chain(outs, new_chain[k2]));
                        assert(outs[j1][k1] == new_chain[k2]);
                    }
                }
                assert forall|x: int| 0 <= x < n implies (#[trigger] placed@[x] <==> in_some_chain(outs2, x as usize)) by {
                    if in_some_chain(outs, x as usize) {
                        let (j, k) = choose|j: int, k: int| 0 <= j < outs.len() && 0 <= k < outs[j].len() && #[trigger] outs[j][k] == x as usize;
                        assert(outs2[j][k] == x as usize);
                    }
                    if new_chain.contains(x as usize) {
                        let k = choose|k: int| 0 <= k < new_chain.len() && new_chain[k] == x as usize;
                        assert(outs2[outs.len() as int][k] == x as usize);
                    }
                    if in_some_chain(outs2, x as usize) {
                        let (j, k) = choose|j: int, k: int| 0 <= j < outs2.len() && 0 <= k < outs2[j].len() && #[trigger] outs2[j][k] == x as usize;
                        if j < outs.len() {
                            assert(outs[j][k] == x as usize);
                        } else {
                            assert(new_chain[k] == x as usize);
                        }
                    }
                }
                assert forall|i: int| 0 <= i < root + 1 && !self.spec_is_chain_step(i) implies
                    exists|j: int| 0 <= j < out@.len() && #[trigger] out@[j]@[0] == i by {
                    if i == root {
                        assert(out@[out@.len() - 1]@[0] == i);
                    } else {
                        let j = choose|j: int| 0 <= j < out_before.len() && #[trigger] out_before[j]@[0] == i;
                        assert(out@[j] == out_before[j]);
                    }
                }
            }
            root = root + 1;
        }
        proof {
            let o = out@.map_values(|c: Vec<usize>| c@);
            assert forall|j: int| 0 <= j < o.len() implies self.chain_ok(#[trigger] o[j]) by {
                assert(o[j] == out@[j]@);
            }
            assert forall|a: int, b: int| 0 <= a < b < o.len() implies #[trigger] o[a][0] < #[trigger] o[b][0] by {
                assert(o[a] == out@[a]@ && o[b] == out@[b]@);
            }
            assert forall|i: int| 0 <= i < self.nodes@.len() && !self.spec_is_chain_step(i) implies
                exists|j: int| 0 <= j < o.len() && #[trigger] o[j][0] == i by {
                let j = choose|j: int| 0 <= j < out@.len() && #[trigger] out@[j]@[0] == i;
                assert(o[j] == out@[j]@);
            }
            assert forall|j1: int, k1: int, j2: int, k2: int|
                0 <= j1 < o.len() && 0 <= k1 < o[j1].len() && 0 <= j2 < o.len() && 0 <= k2 < o[j2].len()
                && #[trigger] o[j1][k1] == #[trigger] o[j2][k2] implies j1 == j2 && k1 == k2 by {
                assert(o[j1] == out@[j1]@ && o[j2] == out@[j2]@);
            }
        }
        out
    }
}

} // verus!

verus! {

proof fn lemma_chain_index_step(chains: Seq<Seq<usize>>, ci: int, x: usize)
    requires
        0 <= ci < chains.len(),
    ensures
        chain_index(chains.take(ci + 1), x) == if chains[ci].contains(x) { ci as usize } else { chain_index(chains.take(ci), x) },
{
    assert(chains.take(ci + 1).drop_last() =~= chains.take(ci));
    assert(chains.take(ci + 1).last() == chains[ci]);
}

impl Graph {
    /// For each chain, the ascending list of the other chains it depends
    /// on: chain `ci` depends on chain `y` iff some node of `ci` has a
    /// `depends_on` edge to a node whose (last) containing chain is `y`.
    /// A node in no chain counts as chain `usize::MAX`.
    pub fn chain_deps(&self, chains: &Vec<Vec<usize>>) -> (out: Vec<Vec<usize>>)
        requires
            crate::orchestrator::cycle::edges_in_range(self.adj()),
            forall|j: int, k: int| 0 <= j < chains@.len() && 0 <= k < chains@[j]@.len() ==> #[trigger] chains@[j]@[k] < self.nodes@.len(),
        ensures
            out@.len() == chains@.len(),
            forall|ci: int| 0 <= ci < out@.len() ==> strictly_increasing(#[trigger] out@[ci]@),
            forall|ci: int, y: usize| 0 <= ci < out@.len() ==>
                (#[trigger] out@[ci]@.contains(y) <==> y != ci && chain_uses(*self, chains@.map_values(|c: Vec<usize>| c@), ci, y)),
    {
        let ghost cs = chains@.map_values(|c: Vec<usize>| c@);
        let n = self.nodes.len();
        let mut chain_index_of: Vec<usize> = Vec::new();
        let mut z: usize = 0;
        while z < n
            invariant
                z <= n,
                chain_index_of@.len() == z,
                forall|x: int| 0 <= x < z ==> chain_index_of@[x] == usize::MAX,
            decreases n - z,
        {
            chain_index_of.push(usize::MAX);
            z = z + 1;
        }
        proof {
            assert(cs.take(0) =~= Seq::<Seq<usize>>::empty());
        }
        let mut ci: usize = 0;
        while ci < chains.len()
            invariant
                n == self.nodes@.len(),
                cs == chains@.map_values(|c: Vec<usize>| c@),
                forall|j: int, k: int| 0 <= j < chains@.len() && 0 <= k < chains@[j]@.len() ==> #[trigger] chains@[j]@[k] < n,
                ci <= chains@.len(),
                chain_index_of@.len() == n,
                forall|x: int| 0 <= x < n ==> #[trigger] chain_index_of@[x] == chain_index(cs.take(ci as int), x as usize),
            decreases chains@.len() - ci,
        {
            let ch = &chains[ci];
            let mut k: usize = 0;
            while k < ch.len()
                invariant
                    n == self.nodes@.len(),
                    cs == chains@.map_values(|c: Vec<usize>| c@),
                    ci < chains@.len(),
                    ch@ == cs[ci as int],
                    forall|t: int| 0 <= t < ch@.len() ==> #[trigger] ch@[t] < n,
                    k <= ch@.len(),
                    chain_index_of@.len() == n,
                    forall|x: int| 0 <= x < n ==> #[trigger] chain_index_of@[x] ==
                        if ch@.take(k as int).contains(x as usize) { ci } else { chain_index(cs.take(ci as int), x as usize) },
                decreases ch@.len() - k,
            {
                let ghost before = chain_index_of@;
                chain_index_of.set(ch[k], ci);
                proof {
                    assert(ch@.take(k + 1) =~= ch@.take(k as int).push(ch@[k as int]));
                    assert forall|x: int| 0 <= x < n implies #[trigger] chain_index_of@[x] ==
                        if ch@.take(k + 1).contains(x as usize) { ci } else { chain_index(cs.take(ci as int), x as usize) } by {
                        if x as usize != ch@[k as int] {
                            assert(before[x] == chain_index_of@[x]);
                            let tk1 = ch@.take(k + 1);
                            let tk0 = ch@.take(k as int);
                            if tk1.contains(x as usize) {
                                let t = choose|t: int| 0 <= t < tk1.len() && tk1[t] == x as usize;
                                assert(tk0[t] == x as usize);
                            }
                            if tk0.contains(x as usize) {
                                let t = choose|t: int| 0 <= t < tk0.len() && tk0[t] == x as usize;
                                assert(tk1[t] == x as usize);
                            }
                        } else {
                            assert(ch@.take(k + 1)[k as int] == x as usize);
                        }
                    }
                }
                k = k + 1;
            }
            proof {
                assert(ch@.take(k as int) =~= ch@);
                assert forall|x: int| 0 <= x < n implies #[trigger] chain_index_of@[x] == chain_index(cs.take(ci + 1), x as usize) by {
                    lemma_chain_index_step(cs, ci as int, x as usize);
                }
            }
            ci = ci + 1;
        }
        proof {
            assert(cs.take(ci as int) =~= cs);
        }
        let mut out: Vec<Vec<usize>> = Vec::new();
        let mut ci: usize = 0;
        while ci < chains.len()
            invariant
                n == self.nodes@.len(),
                crate::orchestrator::cycle::edges_in_range(self.adj()),
                cs == chains@.map_values(|c: Vec<usize>| c@),
                forall|j: int, k: int| 0 <= j < chains@.len() && 0 <= k < chains@[j]@.len() ==> #[trigger] chains@[j]@[k] < n,
                ci <= chains@.len(),
                chain_index_of@.len() == n,
                forall|x: int| 0 <= x < n ==> #[trigger] chain_index_of@[x] == chain_index(cs, x as usize),
                out@.len() == ci,
                forall|c: int| 0 <= c < ci ==> strictly_increasing(#[trigger] out@[c]@),
                forall|c: int, y: usize| 0 <= c < ci ==>
                    (#[trigger] out@[c]@.contains(y) <==> y != c && chain_uses(*self, cs, c, y)),
            decreases chains@.len() - ci,
        {
            let ch = &chains[ci];
            let mut seen: BTreeSet<usize> = BTreeSet::new();
            let mut k: usize = 0;
            while k < ch.len()
                invariant
                    n == self.nodes@.len(),
                    crate::orchestrator::cycle::edges_in_range(self.adj()),
                    cs == chains@.map_values(|c: Vec<usize>| c@),
                    ci < chains@.len(),
                    ch@ == cs[ci as int],
                    forall|t: int| 0 <= t < ch@.len() ==> #[trigger] ch@[t] < n,
                    k <= ch@.len(),
                    chain_index_of@.len() == n,
                    forall|x: int| 0 <= x < n ==> #[trigger] chain_index_of@[x] == chain_index(cs, x as usize),
                    forall|y: usize| #[trigger] seen@.contains(y) <==> y != ci && exists|kk: int, t: int|
                        0 <= kk < k && 0 <= t < self.adj()[ch@[kk] as int].len()
                            && chain_index(cs, #[trigger] self.adj()[ch@[kk] as int][t]) == y,
                decreases ch@.len() - k,
            {
                let node = ch[k];
                let deps = &self.nodes[node].depends_on;
                let mut t: usize = 0;
                while t < deps.len()
                    invariant
                        n == self.nodes@.len(),
                        crate::orchestrator::cycle::edges_in_range(self.adj()),
                        cs == chains@.map_values(|c: Vec<usize>| c@),
                        ci < chains@.len(),
                        ch@ == cs[ci as int],
                        k < ch@.len(),
                        node == ch@[k as int],
                        node < n,
                        deps@ == self.adj()[node as int],
                        t <= deps@.len(),
                        chain_index_of@.len() == n,
                        forall|x: int| 0 <= x < n ==> #[trigger] chain_index_of@[x] == chain_index(cs, x as usize),
                        forall|y: usize| #[trigger] seen@.contains(y) <==> y != ci && ((exists|kk: int, tt: int|
                            0 <= kk < k && 0 <= tt < self.adj()[ch@[kk] as int].len()
                                && chain_index(cs, #[trigger] self.adj()[ch@[kk] as int][tt]) == y)
                            || (exists|tt: int| 0 <= tt < t && chain_index(cs, #[trigger] self.adj()[node as int][tt]) == y)),
                    decreases deps@.len() - t,
                {
                    let dep = deps[t];
                    proof {
                        assert(crate::orchestrator::cycle::edges_in_range(self.adj()));
                        assert(self.adj()[node as int][t as int] == dep);
                        assert(dep < n);
                    }
                    let dep_ci = chain_index_of[dep];
                    if dep_ci != ci {
                        crate::orchestrator::dep_set::add(&mut seen, dep_ci);
                    }
                    proof {
                        assert forall|y: usize| #[trigger] seen@.contains(y) <==> y != ci && ((exists|kk: int, tt: int|
                            0 <= kk < k && 0 <= tt < self.adj()[ch@[kk] as int].len()
                                && chain_index(cs, #[trigger] self.adj()[ch@[kk] as int][tt]) == y)
                            || (exists|tt: int| 0 <= tt < t + 1 && chain_index(cs, #[trigger] self.adj()[node as int][tt]) == y)) by {
                            if exists|tt: int| 0 <= tt < t + 1 && chain_index(cs, #[trigger] self.adj()[node as int][tt]) == y {
                                let tt = choose|tt: int| 0 <= tt < t + 1 && chain_index(cs, #[trigger] self.adj()[node as int][tt]) == y;
                                if tt < t {
                                    assert(exists|tt: int| 0 <= tt < t && chain_index(cs, #[trigger] self.adj()[node as int][tt]) == y);
                                }
                            }
                            if y == dep_ci {
                                assert(chain_index(cs, self.adj()[node as int][t as int]) == y);
                            }
                        }
                    }
                    t = t + 1;
                }
                proof {
                    assert forall|y: usize| #[trigger] seen@.contains(y) <==> y != ci && exists|kk: int, tt: int|
                        0 <= kk < k + 1 && 0 <= tt < self.adj()[ch@[kk] as int].len()
                            && chain_index(cs, #[trigger] self.adj()[ch@[kk] as int][tt]) == y by {
                        if exists|kk: int, tt: int| 0 <= kk < k + 1 && 0 <= tt < self.adj()[ch@[kk] as int].len()
                            && chain_index(cs, #[trigger] self.adj()[ch@[kk] as int][tt]) == y {
                            let (kk, tt) = choose|kk: int, tt: int| 0 <= kk < k + 1 && 0 <= tt < self.adj()[ch@[kk] as int].len()
                                && chain_index(cs, #[trigger] self.adj()[ch@[kk] as int][tt]) == y;
                            if kk == k {
                                assert(exists|tt: int| 0 <= tt < t && chain_index(cs, #[trigger] self.adj()[node as int][tt]) == y);
                            }
                        }
                        if exists|tt: int| 0 <= tt < t && chain_index(cs, #[trigger] self.adj()[node as int][tt]) == y {
                            let tt = choose|tt: int| 0 <= tt < t && chain_index(cs, #[trigger] self.adj()[node as int][tt]) == y;
                            assert(ch@[k as int] == node);
                            assert(chain_index(cs, self.adj()[ch@[k as int] as int][tt]) == y);
                        }
                    }
                }
                k = k + 1;
            }
            let ghost before = out@;
            let deps_of_chain = crate::orchestrator::dep_set::ascending(&seen);
            out.push(deps_of_chain);
            proof {
                assert forall|c: int, y: usize| 0 <= c < ci + 1 implies
                    (#[trigger] out@[c]@.contains(y) <==> y != c && chain_uses(*self, cs, c, y)) by {
                    if c < ci {
                        assert(out@[c] == before[c]);
                    } else {
                        assert(cs[c] == ch@);
                    }
                }
                assert forall|c: int| 0 <= c < ci + 1 implies strictly_increasing(#[trigger] out@[c]@) by {
                    if c < ci {
                        assert(out@[c] == before[c]);
                    }
                }
            }
            ci = ci + 1;
        }
        out
    }
}

} // verus!

verus! {

/// The text of a graph error.
pub open spec fn graph_error_text(e: GraphError) -> Seq<char> {
    match e {
        GraphError::UnknownBuildsIn { step, parent } =>
            "step '"@ + step@ + "' builds_in references unknown step '"@ + parent@ + "'"@,
        GraphError::UnknownWaitDep { step, dep } =>
            "step '"@ + step@ + "' has wait-barrier dep on unknown step '"@ + dep@ + "'"@,
        GraphError::Cycle { target, via } => match via {
            Some(v) => "cycle: '"@ + target@ + "' is reachable from itself via '"@ + v@ + "'"@,
            None => "cycle through step '"@ + target@ + "'"@,
        },
    }
}

impl GraphError {
    /// The error's message, as printed to the user.
    pub fn message(&self) -> (s: String)
        ensures
            s@ == graph_error_text(*self),
    {
        match self {
            GraphError::UnknownBuildsIn { step, parent } => {
                let mut s = String::from_str("step '");
                s.append(step.as_str());
                s.append("' builds_in references unknown step '");
                s.append(parent.as_str());
                s.append("'");
                s
            },
            GraphError::UnknownWaitDep { step, dep } => {
                let mut s = String::from_str("step '");
                s.append(step.as_str());
                s.append("' has wait-barrier dep on unknown step '");
                s.append(dep.as_str());
                s.append("'");
                s
            },
            GraphError::Cycle { target, via } => match via {
                Some(v) => {
                    let mut s = String::from_str("cycle: '");
                    s.append(target.as_str());
                    s.append("' is reachable from itself via '");
                    s.append(v.as_str());
                    s.append("'");
                    s
                },
                None => {
                    let mut s = String::from_str("cycle through step '");
                    s.append(target.as_str());
                    s.append("'");
                    s
                },
            },
        }
    }
}

impl Graph {
    /// What `chains` returns: lineage chains in ascending root order, one
    /// for every step that is not a chain step, no step twice.
    pub open spec fn chains_spec(&self, out: Seq<Seq<usize>>) -> bool {
        &&& forall|j: int| 0 <= j < out.len() ==> self.chain_ok(#[trigger] out[j])
        &&& forall|a: int, b: int| 0 <= a < b < out.len() ==> #[trigger] out[a][0] < #[trigger] out[b][0]
        &&& forall|i: int| 0 <= i < self.nodes@.len() && !self.spec_is_chain_step(i) ==>
                exists|j: int| 0 <= j < out.len() && #[trigger] out[j][0] == i
        &&& forall|j1: int, k1: int, j2: int, k2: int|
                0 <= j1 < out.len() && 0 <= k1 < out[j1].len() && 0 <= j2 < out.len() && 0 <= k2 < out[j2].len()
                && #[trigger] out[j1][k1] == #[trigger] out[j2][k2] ==> j1 == j2 && k1 == k2
    }
}

/// The `i`-th `builds_in` ancestor of `x` (stopping at a root).
spec fn ancestor(g: Graph, x: usize, i: nat) -> usize
    decreases i,
{
    if i == 0 {
        x
    } else {
        let a = ancestor(g, x, (i - 1) as nat);
        match g.nodes@[a as int].builds_in {
            Some(q) => q,
            None => a,
        }
    }
}

/// A chain step whose parent sits in a chain sits right after it.
proof fn lemma_child_follows(g: Graph, out: Seq<Seq<usize>>, x: usize, j: int, k: int)
    requires
        g.wf(),
        g.chains_spec(out),
        x < g.nodes@.len(),
        g.spec_is_chain_step(x as int),
        0 <= j < out.len(),
        0 <= k < out[j].len(),
        g.nodes@[x as int].builds_in == Some(out[j][k]),
    ensures
        k + 1 < out[j].len(),
        out[j][k + 1] == x,
{
    let n = g.nodes@.len();
    let q = out[j][k];
    let ch = out[j];
    assert(g.chain_ok(ch));
    assert(q < n);
    let kids = g.nodes@[q as int].builds_in_children@;
    assert(kids.len() == 1);
    assert(g.nodes@[x as int].builds_in == Some((q as int) as usize));
    assert(kids.contains((x as int) as usize));
    let a = choose|a: int| 0 <= a < kids.len() && kids[a] == x;
    assert(a == 0);
    if k + 1 == ch.len() {
        assert(ch.last() == q);
        assert(g.nodes@[ch.last() as int].builds_in_children@[0] == x);
        assert(!g.spec_is_chain_step(g.nodes@[ch.last() as int].builds_in_children@[0] as int));
    } else {
        let y = ch[k + 1];
        assert(g.spec_is_chain_step(y as int) && g.nodes@[y as int].builds_in == Some(ch[k]));
        assert(y < n);
        assert(g.nodes@[y as int].builds_in == Some((q as int) as usize));
        assert(g.nodes@[q as int].builds_in_children@.contains((y as int) as usize));
        let b = choose|b: int| 0 <= b < kids.len() && kids[b] == y;
        assert(b == 0);
    }
}

/// An uncovered step has only uncovered ancestors, each joined to the
/// next by a synchronisation edge.
proof fn lemma_uncovered_ancestors(g: Graph, out: Seq<Seq<usize>>, x: usize, i: nat)
    requires
        g.wf(),
        g.chains_spec(out),
        x < g.nodes@.len(),
        !in_some_chain(out, x),
    ensures
        ancestor(g, x, i) < g.nodes@.len(),
        !in_some_chain(out, ancestor(g, x, i)),
        ancestor(g, x, i + 1) < g.nodes@.len(),
        !in_some_chain(out, ancestor(g, x, i + 1)),
        crate::orchestrator::cycle::edge(g.adj(), ancestor(g, x, i) as int, ancestor(g, x, i + 1) as int),
    decreases i,
{
    let n = g.nodes@.len();
    if i > 0 {
        lemma_uncovered_ancestors(g, out, x, (i - 1) as nat);
        assert((i - 1) as nat + 1 == i);
    }
    let a = ancestor(g, x, i);
    assert(a < n && !in_some_chain(out, a));
    // a is uncovered, so it is a chain step (every other step roots a chain)
    if !g.spec_is_chain_step(a as int) {
        let j = choose|j: int| 0 <= j < out.len() && #[trigger] out[j][0] == a as int;
        assert(g.chain_ok(out[j]));
        assert(out[j][0] == a);
    }
    assert(g.spec_is_chain_step(a as int));
    let q = g.nodes@[a as int].builds_in->0;
    assert(match g.nodes@[a as int].builds_in { Some(p) => p < n && g.nodes@[a as int].depends_on@.contains(p), None => true });
    assert(ancestor(g, x, i + 1) == q);
    if in_some_chain(out, q) {
        let (j, k) = choose|j: int, k: int| 0 <= j < out.len() && 0 <= k < out[j].len() && #[trigger] out[j][k] == q;
        lemma_child_follows(g, out, a, j, k);
        assert(out[j][k + 1] == a);
    }
    let t = choose|t: int| 0 <= t < g.nodes@[a as int].depends_on@.len() && g.nodes@[a as int].depends_on@[t] == q;
    assert(g.adj()[a as int] == g.nodes@[a as int].depends_on@);
    assert(g.adj()[a as int][t] as int == q as int);
}

/// More than `n` values below `n` repeat one.
proof fn lemma_pigeonhole(s: Seq<int>, n: int)
    requires
        0 <= n < s.len(),
        forall|k: int| 0 <= k < s.len() ==> 0 <= #[trigger] s[k] < n,
    ensures
        exists|a: int, b: int| 0 <= a < b < s.len() && s[a] == s[b],
{
    if !(exists|a: int, b: int| 0 <= a < b < s.len() && s[a] == s[b]) {
        assert(s.no_duplicates()) by {
            assert forall|a: int, b: int| 0 <= a < s.len() && 0 <= b < s.len() && a != b implies s[a] != s[b] by {
                if a < b {
                } else {
                    assert(!(s[b] == s[a]));
                }
            }
        }
        s.unique_seq_to_set();
        vstd::set_lib::lemma_int_range(0, n);
        assert(s.to_set().subset_of(vstd::set_lib::set_int_range(0, n))) by {
            assert forall|y: int| s.to_set().contains(y) implies vstd::set_lib::set_int_range(0, n).contains(y) by {
                assert(s.contains(y));
                let k = choose|k: int| 0 <= k < s.len() && s[k] == y;
            }
        }
        vstd::set_lib::lemma_len_subset(s.to_set(), vstd::set_lib::set_int_range(0, n));
    }
}

/// Every step of an acyclic graph built from a pipeline lies in exactly
/// one of the chains that `chains` returns.
pub proof fn lemma_chains_partition(g: Graph, out: Seq<Seq<usize>>)
    requires
        g.wf(),
        !crate::orchestrator::cycle::has_cycle(g.adj()),
        g.chains_spec(out),
    ensures
        forall|x: usize| x < g.nodes@.len() ==> #[trigger] in_some_chain(out, x),
{
    let n = g.nodes@.len();
    assert forall|x: usize| x < n implies #[trigger] in_some_chain(out, x) by {
        if !in_some_chain(out, x) {
            let w = Seq::new((n + 1) as nat, |i: int| ancestor(g, x, i as nat) as int);
            assert forall|k: int| 0 <= k < w.len() implies 0 <= #[trigger] w[k] < n by {
                lemma_uncovered_ancestors(g, out, x, k as nat);
            }
            lemma_pigeonhole(w, n as int);
            let (a, b) = choose|a: int, b: int| 0 <= a < b < w.len() && w[a] == w[b];
            let c = w.subrange(a, b + 1);
            assert forall|k: int| 0 <= k < c.len() - 1 implies #[trigger] crate::orchestrator::cycle::edge(g.adj(), c[k], c[k + 1]) by {
                lemma_uncovered_ancestors(g, out, x, (a + k) as nat);
                assert(c[k] == w[a + k] && c[k + 1] == w[a + k + 1]);
                assert((a + k) as nat + 1 == (a + k + 1) as nat);
            }
            assert(crate::orchestrator::cycle::is_path(g.adj(), c) && c.len() >= 2 && c[0] == c.last());
        }
    }
}

} // verus!

verus! {

/// A chain step synchronises on nothing but its `builds_in` parent, and it
/// is that parent's only `builds_in` child: a step with any other
/// synchronisation edge, or with a sibling, is never a chain step.
pub proof fn lemma_chain_step_edges(g: Graph, i: int)
    requires
        g.wf(),
        0 <= i < g.nodes@.len(),
        g.spec_is_chain_step(i),
    ensures
        g.nodes@[i].builds_in matches Some(q) && g.nodes@[i].depends_on@ == seq![q]
            && g.nodes@[q as int].builds_in_children@ == seq![i as usize],
{
    let q = g.nodes@[i].builds_in->0;
    assert(q < g.nodes@.len());
    assert(g.nodes@[i].depends_on@.contains(q));
    assert(g.nodes@[i].depends_on@ =~= seq![q]);
    assert(g.nodes@[q as int].builds_in_children@.contains(i as usize));
    assert(g.nodes@[q as int].builds_in_children@ =~= seq![i as usize]);
}


/// Number of command steps in `steps`.
pub open spec fn command_count(steps: Seq<Step>) -> nat
    decreases steps.len(),
{
    if steps.len() == 0 {
        0
    } else {
        command_count(steps.drop_last()) + if steps.last() is Command { 1nat } else { 0nat }
    }
}

/// The graph node of the step at position `p` of the raw step list: the
/// number of command steps before it.
pub open spec fn node_of(steps: Seq<Step>, p: int) -> int {
    command_count(steps.take(p)) as int
}

/// The key of a command step.
pub open spec fn step_key(s: Step) -> Seq<char> {
    match s {
        Step::Command(c) => c.key@,
        Step::Wait(_) => Seq::empty(),
    }
}

/// No two command steps share a key.
pub open spec fn command_keys_distinct(steps: Seq<Step>) -> bool {
    forall|a: int, b: int|
        0 <= a < b < steps.len() && #[trigger] steps[a] is Command && #[trigger] steps[b] is Command
            ==> step_key(steps[a]) != step_key(steps[b])
}

proof fn lemma_flat_len(s: Seq<Step>)
    ensures
        flat_spec(s).len() == command_count(s),
    decreases s.len(),
{
    if s.len() > 0 {
        lemma_flat_len(s.drop_last());
    }
}

/// The flattened entry of the command step at position `p`.
proof fn lemma_flat_at(s: Seq<Step>, p: int)
    requires
        0 <= p < s.len(),
        s[p] is Command,
    ensures
        node_of(s, p) < flat_spec(s).len(),
        flat_spec(s)[node_of(s, p)].0.key == step_key(s[p]),
        flat_spec(s)[node_of(s, p)].1 == wait_targets(s.take(p)),
    decreases s.len(),
{
    let prev = s.drop_last();
    lemma_flat_len(prev);
    if p == s.len() - 1 {
        assert(s.take(p) =~= prev);
    } else {
        assert(prev.take(p) =~= s.take(p));
        assert(prev[p] == s[p]);
        lemma_flat_at(prev, p);
    }
}

/// Every flattened entry comes from a command step.
proof fn lemma_flat_pos(s: Seq<Step>, m: int)
    requires
        0 <= m < flat_spec(s).len(),
    ensures
        exists|p: int| 0 <= p < s.len() && #[trigger] s[p] is Command && node_of(s, p) == m,
    decreases s.len(),
{
    let prev = s.drop_last();
    lemma_flat_len(prev);
    if s.last() is Command && m == flat_spec(prev).len() {
        let p = s.len() - 1;
        assert(s.take(p) =~= prev);
        assert(s[p] is Command && node_of(s, p) == m);
    } else {
        lemma_flat_pos(prev, m);
        let p = choose|p: int| 0 <= p < prev.len() && #[trigger] prev[p] is Command && node_of(prev, p) == m;
        assert(prev.take(p) =~= s.take(p));
        assert(s[p] == prev[p]);
        assert(s[p] is Command && node_of(s, p) == m);
    }
}

/// With distinct command keys, the flattened keys are distinct.
proof fn lemma_flat_keys_distinct(s: Seq<Step>, a: int, b: int)
    requires
        command_keys_distinct(s),
        0 <= a < flat_spec(s).len(),
        0 <= b < flat_spec(s).len(),
        a != b,
    ensures
        keys_of(flat_spec(s))[a] != keys_of(flat_spec(s))[b],
{
    lemma_flat_pos(s, a);
    lemma_flat_pos(s, b);
    let pa = choose|p: int| 0 <= p < s.len() && #[trigger] s[p] is Command && node_of(s, p) == a;
    let pb = choose|p: int| 0 <= p < s.len() && #[trigger] s[p] is Command && node_of(s, p) == b;
    lemma_flat_at(s, pa);
    lemma_flat_at(s, pb);
    assert(pa != pb);
    if pa < pb {
        assert(step_key(s[pa]) != step_key(s[pb]));
    } else {
        assert(step_key(s[pb]) != step_key(s[pa]));
    }
}

/// A key held at exactly one position is last held there.
proof fn lemma_last_index_unique(keys: Seq<Seq<char>>, j: int, k: Seq<char>)
    requires
        0 <= j < keys.len(),
        keys[j] == k,
        forall|m: int| 0 <= m < keys.len() && m != j ==> #[trigger] keys[m] != k,
    ensures
        last_index(keys, k) == j,
    decreases keys.len(),
{
    if j < keys.len() - 1 {
        let d = keys.drop_last();
        assert forall|m: int| 0 <= m < d.len() && m != j implies #[trigger] d[m] != k by {
            assert(d[m] == keys[m]);
        }
        assert(keys.last() == keys[keys.len() - 1]);
        lemma_last_index_unique(d, j, k);
    }
}

/// Past a wait barrier, the barrier's targets hold every command step
/// before it.
proof fn lemma_targets_hold(s: Seq<Step>, p: int, w: int, q: int)
    requires
        0 <= q < w < p <= s.len(),
        s[w] is Wait,
        s[q] is Command,
    ensures
        wait_targets(s.take(p)).contains(step_key(s[q])),
    decreases p,
{
    let t = s.take(p);
    assert(t.drop_last() =~= s.take(p - 1));
    assert(t.last() == s[p - 1]);
    if s[p - 1] is Wait {
        let u = s.take(p - 1);
        assert(u.take(q) =~= s.take(q));
        assert(u[q] == s[q]);
        lemma_flat_at(u, q);
        let f = flat_spec(u);
        let ix = node_of(u, q);
        assert(keys_of(f)[ix] == f[ix].0.key);
    } else {
        lemma_targets_hold(s, p - 1, w, q);
    }
}

/// A command step after a wait barrier synchronises on every command
/// step before that barrier, when command keys are distinct.
pub proof fn lemma_wait_barrier_edge(steps: Seq<Step>, p: int, w: int, q: int)
    requires
        0 <= q < w < p < steps.len(),
        steps[w] is Wait,
        steps[p] is Command,
        steps[q] is Command,
        command_keys_distinct(steps),
    ensures
        spec_adj(flat_spec(steps))[node_of(steps, p)].contains(node_of(steps, q) as usize),
{
    let f = flat_spec(steps);
    let keys = keys_of(f);
    let i = node_of(steps, p);
    let jq = node_of(steps, q);
    let kq = step_key(steps[q]);
    lemma_flat_at(steps, p);
    lemma_flat_at(steps, q);
    lemma_targets_hold(steps, p, w, q);
    assert(keys[jq] == kq);
    assert forall|m: int| 0 <= m < keys.len() && m != jq implies #[trigger] keys[m] != kq by {
        lemma_flat_keys_distinct(steps, m, jq);
    }
    lemma_last_index_unique(keys, jq, kq);
    let x = f[i];
    let dk = dep_keys(x);
    let t = choose|t: int| 0 <= t < x.1.len() && x.1[t] == kq;
    let at: int = if x.0.builds_in is Some { t + 1 } else { t };
    assert(dk[at] == kq);
    let mapped = dk.map_values(|k: Seq<char>| last_index(keys, k) as usize);
    assert(mapped[at] == jq as usize);
    lemma_dedup(mapped);
    assert(mapped.contains(jq as usize));
}

} // verus!
