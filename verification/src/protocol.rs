//! The wire types of a rendered pipeline: command steps, wait barriers,
//! environments, and the plugin manifests that plugins declare.
use vstd::prelude::*;
use crate::text::{seq_lt, str_lt, lemma_seq_lt_order};

verus! {

/// Keys in strictly ascending order.
pub open spec fn keys_sorted(ps: Seq<(Seq<char>, Seq<char>)>) -> bool {
    forall|i: int, j: int| 0 <= i < j < ps.len() ==> seq_lt(#[trigger] ps[i].0, #[trigger] ps[j].0)
}

/// The map that a sequence of key/value pairs denotes, later pairs
/// overriding earlier ones.
pub open spec fn pairs_map(ps: Seq<(Seq<char>, Seq<char>)>) -> Map<Seq<char>, Seq<char>>
    decreases ps.len(),
{
    if ps.len() == 0 {
        Map::empty()
    } else {
        pairs_map(ps.drop_last()).insert(ps.last().0, ps.last().1)
    }
}

proof fn lemma_sorted_distinct(ps: Seq<(Seq<char>, Seq<char>)>)
    requires
        keys_sorted(ps),
    ensures
        forall|i: int, j: int| 0 <= i < ps.len() && 0 <= j < ps.len() && i != j ==> ps[i].0 != ps[j].0,
{
    assert forall|i: int, j: int| 0 <= i < ps.len() && 0 <= j < ps.len() && i != j implies ps[i].0 != ps[j].0 by {
        lemma_seq_lt_order(ps[i].0, ps[j].0, ps[i].0);
        lemma_seq_lt_order(ps[j].0, ps[i].0, ps[j].0);
    }
}

/// With distinct keys, the map holds exactly the pairs.
proof fn lemma_pairs_map(ps: Seq<(Seq<char>, Seq<char>)>)
    requires
        forall|i: int, j: int| 0 <= i < ps.len() && 0 <= j < ps.len() && i != j ==> ps[i].0 != ps[j].0,
    ensures
        forall|k: Seq<char>| #[trigger] pairs_map(ps).contains_key(k) ==> exists|i: int| 0 <= i < ps.len() && ps[i].0 == k,
        forall|i: int| 0 <= i < ps.len() ==> pairs_map(ps).contains_key(#[trigger] ps[i].0) && pairs_map(ps)[ps[i].0] == ps[i].1,
    decreases ps.len(),
{
    if ps.len() > 0 {
        let q = ps.drop_last();
        lemma_pairs_map(q);
        assert forall|k: Seq<char>| #[trigger] pairs_map(ps).contains_key(k) implies exists|i: int| 0 <= i < ps.len() && ps[i].0 == k by {
            if k != ps.last().0 {
                assert(pairs_map(q).contains_key(k));
                let i = choose|i: int| 0 <= i < q.len() && q[i].0 == k;
                assert(ps[i] == q[i]);
            } else {
                assert(ps[ps.len() - 1].0 == k);
            }
        }
        assert forall|i: int| 0 <= i < ps.len() implies pairs_map(ps).contains_key(#[trigger] ps[i].0) && pairs_map(ps)[ps[i].0] == ps[i].1 by {
            if i < q.len() {
                assert(q[i] == ps[i]);
                assert(ps[i].0 != ps[ps.len() - 1].0);
                assert(pairs_map(q).contains_key(q[i].0));
            }
        }
    }
}

/// Inserting `key` just before the first name that does not sort
/// before it keeps the names sorted, and `key` is new there.
proof fn lemma_insert_position(ps: Seq<(Seq<char>, Seq<char>)>, j: int, key: Seq<char>)
    requires
        keys_sorted(ps),
        0 <= j <= ps.len(),
        forall|m: int| 0 <= m < j ==> seq_lt(#[trigger] ps[m].0, key),
        j < ps.len() ==> !seq_lt(ps[j].0, key) && ps[j].0 != key,
    ensures
        forall|m: int| j <= m < ps.len() ==> seq_lt(key, #[trigger] ps[m].0),
        forall|m: int| 0 <= m < ps.len() ==> #[trigger] ps[m].0 != key,
{
    assert forall|m: int| j <= m < ps.len() implies seq_lt(key, #[trigger] ps[m].0) by {
        lemma_seq_lt_order(ps[j].0, key, ps[j].0);
        lemma_seq_lt_order(key, ps[j].0, ps[m].0);
    }
    assert forall|m: int| 0 <= m < ps.len() implies #[trigger] ps[m].0 != key by {
        lemma_seq_lt_order(key, key, key);
    }
}

/// An environment: variable names mapped to values, kept in ascending
/// name order like an ordered map.
#[derive(Debug)]
pub struct Env {
    entries: Vec<(String, String)>,
}

impl Env {
    #[verifier::type_invariant]
    spec fn sorted(self) -> bool {
        keys_sorted(self.entries.deep_view())
    }

    /// The name/value pairs in the order they are stored.
    pub closed spec fn pairs(self) -> Seq<(Seq<char>, Seq<char>)> {
        self.entries.deep_view()
    }
}

impl View for Env {
    type V = Map<Seq<char>, Seq<char>>;

    closed spec fn view(&self) -> Map<Seq<char>, Seq<char>> {
        pairs_map(self.entries.deep_view())
    }
}

impl Env {
    /// The empty environment.
    pub fn new() -> (e: Env)
        ensures
            e@ == Map::<Seq<char>, Seq<char>>::empty(),
            e.pairs().len() == 0,
    {
        let e = Env { entries: Vec::new() };
        assert(e.entries.deep_view() =~= Seq::empty());
        e
    }

    /// Position of the first entry whose name does not sort before `key`.
    fn position(&self, key: &str) -> (j: usize)
        ensures
            j <= self.pairs().len(),
            forall|m: int| 0 <= m < j ==> seq_lt(#[trigger] self.pairs()[m].0, key@),
            j < self.pairs().len() ==> !seq_lt(self.pairs()[j as int].0, key@),
    {
        let mut j: usize = 0;
        while j < self.entries.len()
            invariant
                j <= self.entries.len(),
                forall|m: int| 0 <= m < j ==> seq_lt(#[trigger] self.pairs()[m].0, key@),
            decreases self.entries.len() - j,
        {
            if !str_lt(self.entries[j].0.as_str(), key) {
                return j;
            }
            j = j + 1;
        }
        j
    }

    /// A copy of the stored pairs.
    fn copy_entries(&self) -> (r: Vec<(String, String)>)
        ensures
            r.deep_view() == self.pairs(),
    {
        let mut r: Vec<(String, String)> = Vec::new();
        let mut i: usize = 0;
        while i < self.entries.len()
            invariant
                i <= self.entries.len(),
                r@ == self.entries@.take(i as int),
            decreases self.entries.len() - i,
        {
            let k = self.entries[i].0.clone();
            let v = self.entries[i].1.clone();
            r.push((k, v));
            i = i + 1;
            assert(r@ =~= self.entries@.take(i as int));
        }
        assert(r@ =~= self.entries@);
        r
    }

    /// Set `key` to `value`, replacing any previous value.
    pub fn insert(&mut self, key: String, value: String)
        ensures
            final(self)@ == old(self)@.insert(key@, value@),
    {
        proof { use_type_invariant(&*self); }
        let ghost ps = self.pairs();
        let j = self.position(key.as_str());
        let mut es = self.copy_entries();
        proof { lemma_sorted_distinct(ps); lemma_pairs_map(ps); }
        if j < es.len() && es[j].0 == key {
            let ghost qs = ps.update(j as int, (key@, value@));
            assert(keys_sorted(qs)) by {
                assert forall|a: int, b: int| 0 <= a < b < qs.len() implies seq_lt(#[trigger] qs[a].0, #[trigger] qs[b].0) by {
                    assert(ps[a].0 == qs[a].0 && ps[b].0 == qs[b].0);
                }
            }
            es.set(j, (key, value));
            assert(es.deep_view() =~= qs);
            *self = Env { entries: es };
            proof {
                lemma_sorted_distinct(qs);
                lemma_pairs_map(qs);
                let m = pairs_map(ps).insert(key@, value@);
                assert forall|k: Seq<char>| pairs_map(qs).contains_key(k) <==> m.contains_key(k) by {
                    if pairs_map(ps).contains_key(k) {
                        let i = choose|i: int| 0 <= i < ps.len() && ps[i].0 == k;
                        assert(qs[i].0 == k);
                    }
                    if pairs_map(qs).contains_key(k) {
                        let i = choose|i: int| 0 <= i < qs.len() && qs[i].0 == k;
                        assert(ps[i].0 == k);
                    }
                }
                assert forall|k: Seq<char>| #[trigger] pairs_map(qs).contains_key(k) implies pairs_map(qs)[k] == m[k] by {
                    let i = choose|i: int| 0 <= i < qs.len() && qs[i].0 == k;
                    if i != j {
                        assert(ps[i] == qs[i]);
                    }
                }
                assert(pairs_map(qs) =~= m);
            }
        } else {
            proof { lemma_insert_position(ps, j as int, key@); }
            let ghost qs = ps.insert(j as int, (key@, value@));
            proof {
                assert forall|a: int, b: int| 0 <= a < b < qs.len() implies seq_lt(#[trigger] qs[a].0, #[trigger] qs[b].0) by {
                    if b < j {
                        assert(qs[a] == ps[a] && qs[b] == ps[b]);
                    } else if b == j {
                        assert(qs[a] == ps[a]);
                    } else if a == j {
                        assert(qs[b] == ps[b - 1]);
                    } else if a < j {
                        assert(qs[a] == ps[a] && qs[b] == ps[b - 1]);
                        lemma_seq_lt_order(ps[a].0, key@, ps[b - 1].0);
                    } else {
                        assert(qs[a] == ps[a - 1] && qs[b] == ps[b - 1]);
                    }
                }
            }
            es.insert(j, (key, value));
            assert(es.deep_view() =~= qs);
            *self = Env { entries: es };
            proof {
                lemma_sorted_distinct(qs);
                lemma_pairs_map(qs);
                let m = pairs_map(ps).insert(key@, value@);
                assert forall|k: Seq<char>| pairs_map(qs).contains_key(k) <==> m.contains_key(k) by {
                    if pairs_map(ps).contains_key(k) {
                        let i = choose|i: int| 0 <= i < ps.len() && ps[i].0 == k;
                        if i < j { assert(qs[i] == ps[i]); } else { assert(qs[i + 1] == ps[i]); }
                    }
                    if k == key@ {
                        assert(qs[j as int].0 == k);
                    }
                    if pairs_map(qs).contains_key(k) {
                        let i = choose|i: int| 0 <= i < qs.len() && qs[i].0 == k;
                        if i < j { assert(qs[i] == ps[i]); } else if i > j { assert(qs[i] == ps[i - 1]); }
                    }
                }
                assert forall|k: Seq<char>| #[trigger] pairs_map(qs).contains_key(k) implies pairs_map(qs)[k] == m[k] by {
                    let i = choose|i: int| 0 <= i < qs.len() && qs[i].0 == k;
                    if i < j {
                        assert(qs[i] == ps[i]);
                    } else if i > j {
                        assert(qs[i] == ps[i - 1]);
                    }
                }
                assert(pairs_map(qs) =~= m);
            }
        }
    }

    /// The pairs in ascending name order.
    pub fn entries(&self) -> (r: Vec<(String, String)>)
        ensures
            r.deep_view() == self.pairs(),
            keys_sorted(r.deep_view()),
            pairs_map(r.deep_view()) == self@,
    {
        proof { use_type_invariant(self); }
        self.copy_entries()
    }

    /// The value of `key`, if set.
    pub fn get(&self, key: &str) -> (r: Option<&String>)
        ensures
            r.is_some() == self@.contains_key(key@),
            r.is_some() ==> r.unwrap()@ == self@[key@],
    {
        proof { use_type_invariant(self); lemma_sorted_distinct(self.pairs()); lemma_pairs_map(self.pairs()); }
        let j = self.position(key);
        if j < self.entries.len() && str_eq(self.entries[j].0.as_str(), key) {
            Some(&self.entries[j].1)
        } else {
            proof {
                if j < self.pairs().len() && self.pairs()[j as int].0 == key@ {
                    assert(false);
                }
                lemma_insert_position(self.pairs(), j as int, key@);
            }
            None
        }
    }

    /// Set every pair of `other`, in order, over this environment.
    pub fn extend(&mut self, other: &Env)
        ensures
            final(self)@ == old(self)@.union_prefer_right(other@),
    {
        let ghost start = self@;
        let os = other.entries();
        let mut i: usize = 0;
        while i < os.len()
            invariant
                i <= os.len(),
                os.deep_view() == other.pairs(),
                pairs_map(os.deep_view()) == other@,
                self@ == start.union_prefer_right(pairs_map(os.deep_view().take(i as int))),
            decreases os.len() - i,
        {
            let k = os[i].0.clone();
            let v = os[i].1.clone();
            self.insert(k, v);
            let ghost before = os.deep_view().take(i as int);
            i = i + 1;
            proof {
                let now = os.deep_view().take(i as int);
                assert(now.drop_last() =~= before);
                assert(now.last() == (k@, v@));
                assert(self@ =~= start.union_prefer_right(pairs_map(now)));
            }
        }
        assert(os.deep_view().take(i as int) =~= os.deep_view());
    }
} // impl Env

/// Whether two strings are equal.
pub fn str_eq(a: &str, b: &str) -> (r: bool)
    ensures
        r == (a@ == b@),
{
    let la = a.unicode_len();
    let lb = b.unicode_len();
    if la != lb {
        return false;
    }
    let mut i: usize = 0;
    while i < la
        invariant
            la == a@.len(),
            lb == b@.len(),
            la == lb,
            i <= la,
            a@.subrange(0, i as int) == b@.subrange(0, i as int),
        decreases la - i,
    {
        if a.get_char(i) != b.get_char(i) {
            return false;
        }
        assert(a@.subrange(0, i + 1) =~= a@.subrange(0, i as int).push(a@[i as int]));
        assert(b@.subrange(0, i + 1) =~= b@.subrange(0, i as int).push(b@[i as int]));
        i = i + 1;
    }
    assert(a@ =~= a@.subrange(0, la as int));
    assert(b@ =~= b@.subrange(0, lb as int));
    true
}

impl Clone for Env {
    fn clone(&self) -> (r: Self)
        ensures
            r@ == self@,
            r.pairs() == self.pairs(),
    {
        proof { use_type_invariant(self); }
        Env { entries: self.copy_entries() }
    }
}

} // verus!

verus! {

/// Abstract value of a command step.
pub struct CommandStepView {
    pub key: Seq<char>,
    pub cmd: Seq<char>,
    pub label: Option<Seq<char>>,
    pub builds_in: Option<Seq<char>>,
    pub image: Option<Seq<char>>,
    pub cwd: Option<Seq<char>>,
    pub runner: Option<Seq<char>>,
    pub runner_args: Option<Seq<char>>,
    pub env: Option<Map<Seq<char>, Seq<char>>>,
}

/// One shell command of a pipeline.
#[derive(Debug)]
pub struct CommandStep {
    /// Unique key of the step within the pipeline.
    pub key: String,
    /// Shell command to run.
    pub cmd: String,
    /// Human-readable label.
    pub label: Option<String>,
    /// Key of the step whose container state this step builds in.
    pub builds_in: Option<String>,
    /// Container image for a root step.
    pub image: Option<String>,
    /// Working directory inside the container.
    pub cwd: Option<String>,
    /// Step-executor runner requested for this step.
    pub runner: Option<String>,
    /// Arguments for the runner, as the JSON text the pipeline gave them;
    /// carried to the executor unread.
    pub runner_args: Option<String>,
    /// Step-specific environment, merged over the pipeline's.
    pub env: Option<Env>,
}

/// The view of an optional environment.
pub open spec fn env_view(e: Option<Env>) -> Option<Map<Seq<char>, Seq<char>>> {
    match e {
        Some(m) => Some(m@),
        None => None,
    }
}

impl View for CommandStep {
    type V = CommandStepView;

    open spec fn view(&self) -> CommandStepView {
        CommandStepView {
            key: self.key@,
            cmd: self.cmd@,
            label: self.label.deep_view(),
            builds_in: self.builds_in.deep_view(),
            image: self.image.deep_view(),
            cwd: self.cwd.deep_view(),
            runner: self.runner.deep_view(),
            runner_args: self.runner_args.deep_view(),
            env: env_view(self.env),
        }
    }
}

/// A copy of an optional string.
pub fn clone_opt_string(s: &Option<String>) -> (r: Option<String>)
    ensures
        r.deep_view() == s.deep_view(),
{
    match s {
        Some(x) => Some(x.clone()),
        None => None,
    }
}

impl Clone for CommandStep {
    fn clone(&self) -> (r: Self)
        ensures
            r@ == self@,
    {
        let env = match &self.env {
            Some(e) => Some(e.clone()),
            None => None,
        };
        CommandStep {
            key: self.key.clone(),
            cmd: self.cmd.clone(),
            label: clone_opt_string(&self.label),
            builds_in: clone_opt_string(&self.builds_in),
            image: clone_opt_string(&self.image),
            cwd: clone_opt_string(&self.cwd),
            runner: clone_opt_string(&self.runner),
            runner_args: clone_opt_string(&self.runner_args),
            env,
        }
    }
}

/// A synchronisation barrier between the steps before and after it.
#[derive(Debug)]
pub struct WaitStep {}

/// One entry of a pipeline's step list.
#[derive(Debug)]
pub enum Step {
    /// A shell command.
    Command(Box<CommandStep>),
    /// A wait barrier.
    Wait(WaitStep),
}

/// A rendered pipeline.
#[derive(Debug)]
pub struct Pipeline {
    /// Schema version of the rendered pipeline.
    pub version: String,
    /// The steps, in declaration order.
    pub steps: Vec<Step>,
    /// Pipeline-wide environment.
    pub env: Option<Env>,
    /// Image for root steps that name none.
    pub default_image: Option<String>,
}

} // verus!

verus! {

/// A plugin-provided subcommand.
#[derive(Debug)]
pub struct SubcommandCapability {
    /// The verb it answers to.
    pub verb: String,
}

/// A plugin-provided step executor.
#[derive(Debug)]
pub struct StepExecutorCapability {
    /// The runner name steps request.
    pub runner: String,
    /// Whether this executor runs steps that request no runner.
    pub default: bool,
}

/// A plugin-provided lifecycle hook.
#[derive(Debug)]
pub struct LifecycleHookCapability {}

/// A plugin-provided output formatter.
#[derive(Debug)]
pub struct OutputFormatterCapability {
    /// The formatter name (`--format <name>`).
    pub name: String,
}

/// One capability a plugin declares.
#[derive(Debug)]
pub enum Capability {
    Subcommand(SubcommandCapability),
    StepExecutor(StepExecutorCapability),
    LifecycleHook(LifecycleHookCapability),
    OutputFormatter(OutputFormatterCapability),
}

/// What a plugin declares about itself.
#[derive(Debug)]
pub struct PluginManifest {
    /// Plugin name.
    pub name: String,
    /// Plugin version.
    pub version: String,
    /// Plugin API version it was built against.
    pub api_version: u32,
    /// Declared capabilities.
    pub capabilities: Vec<Capability>,
    /// HTTPS hosts it may contact.
    pub allowed_hosts: Vec<String>,
}

} // verus!
