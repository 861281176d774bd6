//! Dependency resolution: a depth-first walk of the catalog graph with
//! three-state cycle detection, producing a dependency-first execution plan.

use vstd::prelude::*;
use vstd::seq_lib::*;
use vstd::set_lib::*;
use crate::catalog::{TaskCatalog, TaskValue, TaskView, CommandField, DepEntry, has_name, entry_of,
    dep_names};
use crate::models::{JakeError, NodeState, TaskNode};
use crate::text::str_eq;

verus! {

/// A catalog as the resolver sees it: named task views, names unique.
pub type CatalogView = Seq<(Seq<char>, TaskView)>;

/// The usable dependency names of the task named `n`; empty when the task is
/// not runnable.
pub open spec fn deps_of(cv: CatalogView, n: Seq<char>) -> Seq<Seq<char>> {
    match entry_of(cv, n) {
        TaskView::Runnable { deps, .. } => deps,
        _ => Seq::empty(),
    }
}

/// The command of the task named `n`; empty when the task is not runnable.
pub open spec fn command_of(cv: CatalogView, n: Seq<char>) -> Seq<char> {
    match entry_of(cv, n) {
        TaskView::Runnable { command, .. } => command,
        _ => Seq::empty(),
    }
}

/// The task named `n` is declared and runnable.
pub open spec fn task_ok(cv: CatalogView, n: Seq<char>) -> bool {
    has_name(cv, n) && entry_of(cv, n) is Runnable
}

/// Consecutive elements are dependency edges of declared, runnable tasks.
pub open spec fn is_chain(cv: CatalogView, p: Seq<Seq<char>>) -> bool {
    forall|i: int| #![trigger p[i]] 0 <= i < p.len() - 1
        ==> task_ok(cv, p[i]) && deps_of(cv, p[i]).contains(p[i + 1])
}

/// `to` is reachable from `from` along declared dependency edges (every
/// name reaches itself).
pub open spec fn reaches(cv: CatalogView, from: Seq<char>, to: Seq<char>) -> bool {
    exists|p: Seq<Seq<char>>| p.len() >= 1 && p[0] == from && p.last() == to && is_chain(cv, p)
}

/// A dependency cycle passes through `n`.
pub open spec fn on_cycle(cv: CatalogView, n: Seq<char>) -> bool {
    exists|p: Seq<Seq<char>>| p.len() >= 2 && p[0] == n && p.last() == n && is_chain(cv, p)
}

/// Every task reachable from `root` is declared and runnable.
pub open spec fn all_reachable_ok(cv: CatalogView, root: Seq<char>) -> bool {
    forall|n: Seq<char>| #[trigger] reaches(cv, root, n) ==> task_ok(cv, n)
}

/// No dependency cycle is reachable from `root`.
pub open spec fn acyclic_from(cv: CatalogView, root: Seq<char>) -> bool {
    forall|n: Seq<char>| #[trigger] reaches(cv, root, n) ==> !on_cycle(cv, n)
}

/// The name `d` stands somewhere before position `i` of `names`.
pub open spec fn listed_before(names: Seq<Seq<char>>, i: int, d: Seq<char>) -> bool {
    exists|k: int| 0 <= k < i && names[k] == d
}

/// `names` lists every dependency of its members before them.
pub open spec fn deps_first(cv: CatalogView, names: Seq<Seq<char>>) -> bool {
    forall|i: int, j: int| #![trigger deps_of(cv, names[i])[j]]
        0 <= i < names.len() && 0 <= j < deps_of(cv, names[i]).len()
        ==> listed_before(names, i, deps_of(cv, names[i])[j])
}

/// `names` schedules every task reachable from `root` exactly once,
/// dependency-first, with `root` last; `plan` lists their commands in step.
pub open spec fn plan_matches(
    cv: CatalogView,
    root: Seq<char>,
    plan: Seq<Seq<char>>,
    names: Seq<Seq<char>>,
) -> bool {
    &&& names.len() == plan.len()
    &&& forall|i: int| #![trigger names[i]] 0 <= i < names.len()
        ==> task_ok(cv, names[i]) && plan[i] == command_of(cv, names[i]) && reaches(
            cv,
            root,
            names[i],
        )
    &&& names.no_duplicates()
    &&& deps_first(cv, names)
    &&& names.len() > 0
    &&& names.last() == root
    &&& forall|n: Seq<char>| #[trigger] reaches(cv, root, n) ==> names.contains(n)
}

/// Some correct plan stands behind the returned commands.
pub open spec fn plan_ok(cv: CatalogView, root: Seq<char>, plan: Seq<Seq<char>>) -> bool {
    exists|names: Seq<Seq<char>>| plan_matches(cv, root, plan, names)
}

/// What each resolution error certifies about the catalog, seen from `root`.
pub open spec fn resolve_err_ok(cv: CatalogView, root: Seq<char>, e: JakeError) -> bool {
    match e {
        JakeError::TaskNotFound(n) => !has_name(cv, n@) && reaches(cv, root, n@),
        JakeError::CircularDependency(n) => reaches(cv, root, n@) && on_cycle(cv, n@),
        JakeError::MissingCommandField => exists|t: Seq<char>|
            #[trigger] reaches(cv, root, t) && has_name(cv, t) && entry_of(cv, t) is MissingCommand,
        JakeError::UnsupportedCommandValue => exists|t: Seq<char>|
            #[trigger] reaches(cv, root, t) && has_name(cv, t) && entry_of(cv, t) is Unsupported,
        JakeError::NoTasksDefined => false,
        JakeError::Exec(_) => false,
    }
}

/// Every name reaches itself.
pub proof fn lemma_reaches_self(cv: CatalogView, n: Seq<char>)
    ensures
        reaches(cv, n, n),
{
    let p = seq![n];
    assert(p.len() == 1 && p[0] == n && p.last() == n);
    assert(is_chain(cv, p));
}

/// Reachability extends along a dependency edge.
pub proof fn lemma_reaches_step(cv: CatalogView, root: Seq<char>, a: Seq<char>, d: Seq<char>)
    requires
        reaches(cv, root, a),
        task_ok(cv, a),
        deps_of(cv, a).contains(d),
    ensures
        reaches(cv, root, d),
{
    let p = choose|p: Seq<Seq<char>>| p.len() >= 1 && p[0] == root && p.last() == a && is_chain(
        cv,
        p,
    );
    let q = p.push(d);
    assert forall|i: int| 0 <= i < q.len() - 1 implies task_ok(cv, #[trigger] q[i]) && deps_of(
        cv,
        q[i],
    ).contains(q[i + 1]) by {
        if i < p.len() - 1 {
            assert(q[i] == p[i] && q[i + 1] == p[i + 1]);
        } else {
            assert(q[i] == p.last() && q[i + 1] == d);
        }
    }
    assert(q.len() >= 1 && q[0] == root && q.last() == d && is_chain(cv, q));
}

/// A chain stays a chain when its first element is dropped.
proof fn lemma_chain_suffix(cv: CatalogView, p: Seq<Seq<char>>)
    requires
        p.len() >= 1,
        is_chain(cv, p),
    ensures
        is_chain(cv, p.drop_first()),
{
    let q = p.drop_first();
    assert forall|i: int| 0 <= i < q.len() - 1 implies task_ok(cv, #[trigger] q[i]) && deps_of(
        cv,
        q[i],
    ).contains(q[i + 1]) by {
        assert(q[i] == p[i + 1] && q[i + 1] == p[i + 2]);
    }
}

/// A non-trivial reach decomposes into a first edge and a shorter reach.
proof fn lemma_reaches_unfold(cv: CatalogView, a: Seq<char>, n: Seq<char>)
    requires
        reaches(cv, a, n),
        n != a,
    ensures
        task_ok(cv, a),
        exists|d: Seq<char>| #[trigger] deps_of(cv, a).contains(d) && reaches(cv, d, n),
{
    let p = choose|p: Seq<Seq<char>>| p.len() >= 1 && p[0] == a && p.last() == n && is_chain(
        cv,
        p,
    );
    assert(p.len() >= 2);
    let d = p[1];
    assert(task_ok(cv, p[0]) && deps_of(cv, p[0]).contains(p[1]));
    lemma_chain_suffix(cv, p);
    let q = p.drop_first();
    assert(q.len() >= 1 && q[0] == d && q.last() == n && is_chain(cv, q));
    assert(deps_of(cv, a).contains(d) && reaches(cv, d, n));
}

/// Looks a task up in the catalog and normalizes it to a `TaskNode`,
/// mirroring how the configuration declares it: a bare string is a command
/// without dependencies; a structured entry must carry a string `command`
/// field, and malformed elements of its dependency list are skipped.
fn task_to_task_node(catalog: &TaskCatalog, task: &str) -> (r: Result<TaskNode, JakeError>)
    requires
        catalog.wf(),
    ensures
        match r {
            Ok(node) => task_ok(catalog@, task@) && node.command@ == command_of(catalog@, task@)
                && node.dependencies.deep_view() == deps_of(catalog@, task@),
            Err(e) => match e {
                JakeError::TaskNotFound(n) => n@ == task@ && !has_name(catalog@, task@),
                JakeError::MissingCommandField => has_name(catalog@, task@) && entry_of(
                    catalog@,
                    task@,
                ) is MissingCommand,
                JakeError::UnsupportedCommandValue => has_name(catalog@, task@) && entry_of(
                    catalog@,
                    task@,
                ) is Unsupported,
                _ => false,
            },
        },
        r is Ok <==> task_ok(catalog@, task@),
{
    match catalog.get(task) {
        None => Err(JakeError::TaskNotFound(task.to_owned())),
        Some(value) => match value {
            TaskValue::Command(s) => {
                let node = TaskNode::new(s.clone(), Vec::new());
                proof {
                    assert(node.dependencies.deep_view() =~= deps_of(catalog@, task@));
                }
                Ok(node)
            },
            TaskValue::Entry { command, depends_on } => match command {
                CommandField::Missing => Err(JakeError::MissingCommandField),
                CommandField::Malformed => Err(JakeError::UnsupportedCommandValue),
                CommandField::Text(c) => {
                    let n = depends_on.len();
                    let mut dependencies: Vec<String> = Vec::new();
                    let mut i: usize = 0;
                    proof {
                        assert(depends_on@.take(0) =~= Seq::<DepEntry>::empty());
                        assert(dependencies.deep_view() =~= dep_names(depends_on@.take(0)));
                    }
                    while i < n
                        invariant
                            i <= n,
                            n == depends_on@.len(),
                            dependencies.deep_view() == dep_names(depends_on@.take(i as int)),
                        decreases n - i,
                    {
                        let ghost pre = dependencies.deep_view();
                        proof {
                            assert(depends_on@.take(i + 1).drop_last() =~= depends_on@.take(
                                i as int,
                            ));
                            assert(depends_on@.take(i + 1).last() == depends_on@[i as int]);
                        }
                        match &depends_on[i] {
                            DepEntry::Name(s) => {
                                dependencies.push(s.clone());
                                proof {
                                    assert(dependencies.deep_view() =~= pre.push(
                                        depends_on@[i as int]->Name_0@,
                                    ));
                                    assert(dependencies.deep_view() =~= dep_names(
                                        depends_on@.take(i + 1),
                                    ));
                                }
                            },
                            DepEntry::Malformed => {
                                proof {
                                    assert(dependencies.deep_view() =~= dep_names(
                                        depends_on@.take(i + 1),
                                    ));
                                }
                            },
                        }
                        i = i + 1;
                    }
                    proof {
                        assert(depends_on@.take(n as int) =~= depends_on@);
                    }
                    Ok(TaskNode::new(c.clone(), dependencies))
                },
            },
            TaskValue::Malformed => Err(JakeError::UnsupportedCommandValue),
        },
    }
}

/// Whether some entry of the state table carries the name `n`.
pub open spec fn st_has(st: Seq<(Seq<char>, NodeState)>, n: Seq<char>) -> bool {
    exists|i: int| 0 <= i < st.len() && st[i].0 == n
}

/// The index of the entry named `n` (unique under `st_wf`).
pub open spec fn st_index(st: Seq<(Seq<char>, NodeState)>, n: Seq<char>) -> int {
    choose|i: int| 0 <= i < st.len() && st[i].0 == n
}

/// The visit state of the name `n`; names without an entry are `Unvisited`.
pub open spec fn st_state(st: Seq<(Seq<char>, NodeState)>, n: Seq<char>) -> NodeState {
    if st_has(st, n) {
        st[st_index(st, n)].1
    } else {
        NodeState::Unvisited
    }
}

/// Names are unique keys.
pub open spec fn st_wf(st: Seq<(Seq<char>, NodeState)>) -> bool {
    forall|i: int, j: int| 0 <= i < j < st.len() ==> st[i].0 != st[j].0
}

/// The visit-state table of one resolution walk: an association list from
/// task name to `NodeState`, scoped to a single `resolve` call.
struct StateTable {
    entries: Vec<(String, NodeState)>,
}

impl View for StateTable {
    type V = Seq<(Seq<char>, NodeState)>;

    closed spec fn view(&self) -> Seq<(Seq<char>, NodeState)> {
        Seq::new(self.entries@.len(), |i: int| (self.entries@[i].0@, self.entries@[i].1))
    }
}

impl StateTable {
    fn new() -> (r: StateTable)
        ensures
            r@ == Seq::<(Seq<char>, NodeState)>::empty(),
    {
        let r = StateTable { entries: Vec::new() };
        proof {
            assert(r@ =~= Seq::<(Seq<char>, NodeState)>::empty());
        }
        r
    }

    /// Index of the entry named `name`, if any.
    fn find(&self, name: &str) -> (r: Option<usize>)
        ensures
            match r {
                Some(i) => 0 <= i < self@.len() && self@[i as int].0 == name@,
                None => !st_has(self@, name@),
            },
    {
        let n = self.entries.len();
        let mut i: usize = 0;
        while i < n
            invariant
                i <= n,
                n == self@.len(),
                forall|k: int| 0 <= k < i ==> self@[k].0 != name@,
            decreases n - i,
        {
            if str_eq(self.entries[i].0.as_str(), name) {
                return Some(i);
            }
            i = i + 1;
        }
        None
    }

    /// The visit state recorded for `name`.
    fn get(&self, name: &str) -> (r: NodeState)
        requires
            st_wf(self@),
        ensures
            r == st_state(self@, name@),
    {
        match self.find(name) {
            Some(i) => {
                proof {
                    assert(st_index(self@, name@) == i) by {
                        let j = st_index(self@, name@);
                        assert(0 <= j < self@.len() && self@[j].0 == name@);
                    }
                }
                self.entries[i].1
            },
            None => NodeState::Unvisited,
        }
    }

    /// Records the visit state of `name`, replacing any earlier record.
    fn set(&mut self, name: &str, value: NodeState)
        requires
            st_wf(old(self)@),
        ensures
            st_wf(final(self)@),
            st_state(final(self)@, name@) == value,
            forall|m: Seq<char>| m != name@ ==> #[trigger] st_state(final(self)@, m) == st_state(
                old(self)@,
                m,
            ),
            forall|m: Seq<char>| #[trigger] st_has(final(self)@, m) <==> (st_has(old(self)@, m)
                || m == name@),
            final(self)@.len() == old(self)@.len() + (if st_has(old(self)@, name@) {
                0int
            } else {
                1int
            }),
    {
        let ghost pre = self@;
        match self.find(name) {
            Some(i) => {
                let owned = self.entries[i].0.clone();
                self.entries.remove(i);
                self.entries.insert(i, (owned, value));
                proof {
                    assert(self@ =~= pre.update(i as int, (name@, value)));
                    let post = self@;
                    assert(pre[i as int].0 == name@);
                    assert forall|m: Seq<char>| #![trigger st_state(post, m)] #![trigger st_has(post, m)]
                        m != name@ implies st_state(post, m)
                        == st_state(pre, m) && (st_has(post, m) <==> st_has(pre, m)) by {
                        if st_has(pre, m) {
                            let j = st_index(pre, m);
                            assert(post[j].0 == m);
                            assert(st_has(post, m));
                            let j2 = st_index(post, m);
                            assert(post[j2].0 == m);
                            assert(j2 != i);
                            assert(pre[j2].0 == m);
                            assert(j2 == j);
                        } else {
                            if st_has(post, m) {
                                let j2 = st_index(post, m);
                                assert(post[j2].0 == m);
                                assert(j2 != i);
                                assert(pre[j2].0 == m);
                                assert(false);
                            }
                        }
                    }
                    assert(post[i as int].0 == name@);
                    assert(st_has(post, name@));
                    let j = st_index(post, name@);
                    assert(post[j].0 == name@);
                    if j != i {
                        assert(pre[j].0 == name@);
                        assert(false);
                    }
                    assert(post[st_index(post, name@)].1 == value);
                }
            },
            None => {
                self.entries.push((name.to_owned(), value));
                proof {
                    assert(self@ =~= pre.push((name@, value)));
                    let post = self@;
                    assert forall|m: Seq<char>| #![trigger st_state(post, m)] #![trigger st_has(post, m)]
                        m != name@ implies st_state(post, m)
                        == st_state(pre, m) && (st_has(post, m) <==> st_has(pre, m)) by {
                        if st_has(pre, m) {
                            let j = st_index(pre, m);
                            assert(post[j].0 == m);
                            assert(st_has(post, m));
                            let j2 = st_index(post, m);
                            assert(post[j2].0 == m);
                            assert(j2 != pre.len() as int);
                            assert(pre[j2].0 == m);
                            assert(j2 == j);
                        } else {
                            if st_has(post, m) {
                                let j2 = st_index(post, m);
                                assert(post[j2].0 == m);
                                assert(j2 != pre.len() as int);
                                assert(pre[j2].0 == m);
                                assert(false);
                            }
                        }
                    }
                    assert(post[pre.len() as int].0 == name@);
                    assert(st_has(post, name@));
                    let j = st_index(post, name@);
                    assert(post[j].0 == name@);
                    if j != pre.len() as int {
                        assert(pre[j].0 == name@);
                        assert(false);
                    }
                    assert(post[st_index(post, name@)].1 == value);
                }
            },
        }
    }
}

/// The root of the walk: the bottom of the traversal stack, or the task
/// itself when the stack is empty.
pub open spec fn root_spec(stack: Seq<Seq<char>>, task: Seq<char>) -> Seq<char> {
    if stack.len() > 0 {
        stack[0]
    } else {
        task
    }
}

/// The invariant of the depth-first walk. `stack` is the chain of tasks
/// currently being visited, rooted at `root`; `sched` the names already
/// scheduled, dependency-first; `order` their commands, in step; `st` tags
/// exactly the stack members `Visiting` and the scheduled ones `Visited`.
#[verifier::opaque]
pub open spec fn walk_inv(
    cv: CatalogView,
    st: Seq<(Seq<char>, NodeState)>,
    stack: Seq<Seq<char>>,
    sched: Seq<Seq<char>>,
    order: Seq<Seq<char>>,
    root: Seq<char>,
) -> bool {
    &&& st_wf(st)
    &&& st.len() == stack.len() + sched.len()
    &&& forall|n: Seq<char>| #![trigger st_state(st, n)] #![trigger stack.contains(n)]
        st_state(st, n) is Visiting <==> stack.contains(n)
    &&& forall|n: Seq<char>| #![trigger st_state(st, n)] #![trigger sched.contains(n)]
        st_state(st, n) is Visited <==> sched.contains(n)
    &&& forall|n: Seq<char>| #[trigger] st_has(st, n) ==> !(st_state(st, n) is Unvisited)
    &&& stack.no_duplicates()
    &&& sched.no_duplicates()
    &&& forall|i: int| #![trigger stack[i]] 0 <= i < stack.len() ==> task_ok(cv, stack[i])
        && reaches(cv, root, stack[i])
    &&& forall|i: int| #![trigger stack[i]] 0 <= i < stack.len() - 1 ==> deps_of(
        cv,
        stack[i],
    ).contains(stack[i + 1])
    &&& (stack.len() > 0 ==> stack[0] == root)
    &&& order.len() == sched.len()
    &&& forall|i: int| #![trigger sched[i]] 0 <= i < sched.len() ==> task_ok(cv, sched[i])
        && order[i] == command_of(cv, sched[i]) && reaches(cv, root, sched[i])
    &&& deps_first(cv, sched)
}

/// The state table can never outgrow the catalog: its keys are distinct
/// declared names.
proof fn lemma_state_bound(
    cv: CatalogView,
    st: Seq<(Seq<char>, NodeState)>,
    stack: Seq<Seq<char>>,
    sched: Seq<Seq<char>>,
    order: Seq<Seq<char>>,
    root: Seq<char>,
)
    requires
        walk_inv(cv, st, stack, sched, order, root),
    ensures
        st.len() <= cv.len(),
{
    broadcast use vstd::seq_lib::seq_to_set_is_finite;

    reveal(walk_inv);

    let marked = stack + sched;
    assert forall|i: int, j: int| 0 <= i < j < marked.len() implies marked[i] != marked[j] by {
        let sl = stack.len() as int;
        if i < sl && j >= sl {
            assert(marked[i] == stack[i] && marked[j] == sched[j - sl]);
            assert(stack.contains(stack[i]) && sched.contains(sched[j - sl]));
            assert(st_state(st, stack[i]) is Visiting);
            assert(st_state(st, sched[j - sl]) is Visited);
        } else if i < sl && j < sl {
            assert(marked[i] == stack[i] && marked[j] == stack[j]);
        } else {
            assert(marked[i] == sched[i - sl] && marked[j] == sched[j - sl]);
        }
    }
    assert(marked.no_duplicates());
    let all = Seq::new(cv.len(), |i: int| cv[i].0);
    assert forall|i: int| 0 <= i < marked.len() implies all.to_set().contains(#[trigger] marked[
        i
    ]) by {
        let sl = stack.len() as int;
        if i < sl {
            assert(marked[i] == stack[i] && task_ok(cv, stack[i]));
        } else {
            assert(marked[i] == sched[i - sl] && task_ok(cv, sched[i - sl]));
        }
        let j = choose|j: int| 0 <= j < cv.len() && cv[j].0 == marked[i];
        assert(all[j] == marked[i]);
        assert(all.contains(marked[i]));
    }
    assert forall|x: Seq<char>| marked.to_set().contains(x) implies all.to_set().contains(x) by {
        assert(marked.contains(x));
        let i = choose|i: int| 0 <= i < marked.len() && marked[i] == x;
        assert(all.to_set().contains(marked[i]));
    }
    marked.unique_seq_to_set();
    all.lemma_cardinality_of_set();
    lemma_len_subset(marked.to_set(), all.to_set());
    assert(st.len() == marked.len());
}

/// Walking a chain never leaves a dependency-first schedule.
proof fn lemma_chain_in_closed(cv: CatalogView, sched: Seq<Seq<char>>, p: Seq<Seq<char>>)
    requires
        deps_first(cv, sched),
        is_chain(cv, p),
        p.len() >= 1,
        sched.contains(p[0]),
    ensures
        sched.contains(p.last()),
    decreases p.len(),
{
    if p.len() > 1 {
        let i = choose|i: int| 0 <= i < sched.len() && sched[i] == p[0];
        assert(deps_of(cv, p[0]).contains(p[1]));
        let j = choose|j: int| 0 <= j < deps_of(cv, sched[i]).len() && deps_of(cv, sched[i])[j]
            == p[1];
        assert(deps_of(cv, sched[i])[j] == p[1]);
        assert(listed_before(sched, i, p[1]));
        let k = choose|k: int| 0 <= k < i && sched[k] == p[1];
        assert(sched.contains(p[1]));
        lemma_chain_suffix(cv, p);
        lemma_chain_in_closed(cv, sched, p.drop_first());
        assert(p.drop_first().last() == p.last());
    }
}

/// Everything reachable from a scheduled task is already scheduled.
proof fn lemma_reaches_in_closed(cv: CatalogView, sched: Seq<Seq<char>>, from: Seq<char>, to: Seq<char>)
    requires
        deps_first(cv, sched),
        sched.contains(from),
        reaches(cv, from, to),
    ensures
        sched.contains(to),
{
    let p = choose|p: Seq<Seq<char>>| p.len() >= 1 && p[0] == from && p.last() == to && is_chain(
        cv,
        p,
    );
    lemma_chain_in_closed(cv, sched, p);
}

/// A member of a prefix is a member of the whole.
proof fn lemma_prefix_keeps(a: Seq<Seq<char>>, b: Seq<Seq<char>>, x: Seq<char>)
    requires
        a.len() <= b.len(),
        b.take(a.len() as int) == a,
        a.contains(x),
    ensures
        b.contains(x),
{
    let i = choose|i: int| 0 <= i < a.len() && a[i] == x;
    assert(b.take(a.len() as int)[i] == a[i]);
    assert(b[i] == x);
}


/// After a task's final state flip, the visit states match the popped stack
/// and the extended schedule.
proof fn lemma_finish_states(
    cv: CatalogView,
    st_pre: Seq<(Seq<char>, NodeState)>,
    st1: Seq<(Seq<char>, NodeState)>,
    stack: Seq<Seq<char>>,
    task: Seq<char>,
    sched_mid: Seq<Seq<char>>,
    order_mid: Seq<Seq<char>>,
    sched1: Seq<Seq<char>>,
    root: Seq<char>,
)
    requires
        walk_inv(cv, st_pre, stack.push(task), sched_mid, order_mid, root),
        sched1 == sched_mid.push(task),
        st_wf(st1),
        st_state(st1, task) is Visited,
        forall|m: Seq<char>| m != task ==> #[trigger] st_state(st1, m) == st_state(st_pre, m),
        forall|m: Seq<char>| #[trigger] st_has(st1, m) <==> (st_has(st_pre, m) || m == task),
        st1.len() == st_pre.len() + (if st_has(st_pre, task) {
            0int
        } else {
            1int
        }),
    ensures
        !sched_mid.contains(task),
        !stack.contains(task),
        forall|n: Seq<char>| #![trigger st_state(st1, n)] #![trigger stack.contains(n)]
            st_state(st1, n) is Visiting <==> stack.contains(n),
        forall|n: Seq<char>| #![trigger st_state(st1, n)] #![trigger sched1.contains(n)]
            st_state(st1, n) is Visited <==> sched1.contains(n),
        forall|n: Seq<char>| #[trigger] st_has(st1, n) ==> !(st_state(st1, n) is Unvisited),
        st1.len() == stack.len() + sched1.len(),
        sched1.no_duplicates(),
{
    reveal(walk_inv);
    let stack2 = stack.push(task);
    assert(stack2[stack.len() as int] == task);
    assert(stack2.contains(task));
    assert(st_state(st_pre, task) is Visiting);
    assert(st_has(st_pre, task));
    assert(!sched_mid.contains(task));
    assert(!stack.contains(task)) by {
        if stack.contains(task) {
            let q = choose|q: int| 0 <= q < stack.len() && stack[q] == task;
            assert(stack2[q] == task && stack2[stack.len() as int] == task);
        }
    }
    assert forall|n: Seq<char>| #![trigger st_state(st1, n)] #![trigger stack.contains(n)]
        st_state(st1, n) is Visiting <==> stack.contains(n) by {
        if n == task {
            assert(st_state(st1, n) is Visited);
        } else {
            assert(st_state(st1, n) == st_state(st_pre, n));
            if stack2.contains(n) {
                let q = choose|q: int| 0 <= q < stack2.len() && stack2[q] == n;
                assert(stack[q] == n);
            }
            if stack.contains(n) {
                let q = choose|q: int| 0 <= q < stack.len() && stack[q] == n;
                assert(stack2[q] == n);
            }
        }
    }
    assert forall|n: Seq<char>| #![trigger st_state(st1, n)] #![trigger sched1.contains(n)]
        st_state(st1, n) is Visited <==> sched1.contains(n) by {
        if n == task {
            assert(sched1[sched_mid.len() as int] == task);
            assert(sched1.contains(task));
        } else {
            assert(st_state(st1, n) == st_state(st_pre, n));
            if sched_mid.contains(n) {
                let q = choose|q: int| 0 <= q < sched_mid.len() && sched_mid[q] == n;
                assert(sched1[q] == n);
            }
            if sched1.contains(n) {
                let q = choose|q: int| 0 <= q < sched1.len() && sched1[q] == n;
                assert(q < sched_mid.len());
                assert(sched_mid[q] == n);
            }
        }
    }
    assert forall|n: Seq<char>| #[trigger] st_has(st1, n) implies !(st_state(st1, n)
        is Unvisited) by {
        if n != task {
            assert(st_has(st_pre, n));
            assert(st_state(st1, n) == st_state(st_pre, n));
        }
    }
    assert forall|a: int, b: int| 0 <= a < b < sched1.len() implies sched1[a] != sched1[b] by {
        if b < sched_mid.len() {
            assert(sched1[a] == sched_mid[a] && sched1[b] == sched_mid[b]);
        } else {
            assert(sched1[a] == sched_mid[a] && sched1[b] == task);
            assert(sched_mid.contains(sched_mid[a]));
        }
    }
    assert(sched1.no_duplicates());
}

/// After a task is appended, the schedule is still made of runnable tasks,
/// commands in step, dependencies first.
#[verifier::rlimit(100)]
proof fn lemma_finish_sched(
    cv: CatalogView,
    task: Seq<char>,
    sched_mid: Seq<Seq<char>>,
    order_mid: Seq<Seq<char>>,
    sched1: Seq<Seq<char>>,
    order1: Seq<Seq<char>>,
    root: Seq<char>,
)
    requires
        order_mid.len() == sched_mid.len(),
        forall|a: int| #![trigger sched_mid[a]] 0 <= a < sched_mid.len()
            ==> task_ok(cv, sched_mid[a]) && order_mid[a] == command_of(cv, sched_mid[a])
            && reaches(cv, root, sched_mid[a]),
        deps_first(cv, sched_mid),
        task_ok(cv, task),
        reaches(cv, root, task),
        sched1 == sched_mid.push(task),
        order1 == order_mid.push(command_of(cv, task)),
        forall|k: int| 0 <= k < deps_of(cv, task).len() ==> sched_mid.contains(
            #[trigger] deps_of(cv, task)[k],
        ),
    ensures
        order1.len() == sched1.len(),
        forall|a: int| #![trigger sched1[a]] 0 <= a < sched1.len() ==> task_ok(cv, sched1[a])
            && order1[a] == command_of(cv, sched1[a]) && reaches(cv, root, sched1[a]),
        deps_first(cv, sched1),
{
    assert forall|a: int| 0 <= a < sched1.len() implies task_ok(cv, #[trigger] sched1[a])
        && order1[a] == command_of(cv, sched1[a]) && reaches(cv, root, sched1[a]) by {
        if a < sched_mid.len() {
            assert(sched1[a] == sched_mid[a] && order1[a] == order_mid[a]);
        } else {
            assert(sched1[a] == task && order1[a] == command_of(cv, task));
        }
    }
    assert forall|a: int, b: int| #![trigger deps_of(cv, sched1[a])[b]]
        0 <= a < sched1.len() && 0 <= b < deps_of(cv, sched1[a]).len() implies listed_before(
        sched1,
        a,
        deps_of(cv, sched1[a])[b],
    ) by {
        if a < sched_mid.len() {
            assert(sched1[a] == sched_mid[a]);
            assert(deps_of(cv, sched_mid[a])[b] == deps_of(cv, sched1[a])[b]);
            assert(listed_before(sched_mid, a, deps_of(cv, sched_mid[a])[b]));
            let k = choose|k: int| 0 <= k < a && sched_mid[k] == deps_of(cv, sched_mid[a])[b];
            assert(sched1[k] == sched_mid[k]);
            assert(0 <= k < a && sched1[k] == deps_of(cv, sched1[a])[b]);
        } else {
            assert(sched1[a] == task);
            assert(deps_of(cv, sched1[a]) == deps_of(cv, task));
            assert(sched_mid.contains(deps_of(cv, task)[b]));
            let k = choose|k: int| 0 <= k < sched_mid.len() && sched_mid[k] == deps_of(
                cv,
                task,
            )[b];
            assert(sched1[k] == sched_mid[k]);
            assert(0 <= k < a && sched1[k] == deps_of(cv, sched1[a])[b]);
        }
    }
    assert(deps_first(cv, sched1));
}

/// Once every dependency's reachable set is scheduled, appending the task
/// itself schedules everything reachable from it.
proof fn lemma_finish_complete(
    cv: CatalogView,
    task: Seq<char>,
    sched_mid: Seq<Seq<char>>,
    sched1: Seq<Seq<char>>,
)
    requires
        task_ok(cv, task),
        sched1 == sched_mid.push(task),
        forall|k: int, m: Seq<char>| #![trigger reaches(cv, deps_of(cv, task)[k], m)]
            0 <= k < deps_of(cv, task).len() && reaches(cv, deps_of(cv, task)[k], m)
            ==> sched_mid.contains(m),
    ensures
        forall|m: Seq<char>| #[trigger] reaches(cv, task, m) ==> sched1.contains(m),
{
    assert forall|m: Seq<char>| #[trigger] reaches(cv, task, m) implies sched1.contains(m) by {
        if m == task {
            assert(sched1[sched_mid.len() as int] == task);
        } else {
            lemma_reaches_unfold(cv, task, m);
            let d = choose|d: Seq<char>| #[trigger] deps_of(cv, task).contains(d) && reaches(
                cv,
                d,
                m,
            );
            let k = choose|k: int| 0 <= k < deps_of(cv, task).len() && deps_of(cv, task)[k] == d;
            assert(reaches(cv, deps_of(cv, task)[k], m));
            assert(sched_mid.contains(m));
            let q = choose|q: int| 0 <= q < sched_mid.len() && sched_mid[q] == m;
            assert(sched1[q] == m);
        }
    }
}

/// Finishing a task re-establishes the walk invariant one stack level up:
/// the task moves from the stack to the end of the schedule, its command is
/// appended to the order, and everything reachable from it is now scheduled.
proof fn lemma_finish_task(
    cv: CatalogView,
    st_pre: Seq<(Seq<char>, NodeState)>,
    st1: Seq<(Seq<char>, NodeState)>,
    stack: Seq<Seq<char>>,
    task: Seq<char>,
    sched_mid: Seq<Seq<char>>,
    order_mid: Seq<Seq<char>>,
    sched1: Seq<Seq<char>>,
    order1: Seq<Seq<char>>,
    sched0: Seq<Seq<char>>,
    order0: Seq<Seq<char>>,
    root: Seq<char>,
)
    requires
        walk_inv(cv, st_pre, stack.push(task), sched_mid, order_mid, root),
        root == root_spec(stack, task),
        task_ok(cv, task),
        reaches(cv, root, task),
        sched1 == sched_mid.push(task),
        order1 == order_mid.push(command_of(cv, task)),
        st_wf(st1),
        st_state(st1, task) is Visited,
        forall|m: Seq<char>| m != task ==> #[trigger] st_state(st1, m) == st_state(st_pre, m),
        forall|m: Seq<char>| #[trigger] st_has(st1, m) <==> (st_has(st_pre, m) || m == task),
        st1.len() == st_pre.len() + (if st_has(st_pre, task) {
            0int
        } else {
            1int
        }),
        sched0.len() <= sched_mid.len(),
        sched_mid.take(sched0.len() as int) == sched0,
        order0.len() <= order_mid.len(),
        order_mid.take(order0.len() as int) == order0,
        forall|k: int| 0 <= k < deps_of(cv, task).len() ==> sched_mid.contains(
            #[trigger] deps_of(cv, task)[k],
        ),
        forall|k: int, m: Seq<char>| #![trigger reaches(cv, deps_of(cv, task)[k], m)]
            0 <= k < deps_of(cv, task).len() && reaches(cv, deps_of(cv, task)[k], m)
            ==> sched_mid.contains(m),
    ensures
        walk_inv(cv, st1, stack, sched1, order1, root),
        sched0.len() < sched1.len(),
        sched1.take(sched0.len() as int) == sched0,
        order1.take(order0.len() as int) == order0,
        sched1.contains(task),
        sched1.last() == task,
        forall|m: Seq<char>| #[trigger] reaches(cv, task, m) ==> sched1.contains(m),
{
    let stack2 = stack.push(task);
    lemma_finish_states(cv, st_pre, st1, stack, task, sched_mid, order_mid, sched1, root);
    assert(order_mid.len() == sched_mid.len() && deps_first(cv, sched_mid) && (forall|a: int|
        #![trigger sched_mid[a]]
        0 <= a < sched_mid.len() ==> task_ok(cv, sched_mid[a]) && order_mid[a] == command_of(
            cv,
            sched_mid[a],
        ) && reaches(cv, root, sched_mid[a]))) by {
        reveal(walk_inv);
    }
    lemma_finish_sched(cv, task, sched_mid, order_mid, sched1, order1, root);
    lemma_finish_complete(cv, task, sched_mid, sched1);
    assert(walk_inv(cv, st1, stack, sched1, order1, root)) by {
        reveal(walk_inv);
        assert forall|a: int, b: int| 0 <= a < b < stack.len() implies stack[a] != stack[b] by {
            assert(stack[a] == stack2[a] && stack[b] == stack2[b]);
        }
        assert(stack.no_duplicates());
        assert forall|a: int| 0 <= a < stack.len() implies task_ok(cv, #[trigger] stack[a])
            && reaches(cv, root, stack[a]) by {
            assert(stack[a] == stack2[a]);
        }
        assert forall|a: int| 0 <= a < stack.len() - 1 implies deps_of(
            cv,
            #[trigger] stack[a],
        ).contains(stack[a + 1]) by {
            assert(stack[a] == stack2[a] && stack[a + 1] == stack2[a + 1]);
        }
        if stack.len() > 0 {
            assert(stack[0] == stack2[0]);
        }
    }
    assert(sched1.take(sched0.len() as int) =~= sched_mid.take(sched0.len() as int));
    assert(order1.take(order0.len() as int) =~= order_mid.take(order0.len() as int));
    assert(sched1[sched_mid.len() as int] == task);
    assert(sched1.contains(task));
}

/// One step of the depth-first walk: schedules everything reachable from
/// `task` that is not scheduled yet, dependencies strictly first, appending
/// each task's command to `execution_order` as the task is finished.
#[verifier::rlimit(100)]
fn resolve_dependencies(
    catalog: &TaskCatalog,
    task: &String,
    execution_order: &mut Vec<String>,
    scheduled: &mut Vec<String>,
    state: &mut StateTable,
    Ghost(stack): Ghost<Seq<Seq<char>>>,
) -> (r: Result<(), JakeError>)
    requires
        catalog.wf(),
        walk_inv(
            catalog@,
            old(state)@,
            stack,
            old(scheduled).deep_view(),
            old(execution_order).deep_view(),
            root_spec(stack, task@),
        ),
        stack.len() > 0 ==> deps_of(catalog@, stack.last()).contains(task@),
        reaches(catalog@, root_spec(stack, task@), task@),
    ensures
        match r {
            Ok(()) => {
                &&& walk_inv(
                    catalog@,
                    final(state)@,
                    stack,
                    final(scheduled).deep_view(),
                    final(execution_order).deep_view(),
                    root_spec(stack, task@),
                )
                &&& old(scheduled).deep_view().len() <= final(scheduled).deep_view().len()
                &&& old(execution_order).deep_view().len()
                    <= final(execution_order).deep_view().len()
                &&& old(state)@.len() <= final(state)@.len()
                &&& final(scheduled).deep_view().take(old(scheduled).deep_view().len() as int)
                    == old(scheduled).deep_view()
                &&& final(execution_order).deep_view().take(
                    old(execution_order).deep_view().len() as int,
                ) == old(execution_order).deep_view()
                &&& final(scheduled).deep_view().contains(task@)
                &&& forall|m: Seq<char>| #[trigger] reaches(catalog@, task@, m)
                    ==> final(scheduled).deep_view().contains(m)
                &&& (!(st_state(old(state)@, task@) is Visited)
                    ==> final(scheduled).deep_view().len() > old(scheduled).deep_view().len()
                    && final(scheduled).deep_view().last() == task@)
                &&& (st_state(old(state)@, task@) is Visited ==> final(state)@ == old(state)@
                    && final(scheduled)@ == old(scheduled)@
                    && final(execution_order)@ == old(execution_order)@)
            },
            Err(e) => resolve_err_ok(catalog@, root_spec(stack, task@), e),
        },
        !has_name(catalog@, task@) ==> (r matches Err(JakeError::TaskNotFound(n)) && n@ == task@),
    decreases catalog@.len() - state@.len(), 0int,
{
    proof {
        reveal(walk_inv);
    }
    let ghost cv = catalog@;
    let ghost root = root_spec(stack, task@);
    let ghost st0 = state@;
    let ghost sched0 = scheduled.deep_view();
    let ghost order0 = execution_order.deep_view();
    let node = match task_to_task_node(catalog, task.as_str()) {
        Ok(node) => node,
        Err(e) => {
            proof {
                assert(reaches(cv, root, task@));
            }
            return Err(e);
        },
    };
    match state.get(task.as_str()) {
        NodeState::Visited => {
            proof {
                assert(sched0.contains(task@));
                assert forall|m: Seq<char>| #[trigger] reaches(cv, task@, m) implies
                    sched0.contains(m) by {
                    lemma_reaches_in_closed(cv, sched0, task@, m);
                }
                assert(sched0.take(sched0.len() as int) =~= sched0);
                assert(order0.take(order0.len() as int) =~= order0);
            }
            return Ok(());
        },
        NodeState::Visiting => {
            proof {
                assert(stack.contains(task@));
                let k = choose|k: int| 0 <= k < stack.len() && stack[k] == task@;
                let c = stack.subrange(k, stack.len() as int).push(task@);
                assert(c.len() >= 2);
                assert(c[0] == task@);
                assert(c.last() == task@);
                assert forall|i: int| 0 <= i < c.len() - 1 implies task_ok(cv, #[trigger] c[i])
                    && deps_of(cv, c[i]).contains(c[i + 1]) by {
                    if i < c.len() - 2 {
                        assert(c[i] == stack[k + i] && c[i + 1] == stack[k + i + 1]);
                    } else {
                        assert(c[i] == stack[stack.len() - 1] && c[i + 1] == task@);
                    }
                }
                assert(is_chain(cv, c));
                assert(on_cycle(cv, task@));
            }
            return Err(JakeError::CircularDependency(task.clone()));
        },
        NodeState::Unvisited => {},
    }
    proof {
        assert(!stack.contains(task@));
        assert(!sched0.contains(task@));
        assert(!st_has(st0, task@));
    }
    state.set(task.as_str(), NodeState::Visiting);
    let ghost stack2 = stack.push(task@);
    proof {
        assert(stack2.last() == task@);
        assert(stack2[0] == root);
        assert forall|n: Seq<char>| #![trigger st_state(state@, n)] #![trigger stack2.contains(n)]
            st_state(state@, n) is Visiting <==> stack2.contains(n) by {
            if n != task@ {
                assert(st_state(state@, n) == st_state(st0, n));
                if stack2.contains(n) {
                    let q = choose|q: int| 0 <= q < stack2.len() && stack2[q] == n;
                    assert(stack[q] == n);
                }
                if stack.contains(n) {
                    let q = choose|q: int| 0 <= q < stack.len() && stack[q] == n;
                    assert(stack2[q] == n);
                }
            }
        }
        assert forall|n: Seq<char>| #![trigger st_state(state@, n)] #![trigger sched0.contains(n)]
            st_state(state@, n) is Visited <==> sched0.contains(n) by {
            if n != task@ {
                assert(st_state(state@, n) == st_state(st0, n));
            }
        }
        assert forall|i: int| 0 <= i < stack2.len() implies task_ok(cv, #[trigger] stack2[i])
            && reaches(cv, root, stack2[i]) by {
            if i < stack.len() {
                assert(stack2[i] == stack[i]);
            } else {
                assert(stack2[i] == task@);
            }
        }
        assert forall|i: int| 0 <= i < stack2.len() - 1 implies deps_of(
            cv,
            #[trigger] stack2[i],
        ).contains(stack2[i + 1]) by {
            if i < stack.len() - 1 {
                assert(stack2[i] == stack[i] && stack2[i + 1] == stack[i + 1]);
            } else {
                assert(stack2[i] == stack.last() && stack2[i + 1] == task@);
            }
        }
        assert(walk_inv(cv, state@, stack2, sched0, order0, root));
        lemma_state_bound(cv, state@, stack2, sched0, order0, root);
    }
    match resolve_list(
        catalog,
        &node.dependencies,
        0,
        execution_order,
        scheduled,
        state,
        Ghost(stack2),
    ) {
        Ok(()) => {},
        Err(e) => {
            return Err(e);
        },
    }
    let ghost st_pre = state@;
    state.set(task.as_str(), NodeState::Visited);
    let ghost sched_mid = scheduled.deep_view();
    let ghost order_mid = execution_order.deep_view();
    scheduled.push(task.clone());
    execution_order.push(node.command);
    proof {
        assert(scheduled.deep_view() =~= sched_mid.push(task@));
        assert(execution_order.deep_view() =~= order_mid.push(command_of(cv, task@)));
        lemma_finish_task(
            cv,
            st_pre,
            state@,
            stack,
            task@,
            sched_mid,
            order_mid,
            scheduled.deep_view(),
            execution_order.deep_view(),
            sched0,
            order0,
            root,
        );
    }
    Ok(())
}

/// Resolves the dependencies `deps[i..]` of the task on top of `stack`, in
/// declaration order, scheduling each dependency's reachable tasks.
fn resolve_list(
    catalog: &TaskCatalog,
    deps: &Vec<String>,
    i: usize,
    execution_order: &mut Vec<String>,
    scheduled: &mut Vec<String>,
    state: &mut StateTable,
    Ghost(stack): Ghost<Seq<Seq<char>>>,
) -> (r: Result<(), JakeError>)
    requires
        catalog.wf(),
        stack.len() > 0,
        walk_inv(
            catalog@,
            old(state)@,
            stack,
            old(scheduled).deep_view(),
            old(execution_order).deep_view(),
            stack[0],
        ),
        deps.deep_view() == deps_of(catalog@, stack.last()),
        i <= deps@.len(),
    ensures
        match r {
            Ok(()) => {
                &&& walk_inv(
                    catalog@,
                    final(state)@,
                    stack,
                    final(scheduled).deep_view(),
                    final(execution_order).deep_view(),
                    stack[0],
                )
                &&& old(scheduled).deep_view().len() <= final(scheduled).deep_view().len()
                &&& old(execution_order).deep_view().len()
                    <= final(execution_order).deep_view().len()
                &&& old(state)@.len() <= final(state)@.len()
                &&& final(scheduled).deep_view().take(old(scheduled).deep_view().len() as int)
                    == old(scheduled).deep_view()
                &&& final(execution_order).deep_view().take(
                    old(execution_order).deep_view().len() as int,
                ) == old(execution_order).deep_view()
                &&& forall|k: int| i <= k < deps.deep_view().len()
                    ==> final(scheduled).deep_view().contains(#[trigger] deps.deep_view()[k])
                &&& forall|k: int, m: Seq<char>|
                    #![trigger reaches(catalog@, deps.deep_view()[k], m)]
                    i <= k < deps.deep_view().len() && reaches(catalog@, deps.deep_view()[k], m)
                    ==> final(scheduled).deep_view().contains(m)
            },
            Err(e) => resolve_err_ok(catalog@, stack[0], e),
        },
    decreases catalog@.len() - state@.len(), 1int + deps@.len() - i,
{
    let ghost cv = catalog@;
    let ghost sched0 = scheduled.deep_view();
    let ghost order0 = execution_order.deep_view();
    let ghost st0 = state@;
    if i == deps.len() {
        proof {
            assert(sched0.take(sched0.len() as int) =~= sched0);
            assert(order0.take(order0.len() as int) =~= order0);
        }
        return Ok(());
    }
    let dep = &deps[i];
    proof {
        reveal(walk_inv);
        assert(dep@ == deps.deep_view()[i as int]);
        assert(deps_of(cv, stack.last()).contains(dep@));
        assert(stack.contains(stack.last()));
        assert(task_ok(cv, stack.last()) && reaches(cv, stack[0], stack.last()));
        lemma_reaches_step(cv, stack[0], stack.last(), dep@);
        assert(root_spec(stack, dep@) == stack[0]);
        lemma_state_bound(cv, state@, stack, sched0, order0, stack[0]);
    }
    match resolve_dependencies(catalog, dep, execution_order, scheduled, state, Ghost(stack)) {
        Ok(()) => {},
        Err(e) => {
            return Err(e);
        },
    }
    let ghost mid_sched = scheduled.deep_view();
    let ghost mid_order = execution_order.deep_view();
    proof {
        lemma_state_bound(cv, state@, stack, mid_sched, mid_order, stack[0]);
    }
    match resolve_list(catalog, deps, i + 1, execution_order, scheduled, state, Ghost(stack)) {
        Ok(()) => {},
        Err(e) => {
            return Err(e);
        },
    }
    proof {
        let new_sched = scheduled.deep_view();
        let new_order = execution_order.deep_view();
        assert(new_sched.take(sched0.len() as int) =~= mid_sched.take(sched0.len() as int));
        assert(new_order.take(order0.len() as int) =~= mid_order.take(order0.len() as int));
        assert forall|k: int| i <= k < deps.deep_view().len() implies new_sched.contains(
            #[trigger] deps.deep_view()[k],
        ) by {
            if k == i {
                lemma_prefix_keeps(mid_sched, new_sched, deps.deep_view()[k]);
            }
        }
        assert forall|k: int, m: Seq<char>| #![trigger reaches(cv, deps.deep_view()[k], m)]
            i <= k < deps.deep_view().len() && reaches(cv, deps.deep_view()[k], m) implies
            new_sched.contains(m) by {
            if k == i {
                assert(mid_sched.contains(m));
                lemma_prefix_keeps(mid_sched, new_sched, m);
            }
        }
    }
    Ok(())
}

/// The position of `x` in `names` (unique under `no_duplicates`).
spec fn pos_of(names: Seq<Seq<char>>, x: Seq<char>) -> int {
    choose|i: int| 0 <= i < names.len() && names[i] == x
}

/// Under `no_duplicates`, an index carrying `x` is the position of `x`.
proof fn lemma_pos_unique(names: Seq<Seq<char>>, x: Seq<char>, j: int)
    requires
        names.no_duplicates(),
        0 <= j < names.len(),
        names[j] == x,
    ensures
        pos_of(names, x) == j,
{
    let i = pos_of(names, x);
    assert(0 <= i < names.len() && names[i] == x);
}

/// Every station of a chain whose head is reachable is reachable.
proof fn lemma_reaches_along_chain(
    cv: CatalogView,
    root: Seq<char>,
    p: Seq<Seq<char>>,
    k: int,
)
    requires
        p.len() >= 1,
        is_chain(cv, p),
        reaches(cv, root, p[0]),
        0 <= k < p.len(),
    ensures
        reaches(cv, root, p[k]),
    decreases k,
{
    if k > 0 {
        lemma_reaches_along_chain(cv, root, p, k - 1);
        assert(task_ok(cv, p[k - 1]) && deps_of(cv, p[k - 1]).contains(p[k]));
        lemma_reaches_step(cv, root, p[k - 1], p[k]);
    }
}

/// Along a chain inside a dependency-first, duplicate-free schedule, the
/// position strictly decreases: a cycle is impossible there.
proof fn lemma_cycle_index(cv: CatalogView, names: Seq<Seq<char>>, p: Seq<Seq<char>>)
    requires
        p.len() >= 2,
        is_chain(cv, p),
        forall|k: int| 0 <= k < p.len() ==> names.contains(#[trigger] p[k]),
        names.no_duplicates(),
        deps_first(cv, names),
    ensures
        pos_of(names, p.last()) < pos_of(names, p[0]),
    decreases p.len(),
{
    assert(names.contains(p[0]));
    let i0c = choose|i: int| 0 <= i < names.len() && names[i] == p[0];
    lemma_pos_unique(names, p[0], i0c);
    let i0 = pos_of(names, p[0]);
    assert(names[i0] == p[0]);
    assert(task_ok(cv, p[0]) && deps_of(cv, p[0]).contains(p[1]));
    let j = choose|j: int| 0 <= j < deps_of(cv, names[i0]).len() && deps_of(cv, names[i0])[j]
        == p[1];
    assert(deps_of(cv, names[i0])[j] == p[1]);
    assert(listed_before(names, i0, p[1]));
    let k1 = choose|k: int| 0 <= k < i0 && names[k] == p[1];
    lemma_pos_unique(names, p[1], k1);
    assert(pos_of(names, p[1]) < i0);
    if p.len() == 2 {
        assert(p.last() == p[1]);
    } else {
        lemma_chain_suffix(cv, p);
        let q = p.drop_first();
        assert forall|k: int| 0 <= k < q.len() implies names.contains(#[trigger] q[k]) by {
            assert(q[k] == p[k + 1]);
        }
        lemma_cycle_index(cv, names, q);
        assert(q[0] == p[1] && q.last() == p.last());
    }
}

/// A dependency cycle reachable from the root rules out every execution
/// plan: no dependency-first schedule can contain the cycle.
pub proof fn lemma_cycle_no_plan(
    cv: CatalogView,
    root: Seq<char>,
    n: Seq<char>,
    plan: Seq<Seq<char>>,
)
    requires
        reaches(cv, root, n),
        on_cycle(cv, n),
    ensures
        !plan_ok(cv, root, plan),
{
    if plan_ok(cv, root, plan) {
        let names = choose|names: Seq<Seq<char>>| plan_matches(cv, root, plan, names);
        let p = choose|p: Seq<Seq<char>>| p.len() >= 2 && p[0] == n && p.last() == n && is_chain(
            cv,
            p,
        );
        assert forall|k: int| 0 <= k < p.len() implies names.contains(#[trigger] p[k]) by {
            lemma_reaches_along_chain(cv, root, p, 0);
            assert(reaches(cv, root, p[0]));
            lemma_reaches_along_chain(cv, root, p, k);
        }
        lemma_cycle_index(cv, names, p);
        assert(false);
    }
}

/// Resolves the execution plan for the task named `task`: the commands of
/// every task reachable from it, dependency-first, with `task`'s own
/// command last. Fails with the error of the first problem the walk meets.
pub fn resolve(catalog: &TaskCatalog, task: &str) -> (r: Result<Vec<String>, JakeError>)
    requires
        catalog.wf(),
    ensures
        match r {
            Ok(plan) => plan_ok(catalog@, task@, plan.deep_view()),
            Err(e) => resolve_err_ok(catalog@, task@, e),
        },
        !has_name(catalog@, task@) ==> (r matches Err(JakeError::TaskNotFound(n)) && n@ == task@),
        all_reachable_ok(catalog@, task@) && acyclic_from(catalog@, task@) ==> r is Ok,
        all_reachable_ok(catalog@, task@) && !acyclic_from(catalog@, task@) ==> (
        r matches Err(JakeError::CircularDependency(_))),
{
    let task_string = task.to_owned();
    let mut execution_order: Vec<String> = Vec::new();
    let mut scheduled: Vec<String> = Vec::new();
    let mut state = StateTable::new();
    let ghost cv = catalog@;
    proof {
        reveal(walk_inv);
        assert(execution_order.deep_view() =~= Seq::<Seq<char>>::empty());
        assert(scheduled.deep_view() =~= Seq::<Seq<char>>::empty());
        assert(walk_inv(
            cv,
            state@,
            Seq::empty(),
            scheduled.deep_view(),
            execution_order.deep_view(),
            task@,
        ));
        lemma_reaches_self(cv, task@);
    }
    match resolve_dependencies(
        catalog,
        &task_string,
        &mut execution_order,
        &mut scheduled,
        &mut state,
        Ghost(Seq::empty()),
    ) {
        Err(e) => {
            proof {
                assert(resolve_err_ok(cv, task@, e));
                assert(all_reachable_ok(cv, task@) ==> (e matches JakeError::CircularDependency(
                    _,
                ))) by {
                    if all_reachable_ok(cv, task@) {
                        match e {
                            JakeError::TaskNotFound(m) => {
                                assert(reaches(cv, task@, m@) && !has_name(cv, m@));
                                assert(task_ok(cv, m@));
                            },
                            JakeError::CircularDependency(_) => {},
                            JakeError::MissingCommandField => {
                                let t = choose|t: Seq<char>| #[trigger] reaches(cv, task@, t)
                                    && has_name(cv, t) && entry_of(cv, t) is MissingCommand;
                                assert(task_ok(cv, t));
                            },
                            JakeError::UnsupportedCommandValue => {
                                let t = choose|t: Seq<char>| #[trigger] reaches(cv, task@, t)
                                    && has_name(cv, t) && entry_of(cv, t) is Unsupported;
                                assert(task_ok(cv, t));
                            },
                            JakeError::NoTasksDefined => {},
                            JakeError::Exec(_) => {},
                        }
                    }
                }
                assert((e matches JakeError::CircularDependency(m)) ==> !acyclic_from(
                    cv,
                    task@,
                )) by {
                    match e {
                        JakeError::CircularDependency(m) => {
                            assert(reaches(cv, task@, m@) && on_cycle(cv, m@));
                        },
                        _ => {},
                    }
                }
            }
            Err(e)
        },
        Ok(()) => {
            proof {
                reveal(walk_inv);
                let names = scheduled.deep_view();
                let plan = execution_order.deep_view();
                assert(names.contains(task@));
                assert(names.len() > 0);
                assert(names.last() == task@);
                assert(plan_matches(cv, task@, plan, names));
                assert(plan_ok(cv, task@, plan));
                if !acyclic_from(cv, task@) {
                    let n = choose|n: Seq<char>| #[trigger] reaches(cv, task@, n) && on_cycle(
                        cv,
                        n,
                    );
                    lemma_cycle_no_plan(cv, task@, n, plan);
                    assert(false);
                }
            }
            Ok(execution_order)
        },
    }
}

} // verus!
