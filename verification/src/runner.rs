//! Dispatch: turns an execution plan into executor invocations and runs
//! them in order, appending the user's runtime flags only to the final,
//! originally requested command, and stopping at the first failure.

use vstd::prelude::*;
use crate::catalog::{TaskCatalog, has_name};
use crate::models::{Executor, JakeError};
use crate::resolve::{resolve, plan_ok, plan_matches, resolve_err_ok, all_reachable_ok,
    acyclic_from, task_ok, command_of, CatalogView, lemma_cycle_no_plan, reaches, on_cycle};
use crate::text::{tokenize, split_tokens};

verus! {

/// One command ready for the executor: a program and its arguments.
pub struct Invocation {
    pub program: String,
    pub args: Vec<String>,
}

/// Every runnable command in the catalog has at least a program token.
pub open spec fn dispatchable(cv: CatalogView) -> bool {
    forall|n: Seq<char>| #[trigger] task_ok(cv, n) ==> tokenize(command_of(cv, n)).len() > 0
}

/// What the dispatcher hands the executor for step `i` of `plan`: the first
/// token of the command is the program, the remaining tokens its arguments;
/// only the last step gets the tokens of `flags` appended.
pub open spec fn invocation_matches(
    plan: Seq<Seq<char>>,
    flags: Seq<char>,
    i: int,
    program: Seq<char>,
    args: Seq<Seq<char>>,
) -> bool {
    let toks = tokenize(plan[i]);
    &&& program == toks[0]
    &&& args == if i == plan.len() - 1 {
        toks.drop_first() + tokenize(flags)
    } else {
        toks.drop_first()
    }
}

/// Splits each command of the plan into a program and arguments, appending
/// the runtime flags only to the final command. Commands earlier in the
/// plan get exactly their own declared arguments.
pub fn plan_invocations(plan: &Vec<String>, flags: &str) -> (r: Vec<Invocation>)
    requires
        forall|i: int| 0 <= i < plan@.len() ==> tokenize(#[trigger] plan.deep_view()[i]).len() > 0,
    ensures
        r@.len() == plan@.len(),
        forall|i: int| #![trigger r@[i]] 0 <= i < r@.len() ==> invocation_matches(
            plan.deep_view(),
            flags@,
            i,
            r@[i].program@,
            r@[i].args.deep_view(),
        ),
{
    let n = plan.len();
    let mut r: Vec<Invocation> = Vec::new();
    let mut i: usize = 0;
    while i < n
        invariant
            i <= n,
            n == plan@.len(),
            r@.len() == i,
            forall|k: int| 0 <= k < plan@.len() ==> tokenize(
                #[trigger] plan.deep_view()[k],
            ).len() > 0,
            forall|k: int| #![trigger r@[k]] 0 <= k < i ==> invocation_matches(
                plan.deep_view(),
                flags@,
                k,
                r@[k].program@,
                r@[k].args.deep_view(),
            ),
        decreases n - i,
    {
        let toks = split_tokens(plan[i].as_str());
        proof {
            assert(plan[i as int]@ == plan.deep_view()[i as int]);
            assert(toks.deep_view().len() > 0);
        }
        let program = toks[0].clone();
        let mut args: Vec<String> = Vec::new();
        let mut j: usize = 1;
        proof {
            assert(args.deep_view() =~= toks.deep_view().subrange(1, 1));
        }
        while j < toks.len()
            invariant
                1 <= j <= toks@.len(),
                args.deep_view() == toks.deep_view().subrange(1, j as int),
            decreases toks@.len() - j,
        {
            let ghost pre = args.deep_view();
            args.push(toks[j].clone());
            proof {
                assert(args.deep_view() =~= pre.push(toks.deep_view()[j as int]));
                assert(args.deep_view() =~= toks.deep_view().subrange(1, j + 1));
            }
            j = j + 1;
        }
        proof {
            assert(args.deep_view() =~= toks.deep_view().drop_first());
        }
        if i + 1 == n {
            let ftoks = split_tokens(flags);
            let ghost base = args.deep_view();
            let mut k: usize = 0;
            proof {
                assert(args.deep_view() =~= base + ftoks.deep_view().subrange(0, 0));
            }
            while k < ftoks.len()
                invariant
                    k <= ftoks@.len(),
                    args.deep_view() == base + ftoks.deep_view().subrange(0, k as int),
                decreases ftoks@.len() - k,
            {
                let ghost pre = args.deep_view();
                args.push(ftoks[k].clone());
                proof {
                    assert(args.deep_view() =~= pre.push(ftoks.deep_view()[k as int]));
                    assert(args.deep_view() =~= base + ftoks.deep_view().subrange(0, k + 1));
                }
                k = k + 1;
            }
            proof {
                assert(ftoks.deep_view().subrange(0, ftoks.deep_view().len() as int)
                    =~= ftoks.deep_view());
                assert(args.deep_view() == base + ftoks.deep_view());
            }
        }
        let ghost rpre = r@;
        r.push(Invocation { program, args });
        proof {
            assert(r@[i as int].program@ == tokenize(plan.deep_view()[i as int])[0]);
            assert forall|k: int| 0 <= k < i + 1 implies invocation_matches(
                plan.deep_view(),
                flags@,
                k,
                (#[trigger] r@[k]).program@,
                r@[k].args.deep_view(),
            ) by {
                if k < i {
                    assert(r@[k] == rpre[k]);
                }
            }
        }
        i = i + 1;
    }
    r
}

/// Some execution plan exists for `root`.
pub open spec fn resolvable(cv: CatalogView, root: Seq<char>) -> bool {
    exists|plan: Seq<Seq<char>>| plan_ok(cv, root, plan)
}

/// What one run rooted at the non-empty task name `root` promises: a
/// resolution error certifies its cause exactly as in `resolve`; success or
/// an executor failure certifies that a correct plan existed and was
/// dispatched; an absent root or a reachable cycle is always reported.
pub open spec fn run_ensures(cv: CatalogView, root: Seq<char>, r: Result<(), JakeError>) -> bool {
    &&& (match r {
        Ok(()) => resolvable(cv, root),
        Err(e) => match e {
            JakeError::Exec(_) => resolvable(cv, root),
            JakeError::NoTasksDefined => false,
            _ => resolve_err_ok(cv, root, e),
        },
    })
    &&& (!has_name(cv, root) ==> (r matches Err(JakeError::TaskNotFound(n)) && n@ == root))
    &&& (all_reachable_ok(cv, root) && !acyclic_from(cv, root) ==> (
    r matches Err(JakeError::CircularDependency(_))))
    &&& (all_reachable_ok(cv, root) && acyclic_from(cv, root) ==> (r is Ok || r matches Err(
        JakeError::Exec(_),
    )))
}

/// Resolves the task named `task` and dispatches its plan in order through
/// `executor`, with `flags` appended only to the final command. An empty
/// task name is a no-op success; the first failure aborts the rest.
pub fn execute_command<E: Executor>(
    catalog: &TaskCatalog,
    task: &str,
    flags: &str,
    executor: &E,
) -> (r: Result<(), JakeError>)
    requires
        catalog.wf(),
        dispatchable(catalog@),
    ensures
        task@.len() == 0 ==> r is Ok,
        task@.len() > 0 ==> run_ensures(catalog@, task@, r),
{
    let ghost cv = catalog@;
    if task.is_empty() {
        return Ok(());
    }
    let plan = match resolve(catalog, task) {
        Ok(plan) => plan,
        Err(e) => {
            return Err(e);
        },
    };
    let ghost pd = plan.deep_view();
    proof {
        let names = choose|names: Seq<Seq<char>>| plan_matches(cv, task@, pd, names);
        assert(names.last() == task@ && task_ok(cv, names[names.len() - 1]));
        assert(has_name(cv, task@));
        assert forall|i: int| 0 <= i < pd.len() implies tokenize(#[trigger] pd[i]).len() > 0 by {
            assert(task_ok(cv, names[i]));
            assert(pd[i] == command_of(cv, names[i]));
        }
        if !acyclic_from(cv, task@) {
            let n = choose|n: Seq<char>| #[trigger] reaches(cv, task@, n) && on_cycle(cv, n);
            lemma_cycle_no_plan(cv, task@, n, pd);
            assert(false);
        }
    }
    let invocations = plan_invocations(&plan, flags);
    let count = invocations.len();
    let mut i: usize = 0;
    while i < count
        invariant
            i <= count,
            count == invocations@.len(),
            task@.len() > 0,
            cv == catalog@,
            plan_ok(cv, task@, pd),
            has_name(cv, task@),
            acyclic_from(cv, task@),
        decreases count - i,
    {
        match executor.execute(invocations[i].program.as_str(), &invocations[i].args) {
            Ok(()) => {},
            Err(e) => {
                return Err(JakeError::Exec(e));
            },
        }
        i = i + 1;
    }
    Ok(())
}

/// Runs the task literally named `default` if the catalog declares one,
/// otherwise the first declared task; an empty catalog has no tasks to run.
pub fn execute_default_command<E: Executor>(
    catalog: &TaskCatalog,
    flags: &str,
    executor: &E,
) -> (r: Result<(), JakeError>)
    requires
        catalog.wf(),
        dispatchable(catalog@),
    ensures
        catalog@.len() == 0 ==> (r matches Err(JakeError::NoTasksDefined)),
        catalog@.len() > 0 && has_name(catalog@, "default"@) ==> run_ensures(
            catalog@,
            "default"@,
            r,
        ),
        catalog@.len() > 0 && !has_name(catalog@, "default"@) && catalog@[0].0.len() > 0
            ==> run_ensures(catalog@, catalog@[0].0, r),
        catalog@.len() > 0 && !has_name(catalog@, "default"@) && catalog@[0].0.len() == 0
            ==> r is Ok,
{
    proof {
        reveal_strlit("default");
    }
    if catalog.contains("default") {
        proof {
            assert(catalog@.len() > 0) by {
                assert(has_name(catalog@, "default"@));
                let i = choose|i: int| 0 <= i < catalog@.len() && catalog@[i].0 == "default"@;
            }
        }
        execute_command(catalog, "default", flags, executor)
    } else {
        match catalog.first_task() {
            None => Err(JakeError::NoTasksDefined),
            Some(first) => execute_command(catalog, first.as_str(), flags, executor),
        }
    }
}

} // verus!
