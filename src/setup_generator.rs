//! Setup steps: keypairs and funding for the signers, then the PDAs to
//! create, in an order where each step follows the steps it needs.
use vstd::prelude::*;
use crate::account_order::clone_names;
use crate::errors::SolifyError;
use crate::graph::membership;
use crate::registry::{contains_name, names_of};
use crate::text::{chars_of, concat2, concat3, find_from, occurs_at, seq_contains, string_of_chars};
use crate::toposort::{
    blocked, covers_all, dependency_order, distinct_nodes, is_dependency_order, lemma_lowest_first_by,
    lowest_ready_first, lowest_ready_first_by, preds_in_range,
};
use crate::types::{AccountDependency, SetupRequirement, SetupType};

verus! {

/// Derives the setup steps from the account initialization order.
pub struct SetupGenerator;

/// A planned step: its kind, the account it takes care of, and the
/// accounts it needs first.
pub struct PlannedStep {
    pub kind: SetupType,
    pub target: Seq<char>,
    pub needs: Seq<Seq<char>>,
}

/// The entries that get a keypair: signers that are not PDAs, in order.
pub open spec fn keypair_accounts(deps: Seq<AccountDependency>) -> Seq<Seq<char>>
    decreases deps.len(),
{
    if deps.len() == 0 {
        seq![]
    } else {
        let rest = keypair_accounts(deps.drop_last());
        let d = deps.last();
        if d.is_signer && !d.is_pda { rest.push(d.account_name@) } else { rest }
    }
}

/// Some entry is named `x`.
pub open spec fn is_listed(deps: Seq<AccountDependency>, x: Seq<char>) -> bool {
    exists|k: int| 0 <= k < deps.len() && (#[trigger] deps[k]).account_name@ == x
}

/// The names of `names` other than `own` that name an entry, in order.
pub open spec fn listed_names(names: Seq<Seq<char>>, deps: Seq<AccountDependency>, own: Seq<char>) -> Seq<Seq<char>>
    decreases names.len(),
{
    if names.len() == 0 {
        seq![]
    } else {
        let rest = listed_names(names.drop_last(), deps, own);
        if is_listed(deps, names.last()) && names.last() != own { rest.push(names.last()) } else { rest }
    }
}

/// The PDA steps: one per PDA entry that must be created, needing the
/// other accounts it depends on that have an entry.
pub open spec fn pda_steps(prefix: Seq<AccountDependency>, deps: Seq<AccountDependency>) -> Seq<PlannedStep>
    decreases prefix.len(),
{
    if prefix.len() == 0 {
        seq![]
    } else {
        let rest = pda_steps(prefix.drop_last(), deps);
        let d = prefix.last();
        if d.is_pda && d.must_be_initialized {
            rest.push(
                PlannedStep {
                    kind: SetupType::InitializePda,
                    target: d.account_name@,
                    needs: listed_names(names_of(d.depends_on@), deps, d.account_name@),
                },
            )
        } else {
            rest
        }
    }
}

/// The planned steps before ordering: a keypair for each signer that is
/// not a PDA, funding for each of them, then the PDA steps.
pub open spec fn planned_steps(deps: Seq<AccountDependency>) -> Seq<PlannedStep> {
    let signers = keypair_accounts(deps);
    signers.map_values(|x: Seq<char>| PlannedStep { kind: SetupType::CreateKeypair, target: x, needs: seq![] })
        + signers.map_values(|x: Seq<char>| PlannedStep { kind: SetupType::FundAccount, target: x, needs: seq![x] })
        + pda_steps(deps, deps)
}

/// The text that describes a step.
pub open spec fn step_description(kind: SetupType, x: Seq<char>) -> Seq<char> {
    match kind {
        SetupType::CreateKeypair => "Create keypair for "@ + x,
        SetupType::FundAccount => "Fund "@ + x + " with SOL for transactions"@,
        _ => "Initialize "@ + x + " PDA"@,
    }
}

/// `r` is the requirement of the planned step `p`.
pub open spec fn requirement_of(r: SetupRequirement, p: PlannedStep) -> bool {
    &&& r.requirement_type == p.kind
    &&& r.target matches Some(t) && t@ == p.target
    &&& names_of(r.dependencies@) == p.needs
    &&& r.description@ == step_description(p.kind, p.target)
}

/// Step `j` is the first whose target is `x`.
pub open spec fn first_target(steps: Seq<PlannedStep>, x: Seq<char>, j: int) -> bool {
    0 <= j < steps.len() && steps[j].target == x && forall|j2: int| 0 <= j2 < j ==> (#[trigger] steps[j2]).target != x
}

/// Step `i` waits for step `j`: another step, the first that takes care
/// of an account `i` needs.
pub open spec fn step_waits_for(steps: Seq<PlannedStep>, i: int, j: int) -> bool {
    j != i && exists|x: Seq<char>| steps[i].needs.contains(x) && #[trigger] first_target(steps, x, j)
}

/// Step `i` waits for a step that `done` does not hold.
pub open spec fn left_waiting(steps: Seq<PlannedStep>, done: Seq<usize>, i: int) -> bool {
    exists|j: int| #[trigger] step_waits_for(steps, i, j) && !done.contains(j as usize)
}

/// `order` lists every step once: first, up to `k`, steps that each follow
/// the steps they wait for (lowest position first among the ready ones);
/// then, in position order, the steps left waiting on a cycle.
pub open spec fn setup_order(steps: Seq<PlannedStep>, order: Seq<usize>, k: int) -> bool {
    &&& distinct_nodes(order, steps.len())
    &&& covers_all(order, steps.len())
    &&& 0 <= k <= order.len()
    &&& forall|a: int, j: int|
        0 <= a < k && #[trigger] step_waits_for(steps, order[a] as int, j) ==> order.take(a).contains(j as usize)
    &&& forall|i: int|
        0 <= i < steps.len() && !order.take(k).contains(i as usize) ==> #[trigger] left_waiting(steps, order.take(k), i)
    &&& forall|a: int, b: int| k <= a < b < order.len() ==> order[a] < order[b]
    &&& lowest_ready_first_by(step_waits(steps), steps.len() as int, order.take(k))
}

/// Step `i` waits for step `j` (see `step_waits_for`).
pub open spec fn step_waits(steps: Seq<PlannedStep>) -> spec_fn(int, int) -> bool {
    |i: int, j: int| step_waits_for(steps, i, j)
}

/// `reqs` are the planned steps of `deps` in an order that `setup_order`
/// allows.
pub open spec fn setup_plan(deps: Seq<AccountDependency>, reqs: Seq<SetupRequirement>) -> bool {
    let steps = planned_steps(deps);
    exists|order: Seq<usize>, k: int|
        #![trigger setup_order(steps, order, k)]
        setup_order(steps, order, k) && reqs.len() == order.len() && forall|a: int|
            0 <= a < order.len() ==> requirement_of(#[trigger] reqs[a], steps[order[a] as int])
}

fn requirement(kind: SetupType, name: &String, dependencies: Vec<String>) -> (r: SetupRequirement)
    ensures
        r.requirement_type == kind,
        r.target matches Some(t) && t@ == name@,
        r.dependencies == dependencies,
        r.description@ == step_description(kind, name@),
{
    let description = match kind {
        SetupType::CreateKeypair => concat2("Create keypair for ", name.as_str()),
        SetupType::FundAccount => concat3("Fund ", name.as_str(), " with SOL for transactions"),
        _ => concat3("Initialize ", name.as_str(), " PDA"),
    };
    SetupRequirement { requirement_type: kind, description, dependencies, target: Some(name.clone()) }
}

/// The names of the signers that are not PDAs, in order.
fn keypair_names(deps: &Vec<AccountDependency>) -> (r: Vec<String>)
    ensures
        names_of(r@) == keypair_accounts(deps@),
{
    let mut r: Vec<String> = Vec::new();
    let mut i: usize = 0;
    while i < deps.len()
        invariant
            i <= deps@.len(),
            names_of(r@) == keypair_accounts(deps@.take(i as int)),
        decreases deps@.len() - i,
    {
        proof {
            assert(deps@.take(i + 1).drop_last() == deps@.take(i as int));
            assert(deps@.take(i + 1).last() == deps@[i as int]);
        }
        if deps[i].is_signer && !deps[i].is_pda {
            let ghost old_r = names_of(r@);
            r.push(deps[i].account_name.clone());
            proof {
                assert(names_of(r@) =~= old_r.push(deps@[i as int].account_name@));
            }
        }
        i = i + 1;
    }
    assert(deps@.take(deps@.len() as int) =~= deps@);
    r
}

/// Whether some entry is named `x`.
fn is_listed_name(deps: &Vec<AccountDependency>, x: &String) -> (r: bool)
    ensures
        r == is_listed(deps@, x@),
{
    let mut k: usize = 0;
    while k < deps.len()
        invariant
            k <= deps@.len(),
            forall|m: int| 0 <= m < k ==> (#[trigger] deps@[m]).account_name@ != x@,
        decreases deps@.len() - k,
    {
        if crate::text::str_eq(deps[k].account_name.as_str(), x.as_str()) {
            return true;
        }
        k = k + 1;
    }
    false
}

/// The names of `names` other than `own` that name an entry, in order.
fn listed_only(names: &Vec<String>, deps: &Vec<AccountDependency>, own: &String) -> (r: Vec<String>)
    ensures
        names_of(r@) == listed_names(names_of(names@), deps@, own@),
{
    let mut r: Vec<String> = Vec::new();
    let mut i: usize = 0;
    while i < names.len()
        invariant
            i <= names@.len(),
            names_of(r@) == listed_names(names_of(names@).take(i as int), deps@, own@),
        decreases names@.len() - i,
    {
        proof {
            assert(names_of(names@).take(i + 1).drop_last() == names_of(names@).take(i as int));
            assert(names_of(names@).take(i + 1).last() == names@[i as int]@);
        }
        if is_listed_name(deps, &names[i]) && !crate::text::str_eq(names[i].as_str(), own.as_str()) {
            let ghost old_r = names_of(r@);
            r.push(names[i].clone());
            proof {
                assert(names_of(r@) =~= old_r.push(names@[i as int]@));
            }
        }
        i = i + 1;
    }
    assert(names_of(names@).take(names@.len() as int) =~= names_of(names@));
    r
}

/// The requirements of the planned steps, in planned order.
fn planned_requirements(deps: &Vec<AccountDependency>) -> (r: Vec<SetupRequirement>)
    ensures
        r@.len() == planned_steps(deps@).len(),
        forall|a: int| 0 <= a < r@.len() ==> requirement_of(#[trigger] r@[a], planned_steps(deps@)[a]),
{
    let ghost steps = planned_steps(deps@);
    let ghost signers = keypair_accounts(deps@);
    let names = keypair_names(deps);
    let mut r: Vec<SetupRequirement> = Vec::new();
    let mut i: usize = 0;
    while i < names.len()
        invariant
            names_of(names@) == signers,
            signers == keypair_accounts(deps@),
            steps == planned_steps(deps@),
            i <= names@.len(),
            r@.len() == i,
            forall|a: int| 0 <= a < i ==> requirement_of(#[trigger] r@[a], steps[a]),
        decreases names@.len() - i,
    {
        r.push(requirement(SetupType::CreateKeypair, &names[i], Vec::new()));
        proof {
            assert(names_of(names@)[i as int] == names@[i as int]@);
            assert(names_of(r@[i as int].dependencies@) =~= seq![]);
        }
        i = i + 1;
    }
    let mut i: usize = 0;
    while i < names.len()
        invariant
            names_of(names@) == signers,
            signers == keypair_accounts(deps@),
            steps == planned_steps(deps@),
            i <= names@.len(),
            r@.len() == names@.len() + i,
            forall|a: int| 0 <= a < names@.len() + i ==> requirement_of(#[trigger] r@[a], steps[a]),
        decreases names@.len() - i,
    {
        let mut needs: Vec<String> = Vec::new();
        needs.push(names[i].clone());
        r.push(requirement(SetupType::FundAccount, &names[i], needs));
        proof {
            assert(names_of(names@)[i as int] == names@[i as int]@);
            assert(names_of(needs@) =~= seq![names@[i as int]@]);
        }
        i = i + 1;
    }
    let ghost base = r@.len();
    let mut k: usize = 0;
    proof {
        assert(pda_steps(deps@.take(0), deps@) =~= seq![]);
    }
    while k < deps.len()
        invariant
            steps == planned_steps(deps@),
            base == 2 * signers.len(),
            signers == keypair_accounts(deps@),
            k <= deps@.len(),
            r@.len() == base + pda_steps(deps@.take(k as int), deps@).len(),
            forall|a: int| 0 <= a < base ==> requirement_of(#[trigger] r@[a], steps[a]),
            forall|a: int|
                0 <= a < pda_steps(deps@.take(k as int), deps@).len() ==> requirement_of(
                    #[trigger] r@[base + a],
                    pda_steps(deps@.take(k as int), deps@)[a],
                ),
        decreases deps@.len() - k,
    {
        proof {
            assert(deps@.take(k + 1).drop_last() == deps@.take(k as int));
            assert(deps@.take(k + 1).last() == deps@[k as int]);
        }
        let d = &deps[k];
        if d.is_pda && d.must_be_initialized {
            let needs = listed_only(&d.depends_on, deps, &d.account_name);
            let ghost old_r = r@;
            r.push(requirement(SetupType::InitializePda, &d.account_name, needs));
            proof {
                assert forall|a: int| 0 <= a < base implies requirement_of(#[trigger] r@[a], steps[a]) by {
                    assert(r@[a] == old_r[a]);
                }
                let ps = pda_steps(deps@.take(k + 1), deps@);
                assert forall|a: int| 0 <= a < ps.len() implies requirement_of(#[trigger] r@[base + a], ps[a]) by {
                    if a < ps.len() - 1 {
                        assert(r@[base + a] == old_r[base + a]);
                    }
                }
            }
        }
        k = k + 1;
    }
    proof {
        assert(deps@.take(deps@.len() as int) =~= deps@);
        let c = signers.map_values(|x: Seq<char>| PlannedStep { kind: SetupType::CreateKeypair, target: x, needs: seq![] });
        let f = signers.map_values(|x: Seq<char>| PlannedStep { kind: SetupType::FundAccount, target: x, needs: seq![x] });
        assert forall|a: int| 0 <= a < r@.len() implies requirement_of(#[trigger] r@[a], steps[a]) by {
            if a >= base {
                let a2 = a - base;
                assert(c.len() + f.len() == base);
                assert(steps[a] == pda_steps(deps@, deps@)[a2]);
                assert(requirement_of(r@[base + a2], pda_steps(deps@, deps@)[a2]));
            }
        }
    }
    r
}

/// `ps` lists the steps other than `i` that first take care of one of the
/// first `t` needs of step `i`.
pub open spec fn waits_listed(ps: Seq<usize>, steps: Seq<PlannedStep>, i: int, t: int, n: int) -> bool {
    &&& forall|y: int| 0 <= y < ps.len() ==> (#[trigger] ps[y]) != i && ps[y] < n && needed_upto(steps, i, t, ps[y] as int)
    &&& forall|j: int| 0 <= j < n && j != i && #[trigger] needed_upto(steps, i, t, j) ==> ps.contains(j as usize)
}

/// Some need among the first `t` of step `i` is first taken care of by step `j`.
pub open spec fn needed_upto(steps: Seq<PlannedStep>, i: int, t: int, j: int) -> bool {
    exists|t2: int| 0 <= t2 < t && #[trigger] first_target(steps, steps[i].needs[t2], j)
}

proof fn lemma_first_target_unique(steps: Seq<PlannedStep>, x: Seq<char>, j: int, j2: int)
    requires
        first_target(steps, x, j),
        first_target(steps, x, j2),
    ensures
        j == j2,
{
    if j < j2 {
        assert(steps[j].target == x);
    }
    if j2 < j {
        assert(steps[j2].target == x);
    }
}

/// The position of the first requirement that takes care of `x`.
fn first_target_of(reqs: &Vec<SetupRequirement>, x: &String, deps: &Vec<AccountDependency>) -> (r: Option<usize>)
    requires
        reqs@.len() == planned_steps(deps@).len(),
        forall|a: int| 0 <= a < reqs@.len() ==> requirement_of(#[trigger] reqs@[a], planned_steps(deps@)[a]),
    ensures
        match r {
            Some(j) => first_target(planned_steps(deps@), x@, j as int),
            None => forall|j: int| 0 <= j < reqs@.len() ==> (#[trigger] planned_steps(deps@)[j]).target != x@,
        },
{
    let ghost steps = planned_steps(deps@);
    let mut j: usize = 0;
    while j < reqs.len()
        invariant
            steps == planned_steps(deps@),
            reqs@.len() == steps.len(),
            forall|a: int| 0 <= a < reqs@.len() ==> requirement_of(#[trigger] reqs@[a], steps[a]),
            j <= reqs@.len(),
            forall|j2: int| 0 <= j2 < j ==> (#[trigger] steps[j2]).target != x@,
        decreases reqs@.len() - j,
    {
        assert(requirement_of(reqs@[j as int], steps[j as int]));
        let hit = match &reqs[j].target {
            Some(t) => crate::text::str_eq(t.as_str(), x.as_str()),
            None => false,
        };
        if hit {
            return Some(j);
        }
        j = j + 1;
    }
    None
}

/// For each step, the steps it waits for.
fn step_preds(reqs: &Vec<SetupRequirement>, deps: &Vec<AccountDependency>) -> (preds: Vec<Vec<usize>>)
    requires
        reqs@.len() == planned_steps(deps@).len(),
        forall|a: int| 0 <= a < reqs@.len() ==> requirement_of(#[trigger] reqs@[a], planned_steps(deps@)[a]),
    ensures
        preds@.len() == reqs@.len(),
        preds_in_range(preds@),
        forall|i: int, j: int|
            0 <= i < preds@.len() && 0 <= j < preds@.len() ==> (preds@[i]@.contains(j as usize)
                <==> #[trigger] step_waits_for(planned_steps(deps@), i, j)),
{
    let ghost steps = planned_steps(deps@);
    let n = reqs.len();
    let mut preds: Vec<Vec<usize>> = Vec::new();
    let mut i: usize = 0;
    while i < n
        invariant
            steps == planned_steps(deps@),
            n == reqs@.len(),
            n == steps.len(),
            forall|a: int| 0 <= a < reqs@.len() ==> requirement_of(#[trigger] reqs@[a], steps[a]),
            i <= n,
            preds@.len() == i,
            forall|x: int, y: int| 0 <= x < i && 0 <= y < preds@[x]@.len() ==> (#[trigger] preds@[x]@[y]) < n,
            forall|x: int, j: int|
                0 <= x < i && 0 <= j < n ==> (preds@[x]@.contains(j as usize) <==> #[trigger] step_waits_for(steps, x, j)),
        decreases n - i,
    {
        let mut ps: Vec<usize> = Vec::new();
        let needs = &reqs[i].dependencies;
        proof {
            assert(requirement_of(reqs@[i as int], steps[i as int]));
        }
        let mut t: usize = 0;
        while t < needs.len()
            invariant
                steps == planned_steps(deps@),
                n == reqs@.len(),
                n == steps.len(),
                forall|a: int| 0 <= a < reqs@.len() ==> requirement_of(#[trigger] reqs@[a], steps[a]),
                i < n,
                names_of(needs@) == steps[i as int].needs,
                t <= needs@.len(),
                waits_listed(ps@, steps, i as int, t as int, n as int),
            decreases needs@.len() - t,
        {
            let ghost before = ps@;
            let found = first_target_of(reqs, &needs[t], deps);
            proof {
                assert(steps[i as int].needs[t as int] == needs@[t as int]@);
            }
            match found {
                Some(j) => {
                    if j != i {
                        ps.push(j);
                    }
                },
                None => {},
            }
            proof {
                assert forall|y: int| 0 <= y < ps@.len() implies (#[trigger] ps@[y]) != i && ps@[y] < n && needed_upto(steps, i as int, t + 1, ps@[y] as int) by {
                    if y < before.len() {
                        assert(before[y] == ps@[y]);
                        let t2 = choose|t2: int| 0 <= t2 < t && #[trigger] first_target(steps, steps[i as int].needs[t2], ps@[y] as int);
                    } else {
                        assert(found == Some(ps@[y]));
                        assert(first_target(steps, steps[i as int].needs[t as int], ps@[y] as int));
                    }
                }
                assert forall|j: int| 0 <= j < n && j != i && #[trigger] needed_upto(steps, i as int, t + 1, j) implies ps@.contains(j as usize) by {
                    let t2 = choose|t2: int| 0 <= t2 < t + 1 && #[trigger] first_target(steps, steps[i as int].needs[t2], j);
                    if t2 < t {
                        assert(needed_upto(steps, i as int, t as int, j));
                        let y = choose|y: int| 0 <= y < before.len() && before[y] == j as usize;
                        assert(ps@[y] == j as usize);
                    } else {
                        assert(steps[j].target == needs@[t as int]@);
                        if found is Some {
                            lemma_first_target_unique(steps, needs@[t as int]@, j, found->Some_0 as int);
                        }
                        assert(ps@[ps@.len() - 1] == j as usize);
                    }
                }
                assert(waits_listed(ps@, steps, i as int, t + 1, n as int));
            }

            t = t + 1;
        }
        proof {
            assert forall|j: int| 0 <= j < n implies (ps@.contains(j as usize) <==> step_waits_for(steps, i as int, j)) by {
                if step_waits_for(steps, i as int, j) {
                    let x = choose|x: Seq<char>| steps[i as int].needs.contains(x) && #[trigger] first_target(steps, x, j);
                    let t2 = choose|t2: int| 0 <= t2 < steps[i as int].needs.len() && steps[i as int].needs[t2] == x;
                    assert(needed_upto(steps, i as int, t as int, j));
                }
                if ps@.contains(j as usize) {
                    let y = choose|y: int| 0 <= y < ps@.len() && ps@[y] == j as usize;
                    assert(needed_upto(steps, i as int, t as int, ps@[y] as int));
                    let t2 = choose|t2: int| 0 <= t2 < t && #[trigger] first_target(steps, steps[i as int].needs[t2], j);
                    assert(steps[i as int].needs.contains(steps[i as int].needs[t2]));
                }
            }
        }
        let ghost old_preds = preds@;
        preds.push(ps);
        proof {
            assert forall|x: int, j: int|
                0 <= x < i + 1 && 0 <= j < n implies (preds@[x]@.contains(j as usize)
                <==> #[trigger] step_waits_for(steps, x, j)) by {
                if x < i {
                    assert(preds@[x] == old_preds[x]);
                }
            }
        }
        i = i + 1;
    }
    preds
}

/// A copy of a requirement.
fn copy_requirement(r: &SetupRequirement) -> (c: SetupRequirement)
    ensures
        c.requirement_type == r.requirement_type,
        c.description@ == r.description@,
        names_of(c.dependencies@) == names_of(r.dependencies@),
        match r.target {
            Some(t) => c.target matches Some(u) && u@ == t@,
            None => c.target is None,
        },
{
    let target = match &r.target {
        Some(t) => Some(t.clone()),
        None => None,
    };
    SetupRequirement {
        requirement_type: r.requirement_type,
        description: r.description.clone(),
        dependencies: clone_names(&r.dependencies),
        target,
    }
}

impl SetupGenerator {
    /// The setup steps for `account_dependencies` (see `setup_plan`): a
    /// keypair for each signer that is not a PDA, funding for each such
    /// signer, and a creation step for each PDA that must be created,
    /// needing the accounts it depends on that have an entry; then ordered
    /// so that each step follows the first step that takes care of each
    /// account it needs. It never fails.
    pub fn generate_setup_requirements(
        &self,
        account_dependencies: &Vec<AccountDependency>,
    ) -> (r: Result<Vec<SetupRequirement>, SolifyError>)
        ensures
            r matches Ok(reqs) && setup_plan(account_dependencies@, reqs@),
    {
        let ghost steps = planned_steps(account_dependencies@);
        let reqs = planned_requirements(account_dependencies);
        let n = reqs.len();
        let preds = step_preds(&reqs, account_dependencies);
        let mut order = dependency_order(&preds);
        let k = order.len();
        let ghost prefix = order@;
        let seen = membership(&order, n);
        let mut x: usize = 0;
        while x < n
            invariant
                n == steps.len(),
                n == preds@.len(),
                seen@.len() == n,
                forall|y: int| 0 <= y < n ==> (seen@[y] <==> prefix.contains(y as usize)),
                is_dependency_order(prefix, preds@),
                lowest_ready_first(prefix, preds@),
                k == prefix.len(),
                x <= n,
                order@.len() >= k,
                order@.take(k as int) == prefix,
                forall|a: int| k <= a < order@.len() ==> (#[trigger] order@[a]) < x && !prefix.contains(order@[a]),
                forall|a: int, b: int| k <= a < b < order@.len() ==> order@[a] < order@[b],
                forall|y: usize| y < x && !prefix.contains(y) ==> #[trigger] order@.contains(y),
            decreases n - x,
        {
            let ghost before = order@;
            if !seen[x] {
                order.push(x);
                proof {
                    assert(order@.take(k as int) =~= before.take(k as int));
                    assert forall|y: usize| y < x + 1 && !prefix.contains(y) implies #[trigger] order@.contains(y) by {
                        if y < x {
                            assert(before.contains(y));
                            let a = choose|a: int| 0 <= a < before.len() && before[a] == y;
                            assert(order@[a] == y);
                        } else {
                            assert(order@[order@.len() - 1] == y);
                        }
                    }
                }
            } else {
                proof {
                    assert forall|y: usize| y < x + 1 && !prefix.contains(y) implies #[trigger] order@.contains(y) by {
                        if y == x {
                            assert(prefix.contains(x));
                        }
                    }
                }
            }
            x = x + 1;
        }
        proof {
            lemma_setup_order(steps, preds@, prefix, order@, k as int);
        }
        let mut out: Vec<SetupRequirement> = Vec::new();
        let mut a: usize = 0;
        while a < order.len()
            invariant
                steps == planned_steps(account_dependencies@),
                n == reqs@.len(),
                n == steps.len(),
                distinct_nodes(order@, n as nat),
                forall|b: int| 0 <= b < reqs@.len() ==> requirement_of(#[trigger] reqs@[b], steps[b]),
                a <= order@.len(),
                out@.len() == a,
                forall|b: int| 0 <= b < a ==> requirement_of(#[trigger] out@[b], steps[order@[b] as int]),
            decreases order@.len() - a,
        {
            proof {
                assert(requirement_of(reqs@[order@[a as int] as int], steps[order@[a as int] as int]));
            }
            out.push(copy_requirement(&reqs[order[a]]));
            a = a + 1;
        }
        proof {
            assert(setup_order(steps, order@, k as int) && out@.len() == order@.len() && forall|b: int|
                0 <= b < order@.len() ==> requirement_of(#[trigger] out@[b], steps[order@[b] as int]));
        }
        Ok(out)
    }
}

proof fn lemma_setup_order(
    steps: Seq<PlannedStep>,
    preds: Seq<Vec<usize>>,
    prefix: Seq<usize>,
    order: Seq<usize>,
    k: int,
)
    requires
        preds.len() == steps.len(),
        steps.len() <= usize::MAX,
        preds_in_range(preds),
        forall|i: int, j: int|
            0 <= i < preds.len() && 0 <= j < preds.len() ==> (preds[i]@.contains(j as usize)
                <==> #[trigger] step_waits_for(steps, i, j)),
        is_dependency_order(prefix, preds),
        lowest_ready_first(prefix, preds),
        k == prefix.len(),
        order.len() >= k,
        order.take(k) == prefix,
        forall|a: int| k <= a < order.len() ==> (#[trigger] order[a]) < steps.len() && !prefix.contains(order[a]),
        forall|a: int, b: int| k <= a < b < order.len() ==> order[a] < order[b],
        forall|y: usize| y < steps.len() && !prefix.contains(y) ==> #[trigger] order.contains(y),
    ensures
        setup_order(steps, order, k),
{
    let n = steps.len();
    assert forall|x: int, y: int|
        0 <= x < preds.len() && 0 <= y < preds.len() implies (preds[x]@.contains(y as usize)
        <==> #[trigger] step_waits(steps)(x, y)) by {
        assert(preds[x]@.contains(y as usize) <==> step_waits_for(steps, x, y));
    }
    lemma_lowest_first_by(preds, step_waits(steps), prefix);
    assert(order.take(k) == prefix);
    assert forall|a: int| 0 <= a < order.len() implies (#[trigger] order[a]) < n by {
        if a < k {
            assert(prefix[a] == order[a]);
        }
    }
    assert forall|a: int, b: int| 0 <= a < b < order.len() implies order[a] != order[b] by {
        if b < k {
            assert(prefix[a] == order[a]);
            assert(prefix[b] == order[b]);
        } else if a < k {
            assert(prefix[a] == order[a]);
            assert(prefix.contains(order[a]));
        }
    }
    assert forall|j: usize| j < n implies #[trigger] order.contains(j) by {
        if !prefix.contains(j) {
        } else {
            let a = choose|a: int| 0 <= a < prefix.len() && prefix[a] == j;
            assert(order[a] == j);
        }
    }
    assert forall|a: int, j: int|
        0 <= a < k && #[trigger] step_waits_for(steps, order[a] as int, j) implies order.take(a).contains(j as usize) by {
        assert(order[a] == prefix[a]);
        let i = order[a] as int;
        lemma_waits_in_range(steps, i, j);
        assert(preds[i]@.contains(j as usize));
        let y = choose|y: int| 0 <= y < preds[i]@.len() && preds[i]@[y] == j as usize;
        assert(prefix.take(a).contains(#[trigger] preds[prefix[a] as int]@[y]));
        assert(order.take(a) =~= prefix.take(a));
    }
    assert forall|i: int|
        0 <= i < n && !order.take(k).contains(i as usize) implies #[trigger] left_waiting(steps, order.take(k), i) by {
        assert(prefix.contains(i as usize) || blocked(prefix, preds, i));
        let y = choose|y: int| 0 <= y < preds[i]@.len() && !prefix.contains(#[trigger] preds[i]@[y]);
        let j = preds[i]@[y] as int;
        assert(preds[i]@.contains(j as usize));
        assert(step_waits_for(steps, i, j));
    }
}

proof fn lemma_waits_in_range(steps: Seq<PlannedStep>, i: int, j: int)
    requires
        step_waits_for(steps, i, j),
    ensures
        0 <= j < steps.len(),
{
    let x = choose|x: Seq<char>| steps[i].needs.contains(x) && #[trigger] first_target(steps, x, j);
}

proof fn lemma_planned_kinds(deps: Seq<AccountDependency>, j: int)
    requires
        0 <= j < planned_steps(deps).len(),
    ensures
        j < keypair_accounts(deps).len() ==> planned_steps(deps)[j].kind == SetupType::CreateKeypair
            && planned_steps(deps)[j].needs.len() == 0,
        planned_steps(deps)[j].kind == SetupType::CreateKeypair ==> j < keypair_accounts(deps).len(),
{
    let signers = keypair_accounts(deps);
    let c = signers.map_values(|x: Seq<char>| PlannedStep { kind: SetupType::CreateKeypair, target: x, needs: seq![] });
    let f = signers.map_values(|x: Seq<char>| PlannedStep { kind: SetupType::FundAccount, target: x, needs: seq![x] });
    let steps = planned_steps(deps);
    if j >= c.len() + f.len() {
        lemma_pda_steps_kind(deps, deps, j - c.len() - f.len());
    }
}

proof fn lemma_pda_steps_kind(prefix: Seq<AccountDependency>, deps: Seq<AccountDependency>, j: int)
    requires
        0 <= j < pda_steps(prefix, deps).len(),
    ensures
        pda_steps(prefix, deps)[j].kind == SetupType::InitializePda,
    decreases prefix.len(),
{
    if j < pda_steps(prefix.drop_last(), deps).len() {
        lemma_pda_steps_kind(prefix.drop_last(), deps, j);
    }
}

/// `r` is a keypair step for the account `x`.
pub open spec fn keypair_step_for(r: SetupRequirement, x: Seq<char>) -> bool {
    r.requirement_type == SetupType::CreateKeypair && (r.target matches Some(t) && t@ == x)
}

/// In the setup steps of any account initialization order, each step that
/// needs an account with a keypair step comes after a keypair step for that
/// account: a signer's keypair precedes its funding and every PDA step that
/// needs it.
pub proof fn lemma_keypair_comes_first(deps: Seq<AccountDependency>, reqs: Seq<SetupRequirement>, b: int, x: Seq<char>)
    requires
        setup_plan(deps, reqs),
        0 <= b < reqs.len(),
        reqs[b].requirement_type != SetupType::CreateKeypair,
        names_of(reqs[b].dependencies@).contains(x),
        exists|a: int|
            0 <= a < reqs.len() && #[trigger] keypair_step_for(reqs[a], x),
    ensures
        exists|a: int|
            0 <= a < b && #[trigger] keypair_step_for(reqs[a], x),
{
    let steps = planned_steps(deps);
    let (order, k) = choose|order: Seq<usize>, k: int|
        #![trigger setup_order(steps, order, k)]
        setup_order(steps, order, k) && reqs.len() == order.len() && forall|a: int|
            0 <= a < order.len() ==> requirement_of(#[trigger] reqs[a], steps[order[a] as int]);
    let a0 = choose|a: int|
        0 <= a < reqs.len() && #[trigger] keypair_step_for(reqs[a], x);
    assert(requirement_of(reqs[a0], steps[order[a0] as int]));
    let c0 = order[a0] as int;
    assert(steps[c0].target == x);
    // the first step that takes care of `x` is a keypair step
    let p = |j: int| 0 <= j < steps.len() && steps[j].target == x;
    assert(p(c0));
    let j = crate::toposort::least_with(p, c0);
    lemma_planned_kinds(deps, c0);
    lemma_planned_kinds(deps, j);
    assert forall|j2: int| 0 <= j2 < j implies (#[trigger] steps[j2]).target != x by {
        assert(!p(j2));
    }
    assert(first_target(steps, x, j));
    let sb = order[b] as int;
    assert(requirement_of(reqs[b], steps[sb]));
    assert(steps[sb].needs.contains(x));
    assert(steps[j].kind == SetupType::CreateKeypair);
    assert(j != sb);
    assert(step_waits_for(steps, sb, j));
    // where `j` stands in the order
    let pos = if b < k {
        assert(order.take(b).contains(j as usize));
        let a = choose|a: int| 0 <= a < b && #[trigger] order.take(b)[a] == j as usize;
        a
    } else {
        if !order.take(k).contains(j as usize) {
            assert(left_waiting(steps, order.take(k), j));
            let y = choose|y: int| #[trigger] step_waits_for(steps, j, y) && !order.take(k).contains(y as usize);
            let z = choose|z: Seq<char>| steps[j].needs.contains(z) && #[trigger] first_target(steps, z, y);
        }
        let a = choose|a: int| 0 <= a < k && #[trigger] order.take(k)[a] == j as usize;
        a
    };
    assert(order[pos] == j as usize);
    assert(requirement_of(reqs[pos], steps[j]));
    assert(keypair_step_for(reqs[pos], x));
}

/// Requirement `r` takes care of the account `x`.
pub open spec fn takes_care_of(r: SetupRequirement, x: Seq<char>) -> bool {
    r.target matches Some(t) && t@ == x
}

/// Each requirement needs only accounts that an earlier one takes care of.
pub open spec fn flow_satisfied(reqs: Seq<SetupRequirement>) -> bool {
    forall|a: int, x: Seq<char>|
        0 <= a < reqs.len() && #[trigger] names_of(reqs[a].dependencies@).contains(x) ==> exists|b: int|
            0 <= b < a && #[trigger] takes_care_of(reqs[b], x)
}

/// `i` is the first position at or after `from` where `n` occurs in `h`.
pub open spec fn first_occurrence_from(h: Seq<char>, n: Seq<char>, from: int, i: int) -> bool {
    from <= i && occurs_at(h, n, i) && forall|k: int| from <= k < i ==> !#[trigger] occurs_at(h, n, k)
}

/// `p` is the text between the first occurrence of `n` in `h` and the next
/// one (or the end): the second piece of `h` split at `n`.
pub open spec fn second_piece(h: Seq<char>, n: Seq<char>, p: Seq<char>) -> bool {
    exists|i: int|
        #[trigger] first_occurrence_from(h, n, 0, i) && ((exists|j: int|
            #[trigger] first_occurrence_from(h, n, i + n.len(), j) && p == h.subrange(i + n.len(), j)) || (
        !(exists|j: int| #[trigger] occurs_at(h, n, j) && j >= i + n.len()) && p == h.subrange(
            i + n.len(),
            h.len() as int,
        )))
}

/// `w` is the text of `p` before its first space (all of `p` without one).
pub open spec fn first_word(p: Seq<char>, w: Seq<char>) -> bool {
    (exists|i: int| #[trigger] first_occurrence_from(p, " "@, 0, i) && w == p.subrange(0, i)) || (!seq_contains(
        p,
        " "@,
    ) && w == p)
}

/// The characters of `v` from `from` to `to`.
fn copy_range(v: &Vec<char>, from: usize, to: usize) -> (r: Vec<char>)
    requires
        from <= to <= v@.len(),
    ensures
        r@ == v@.subrange(from as int, to as int),
{
    let mut r: Vec<char> = Vec::new();
    let mut i: usize = from;
    while i < to
        invariant
            from <= i <= to,
            to <= v@.len(),
            r@ == v@.subrange(from as int, i as int),
        decreases to - i,
    {
        r.push(v[i]);
        proof {
            assert(r@ =~= v@.subrange(from as int, i + 1));
        }
        i = i + 1;
    }
    r
}

/// The second piece of `h` split at `n`, when `n` occurs in `h`.
fn split_second(h: &Vec<char>, n: &Vec<char>) -> (r: Option<Vec<char>>)
    ensures
        match r {
            Some(p) => second_piece(h@, n@, p@),
            None => !seq_contains(h@, n@),
        },
{
    match find_from(h, n, 0) {
        None => {
            assert forall|k: int| !occurs_at(h@, n@, k) by {
                if k < 0 {
                }
            }
            None
        },
        Some(i) => {
            assert(first_occurrence_from(h@, n@, 0, i as int));
            let hl = h.len();
            assert(i + n@.len() <= hl);
            let start = i + n.len();
            match find_from(h, n, start) {
                Some(j) => {
                    let p = copy_range(h, start, j);
                    assert(first_occurrence_from(h@, n@, start as int, j as int));
                    Some(p)
                },
                None => {
                    let p = copy_range(h, start, h.len());
                    Some(p)
                },
            }
        },
    }
}

impl SetupGenerator {
    /// `Ok(true)` when each requirement needs only accounts that an
    /// earlier requirement takes care of; otherwise
    /// `DependencyAnalysisFailed`, naming the first account that is needed
    /// too early.
    pub fn validate_setup_flow(&self, requirements: &Vec<SetupRequirement>) -> (r: Result<bool, SolifyError>)
        ensures
            r is Ok <==> flow_satisfied(requirements@),
            r matches Ok(b) ==> b,
            r matches Err(e) ==> e is DependencyAnalysisFailed,
    {
        let mut satisfied: Vec<String> = Vec::new();
        let mut a: usize = 0;
        while a < requirements.len()
            invariant
                a <= requirements@.len(),
                forall|x: Seq<char>| #[trigger] names_of(satisfied@).contains(x) <==> exists|b: int|
                    0 <= b < a && #[trigger] takes_care_of(requirements@[b], x),
                forall|a2: int, x: Seq<char>|
                    0 <= a2 < a && #[trigger] names_of(requirements@[a2].dependencies@).contains(x) ==> exists|b: int|
                        0 <= b < a2 && #[trigger] takes_care_of(requirements@[b], x),
            decreases requirements@.len() - a,
        {
            let req = &requirements[a];
            let mut d: usize = 0;
            while d < req.dependencies.len()
                invariant
                    a < requirements@.len(),
                    *req == requirements@[a as int],
                    d <= req.dependencies@.len(),
                    forall|x: Seq<char>| #[trigger] names_of(satisfied@).contains(x) <==> exists|b: int|
                        0 <= b < a && #[trigger] takes_care_of(requirements@[b], x),
                    forall|e: int| 0 <= e < d ==> names_of(satisfied@).contains((#[trigger] req.dependencies@[e])@),
                decreases req.dependencies@.len() - d,
            {
                if !contains_name(&satisfied, &req.dependencies[d]) {
                    proof {
                        let x = req.dependencies@[d as int]@;
                        assert(names_of(req.dependencies@)[d as int] == x);
                        assert(names_of(requirements@[a as int].dependencies@).contains(x));
                        assert(!(exists|b: int| 0 <= b < a && #[trigger] takes_care_of(requirements@[b], x)));
                    }
                    return Err(SolifyError::DependencyAnalysisFailed(
                        concat2("Dependency not satisfied: ", req.dependencies[d].as_str()),
                    ));
                }
                d = d + 1;
            }
            let ghost old_sat = names_of(satisfied@);
            if let Some(t) = &req.target {
                satisfied.push(t.clone());
                proof {
                    assert(names_of(satisfied@) =~= old_sat.push(t@));
                }
            }
            proof {
                assert forall|x: Seq<char>| #[trigger] names_of(satisfied@).contains(x) <==> exists|b: int|
                    0 <= b < a + 1 && #[trigger] takes_care_of(requirements@[b], x) by {
                    if names_of(satisfied@).contains(x) && !old_sat.contains(x) {
                        assert(takes_care_of(requirements@[a as int], x));
                    }
                    if old_sat.contains(x) {
                        let b = choose|b: int| 0 <= b < a && #[trigger] takes_care_of(requirements@[b], x);
                        let k = choose|k: int| 0 <= k < old_sat.len() && old_sat[k] == x;
                        assert(names_of(satisfied@)[k] == x);
                    }
                    if exists|b: int| 0 <= b < a + 1 && #[trigger] takes_care_of(requirements@[b], x) {
                        let b = choose|b: int| 0 <= b < a + 1 && #[trigger] takes_care_of(requirements@[b], x);
                        if b == a {
                            assert(names_of(satisfied@)[names_of(satisfied@).len() - 1] == x);
                        }
                    }
                }
                assert forall|a2: int, x: Seq<char>|
                    0 <= a2 < a + 1 && #[trigger] names_of(requirements@[a2].dependencies@).contains(x) implies exists|b: int|
                        0 <= b < a2 && #[trigger] takes_care_of(requirements@[b], x) by {
                    if a2 == a {
                        let e = choose|e: int| 0 <= e < req.dependencies@.len() && names_of(req.dependencies@)[e] == x;
                        assert(old_sat.contains(req.dependencies@[e]@));
                    }
                }
            }
            a = a + 1;
        }
        Ok(true)
    }

    /// The account that a setup description names: the text after the
    /// first `for ` (up to a following `for `), or else the first word
    /// after the first `Initialize ` (up to a following `Initialize `);
    /// `None` when the description holds neither.
    pub fn extract_target_from_description(&self, description: &str) -> (r: Option<String>)
        ensures
            match r {
                Some(t) => (seq_contains(description@, "for "@) && second_piece(description@, "for "@, t@)) || (
                !seq_contains(description@, "for "@) && exists|p: Seq<char>|
                    #[trigger] second_piece(description@, "Initialize "@, p) && first_word(p, t@)),
                None => !seq_contains(description@, "for "@) && !seq_contains(description@, "Initialize "@),
            },
    {
        let d = chars_of(description);
        let after_for = chars_of("for ");
        match split_second(&d, &after_for) {
            Some(p) => {
                return Some(string_of_chars(p.as_slice()));
            },
            None => {},
        }
        let init = chars_of("Initialize ");
        match split_second(&d, &init) {
            Some(p) => {
                let space = chars_of(" ");
                match find_from(&p, &space, 0) {
                    Some(i) => {
                        let w = copy_range(&p, 0, i);
                        proof {
                            assert(first_occurrence_from(p@, " "@, 0, i as int));
                        }
                        Some(string_of_chars(w.as_slice()))
                    },
                    None => {
                        proof {
                            assert forall|k: int| !occurs_at(p@, " "@, k) by {
                                if k < 0 {
                                }
                            }
                            assert(p@.subrange(0, p@.len() as int) =~= p@);
                        }
                        Some(string_of_chars(p.as_slice()))
                    },
                }
            },
            None => None,
        }
    }
}

} // verus!
