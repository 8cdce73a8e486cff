//! Account initialization order: the accounts that instructions create, in
//! the order of a topological order of the instructions, then the accounts
//! that no instruction creates.
use vstd::prelude::*;
use crate::errors::SolifyError;
use crate::graph::{
    first_missing, graph_lowest_first, graph_order, has_cycle, instruction_order, membership, DependencyGraph,
    InstructionNode,
};
use crate::registry::{
    contains_name, has_name, name_index, names_of, AccountInfo, AccountRegistry, ConstraintInfo, ConstraintType,
    SeedInfo, SeedType,
};
use crate::toposort::{
    covers_all, dependency_order, is_dependency_order, lemma_cycle_blocks_order, lemma_left_out_means_cycle,
    pred_cycle, pred_within, preds_in_range, respects_preds,
};
use crate::types::AccountDependency;

verus! {

/// Orders accounts for initialization.
pub struct AccountOrder;

/// The names of `names` that the registry knows, in order.
pub open spec fn known_names(names: Seq<Seq<char>>, accts: Seq<AccountInfo>) -> Seq<Seq<char>>
    decreases names.len(),
{
    if names.len() == 0 {
        seq![]
    } else {
        let rest = known_names(names.drop_last(), accts);
        if has_name(accts, names.last()) { rest.push(names.last()) } else { rest }
    }
}

/// The known accounts that the nodes at the positions of `order` create,
/// node by node.
pub open spec fn ordered_init_names(
    nodes: Seq<InstructionNode>,
    order: Seq<usize>,
    accts: Seq<AccountInfo>,
) -> Seq<Seq<char>>
    decreases order.len(),
{
    if order.len() == 0 {
        seq![]
    } else {
        ordered_init_names(nodes, order.drop_last(), accts) + known_names(
            names_of(nodes[order.last() as int].initializes@),
            accts,
        )
    }
}

/// The records that no instruction creates, in registry order.
pub open spec fn external_records(accts: Seq<AccountInfo>) -> Seq<AccountInfo>
    decreases accts.len(),
{
    if accts.len() == 0 {
        seq![]
    } else {
        let rest = external_records(accts.drop_last());
        if accts.last().initialized_by is None { rest.push(accts.last()) } else { rest }
    }
}

/// The values of the account-key seeds, in order.
pub open spec fn key_seed_values(seeds: Seq<SeedInfo>) -> Seq<Seq<char>>
    decreases seeds.len(),
{
    if seeds.len() == 0 {
        seq![]
    } else {
        let rest = key_seed_values(seeds.drop_last());
        if seeds.last().seed_type == SeedType::AccountKey { rest.push(seeds.last().value@) } else { rest }
    }
}

/// The targets of the has-one constraints that carry one, in order.
pub open spec fn has_one_targets(cs: Seq<ConstraintInfo>) -> Seq<Seq<char>>
    decreases cs.len(),
{
    if cs.len() == 0 {
        seq![]
    } else {
        let rest = has_one_targets(cs.drop_last());
        let c = cs.last();
        if c.constraint_type == ConstraintType::HasOne && c.value is Some {
            rest.push(c.value->Some_0@)
        } else {
            rest
        }
    }
}

/// What an account depends on: its account-key seeds, then its has-one
/// targets.
pub open spec fn account_deps(a: AccountInfo) -> Seq<Seq<char>> {
    key_seed_values(a.seeds@) + has_one_targets(a.constraints@)
}

/// An initialization position: `t`, saturating at 255.
pub open spec fn ordinal(t: int) -> u8 {
    if t < 255 { t as u8 } else { 255 }
}

/// `d` is the entry of record `a` at position `t`; `created` tells whether
/// it comes from an instruction that creates it.
pub open spec fn entry_for(d: AccountDependency, a: AccountInfo, t: int, created: bool) -> bool {
    &&& d.account_name@ == a.name@
    &&& names_of(d.depends_on@) == (if created { account_deps(a) } else { seq![] })
    &&& d.is_pda == a.is_pda
    &&& d.is_signer == a.is_signer
    &&& d.is_mut == a.is_mut
    &&& d.must_be_initialized == (created && a.initialized_by is Some)
    &&& d.initialization_order == ordinal(t)
}

/// `deps` is the initialization order that the instruction order `order`
/// gives: the known accounts that each node creates, node by node, then
/// the records that no instruction creates.
pub open spec fn dependencies_for(
    deps: Seq<AccountDependency>,
    nodes: Seq<InstructionNode>,
    order: Seq<usize>,
    accts: Seq<AccountInfo>,
) -> bool {
    let created = ordered_init_names(nodes, order, accts);
    let ext = external_records(accts);
    &&& deps.len() == created.len() + ext.len()
    &&& forall|t: int|
        0 <= t < created.len() ==> entry_for(#[trigger] deps[t], accts[name_index(accts, created[t])], t, true)
    &&& forall|u: int|
        0 <= u < ext.len() ==> entry_for(
            #[trigger] deps[created.len() + u],
            ext[u],
            created.len() + u,
            false,
        )
}

/// The names in `v`, as new strings.
pub(crate) fn clone_names(v: &Vec<String>) -> (r: Vec<String>)
    ensures
        names_of(r@) == names_of(v@),
{
    let mut r: Vec<String> = Vec::new();
    let mut i: usize = 0;
    while i < v.len()
        invariant
            i <= v@.len(),
            names_of(r@) == names_of(v@.take(i as int)),
        decreases v@.len() - i,
    {
        let ghost old_r = r@;
        r.push(v[i].clone());
        proof {
            assert(v@.take(i + 1) =~= v@.take(i as int).push(v@[i as int]));
            assert(names_of(r@) =~= names_of(old_r).push(v@[i as int]@));
            assert(names_of(v@.take(i + 1)) =~= names_of(v@.take(i as int)).push(v@[i as int]@));
        }
        i = i + 1;
    }
    assert(v@.take(v@.len() as int) =~= v@);
    r
}

fn entry(a: &AccountInfo, depends_on: Vec<String>, created: bool, ord: u8) -> (d: AccountDependency)
    ensures
        d.account_name@ == a.name@,
        d.depends_on == depends_on,
        d.is_pda == a.is_pda,
        d.is_signer == a.is_signer,
        d.is_mut == a.is_mut,
        d.must_be_initialized == (created && a.initialized_by is Some),
        d.initialization_order == ord,
{
    AccountDependency {
        account_name: a.name.clone(),
        depends_on,
        is_pda: a.is_pda,
        is_signer: a.is_signer,
        is_mut: a.is_mut,
        must_be_initialized: created && a.initialized_by.is_some(),
        initialization_order: ord,
    }
}

proof fn lemma_ordered_take(nodes: Seq<InstructionNode>, order: Seq<usize>, accts: Seq<AccountInfo>, a: int)
    requires
        0 <= a < order.len(),
    ensures
        ordered_init_names(nodes, order.take(a + 1), accts) == ordered_init_names(nodes, order.take(a), accts)
            + known_names(names_of(nodes[order[a] as int].initializes@), accts),
{
    assert(order.take(a + 1).drop_last() == order.take(a));
    assert(order.take(a + 1).last() == order[a]);
}

proof fn lemma_known_take(names: Seq<Seq<char>>, accts: Seq<AccountInfo>, c: int)
    requires
        0 <= c < names.len(),
    ensures
        known_names(names.take(c + 1), accts) == if has_name(accts, names[c]) {
            known_names(names.take(c), accts).push(names[c])
        } else {
            known_names(names.take(c), accts)
        },
{
    assert(names.take(c + 1).drop_last() == names.take(c));
    assert(names.take(c + 1).last() == names[c]);
}

proof fn lemma_external_take(accts: Seq<AccountInfo>, k: int)
    requires
        0 <= k < accts.len(),
    ensures
        external_records(accts.take(k + 1)) == if accts[k].initialized_by is None {
            external_records(accts.take(k)).push(accts[k])
        } else {
            external_records(accts.take(k))
        },
{
    assert(accts.take(k + 1).drop_last() == accts.take(k));
    assert(accts.take(k + 1).last() == accts[k]);
}

fn next_ordinal(ord: u8) -> (r: u8)
    ensures
        r == (if ord < 255 { (ord + 1) as u8 } else { 255u8 }),
{
    if ord < 255 { ord + 1 } else { 255 }
}

impl AccountOrder {
    /// The initialization order of the accounts (see `dependencies_for`):
    /// the known accounts that each instruction creates, following a
    /// topological order of the instructions (lowest position first among
    /// the ready ones), then the records that no instruction creates, in
    /// registry order. Positions count from 0 and saturate at 255.
    /// Fails with `CircularDependency` when the graph has a cycle, and only
    /// then.
    pub fn generate_account_dependencies(
        &self,
        graph: &DependencyGraph,
        registry: &AccountRegistry,
    ) -> (r: Result<Vec<AccountDependency>, SolifyError>)
        requires
            registry.wf(),
        ensures
            match r {
                Ok(deps) => exists|order: Seq<usize>|
                    graph_order(*graph, order) && graph_lowest_first(*graph, order) && dependencies_for(
                        deps@,
                        graph.nodes@,
                        order,
                        registry.accounts@,
                    ),
                Err(e) => e == SolifyError::CircularDependency && has_cycle(*graph),
            },
    {
        let order = match instruction_order(graph) {
            Ok(order) => order,
            Err(e) => {
                return Err(e);
            },
        };
        let ghost nodes = graph.nodes@;
        let ghost accts = registry.accounts@;
        let mut deps: Vec<AccountDependency> = Vec::new();
        let mut ord: u8 = 0;
        let mut a: usize = 0;
        proof {
            assert(ordered_init_names(nodes, order@.take(0), accts) =~= seq![]);
        }
        while a < order.len()
            invariant
                registry.wf(),
                nodes == graph.nodes@,
                accts == registry.accounts@,
                graph_order(*graph, order@),
                graph_lowest_first(*graph, order@),
                a <= order@.len(),
                deps@.len() == ordered_init_names(nodes, order@.take(a as int), accts).len(),
                forall|t: int|
                    0 <= t < deps@.len() ==> entry_for(
                        #[trigger] deps@[t],
                        accts[name_index(accts, ordered_init_names(nodes, order@.take(a as int), accts)[t])],
                        t,
                        true,
                    ),
                ord == ordinal(deps@.len() as int),
            decreases order@.len() - a,
        {
            let node = &graph.nodes[order[a]];
            let ghost base = ordered_init_names(nodes, order@.take(a as int), accts);
            let ghost inames = names_of(node.initializes@);
            let mut c: usize = 0;
            proof {
                assert(base + known_names(inames.take(0), accts) =~= base);
            }
            while c < node.initializes.len()
                invariant
                    registry.wf(),
                    accts == registry.accounts@,
                    inames == names_of(node.initializes@),
                    c <= node.initializes@.len(),
                    deps@.len() == (base + known_names(inames.take(c as int), accts)).len(),
                    forall|t: int|
                        0 <= t < deps@.len() ==> entry_for(
                            #[trigger] deps@[t],
                            accts[name_index(accts, (base + known_names(inames.take(c as int), accts))[t])],
                            t,
                            true,
                        ),
                    ord == ordinal(deps@.len() as int),
                decreases node.initializes@.len() - c,
            {
                proof {
                    lemma_known_take(inames, accts, c as int);
                }
                let ghost prev = base + known_names(inames.take(c as int), accts);
                match registry.get_account(node.initializes[c].as_str()) {
                    Some(acc) => {
                        let ghost old_deps = deps@;
                        let depends_on = self.get_account_dependencies(acc);
                        let d = entry(acc, depends_on, true, ord);
                        deps.push(d);
                        ord = next_ordinal(ord);
                        proof {
                            let cur = base + known_names(inames.take(c + 1), accts);
                            assert(cur =~= prev.push(inames[c as int]));
                            assert forall|t: int| 0 <= t < deps@.len() implies entry_for(
                                #[trigger] deps@[t],
                                accts[name_index(accts, cur[t])],
                                t,
                                true,
                            ) by {
                                if t < old_deps.len() {
                                    assert(deps@[t] == old_deps[t]);
                                    assert(cur[t] == prev[t]);
                                }
                            }
                        }
                    },
                    None => {
                        proof {
                            assert(base + known_names(inames.take(c + 1), accts) =~= prev);
                        }
                    },
                }
                c = c + 1;
            }
            proof {
                assert(inames.take(c as int) =~= inames);
                lemma_ordered_take(nodes, order@, accts, a as int);
            }
            a = a + 1;
        }
        assert(order@.take(order@.len() as int) =~= order@);
        let ghost created = ordered_init_names(nodes, order@, accts);
        let mut k: usize = 0;
        proof {
            assert(external_records(accts.take(0)) =~= seq![]);
        }
        while k < registry.accounts.len()
            invariant
                registry.wf(),
                accts == registry.accounts@,
                k <= accts.len(),
                deps@.len() == created.len() + external_records(accts.take(k as int)).len(),
                forall|t: int|
                    0 <= t < created.len() ==> entry_for(
                        #[trigger] deps@[t],
                        accts[name_index(accts, created[t])],
                        t,
                        true,
                    ),
                forall|u: int|
                    0 <= u < external_records(accts.take(k as int)).len() ==> entry_for(
                        #[trigger] deps@[created.len() + u],
                        external_records(accts.take(k as int))[u],
                        created.len() + u,
                        false,
                    ),
                ord == ordinal(deps@.len() as int),
            decreases accts.len() - k,
        {
            proof {
                lemma_external_take(accts, k as int);
            }
            let acc = &registry.accounts[k];
            if acc.initialized_by.is_none() {
                let ghost old_deps = deps@;
                let d = entry(acc, Vec::new(), false, ord);
                deps.push(d);
                ord = next_ordinal(ord);
                proof {
                    let ext = external_records(accts.take(k + 1));
                    assert(names_of(d.depends_on@) =~= seq![]);
                    assert forall|t: int| 0 <= t < created.len() implies entry_for(
                        #[trigger] deps@[t],
                        accts[name_index(accts, created[t])],
                        t,
                        true,
                    ) by {
                        assert(deps@[t] == old_deps[t]);
                    }
                    assert forall|u: int| 0 <= u < ext.len() implies entry_for(
                        #[trigger] deps@[created.len() + u],
                        ext[u],
                        created.len() + u,
                        false,
                    ) by {
                        if u < ext.len() - 1 {
                            assert(deps@[created.len() + u] == old_deps[created.len() + u]);
                        }
                    }
                }
            }
            k = k + 1;
        }
        assert(accts.take(accts.len() as int) =~= accts);
        Ok(deps)
    }

    /// What `account` depends on: the values of its account-key seeds, then
    /// the targets of its has-one constraints.
    pub fn get_account_dependencies(&self, account: &AccountInfo) -> (r: Vec<String>)
        ensures
            names_of(r@) == account_deps(*account),
    {
        let mut r: Vec<String> = Vec::new();
        let mut i: usize = 0;
        while i < account.seeds.len()
            invariant
                i <= account.seeds@.len(),
                names_of(r@) == key_seed_values(account.seeds@.take(i as int)),
            decreases account.seeds@.len() - i,
        {
            proof {
                assert(account.seeds@.take(i + 1).drop_last() == account.seeds@.take(i as int));
            }
            if account.seeds[i].seed_type == SeedType::AccountKey {
                r.push(account.seeds[i].value.clone());
                proof {
                    assert(names_of(r@) =~= names_of(r@.drop_last()).push(account.seeds@[i as int].value@));
                }
            }
            i = i + 1;
        }
        assert(account.seeds@.take(account.seeds@.len() as int) =~= account.seeds@);
        let ghost seed_part = names_of(r@);
        let mut k: usize = 0;
        while k < account.constraints.len()
            invariant
                k <= account.constraints@.len(),
                seed_part == key_seed_values(account.seeds@),
                names_of(r@) == seed_part + has_one_targets(account.constraints@.take(k as int)),
            decreases account.constraints@.len() - k,
        {
            proof {
                assert(account.constraints@.take(k + 1).drop_last() == account.constraints@.take(k as int));
                assert(account.constraints@.take(k + 1).last() == account.constraints@[k as int]);
            }
            let ghost old_r = names_of(r@);
            let c = &account.constraints[k];
            if c.constraint_type == ConstraintType::HasOne {
                if let Some(v) = &c.value {
                    r.push(v.clone());
                    proof {
                        assert(names_of(r@) =~= old_r.push(v@));
                        assert(seed_part + has_one_targets(account.constraints@.take(k + 1)) =~= names_of(r@));
                    }
                }
            }
            k = k + 1;
        }
        assert(account.constraints@.take(account.constraints@.len() as int) =~= account.constraints@);
        r
    }
}

/// Entry `i` depends on the account of entry `j`.
#[verifier::opaque]
pub open spec fn depends_on_entry(deps: Seq<AccountDependency>, j: int, i: int) -> bool {
    names_of(deps[i].depends_on@).contains(deps[j].account_name@)
}

/// The entries of `s` (a non-empty set) each depend on an entry of `s`,
/// so the accounts depend on one another in a cycle.
pub open spec fn account_cycle(deps: Seq<AccountDependency>, s: Set<int>) -> bool {
    &&& exists|j: int| s.contains(j)
    &&& forall|j: int| #[trigger] s.contains(j) ==> 0 <= j < deps.len()
    &&& forall|i: int| s.contains(i) ==> #[trigger] depends_within(deps, s, i)
}

/// Entry `i` depends on an entry of `s`.
pub open spec fn depends_within(deps: Seq<AccountDependency>, s: Set<int>, i: int) -> bool {
    exists|j: int| s.contains(j) && #[trigger] depends_on_entry(deps, j, i)
}

/// The accounts depend on one another in a cycle.
pub open spec fn has_account_cycle(deps: Seq<AccountDependency>) -> bool {
    exists|s: Set<int>| account_cycle(deps, s)
}

/// For each entry, the entries whose account it depends on.
fn entry_preds(deps: &Vec<AccountDependency>) -> (preds: Vec<Vec<usize>>)
    ensures
        preds_of_entries(deps@, preds@),
{
    let n = deps.len();
    let mut preds: Vec<Vec<usize>> = Vec::new();
    let mut i: usize = 0;
    while i < n
        invariant
            n == deps@.len(),
            i <= n,
            preds@.len() == i,
            forall|x: int, y: int| 0 <= x < i && 0 <= y < preds@[x]@.len() ==> (#[trigger] preds@[x]@[y]) < n,
            forall|x: int, j: int|
                0 <= x < i && 0 <= j < n ==> (preds@[x]@.contains(j as usize) <==> #[trigger] depends_on_entry(
                    deps@,
                    j,
                    x,
                )),
        decreases n - i,
    {
        let mut ps: Vec<usize> = Vec::new();
        let mut j: usize = 0;
        while j < n
            invariant
                n == deps@.len(),
                i < n,
                j <= n,
                forall|y: int| 0 <= y < ps@.len() ==> (#[trigger] ps@[y]) < j,
                forall|x: int| 0 <= x < n ==> (ps@.contains(x as usize) <==> (x < j && #[trigger] depends_on_entry(
                    deps@,
                    x,
                    i as int,
                ))),
            decreases n - j,
        {
            let ghost before = ps@;
            proof {
                reveal(depends_on_entry);
            }
            if contains_name(&deps[i].depends_on, &deps[j].account_name) {
                ps.push(j);
            }
            proof {
                assert forall|x: int| 0 <= x < n implies (ps@.contains(x as usize) <==> (x < j + 1
                    && #[trigger] depends_on_entry(deps@, x, i as int))) by {
                    if ps@.contains(x as usize) {
                        let y = choose|y: int| 0 <= y < ps@.len() && ps@[y] == x as usize;
                        if y < before.len() {
                            assert(before[y] == x as usize);
                        }
                    }
                    if x < j && depends_on_entry(deps@, x, i as int) {
                        let y = choose|y: int| 0 <= y < before.len() && before[y] == x as usize;
                        assert(ps@[y] == x as usize);
                    }
                    if x == j && depends_on_entry(deps@, x, i as int) {
                        assert(ps@[ps@.len() - 1] == x as usize);
                    }
                }
            }
            j = j + 1;
        }
        let ghost old_preds = preds@;
        preds.push(ps);
        proof {
            assert forall|x: int, j: int|
                0 <= x < i + 1 && 0 <= j < n implies (preds@[x]@.contains(j as usize)
                <==> #[trigger] depends_on_entry(deps@, j, x)) by {
                if x < i {
                    assert(preds@[x] == old_preds[x]);
                }
            }
        }
        i = i + 1;
    }
    preds
}

/// `preds` lists, for each entry, the entries whose account it depends on.
pub open spec fn preds_of_entries(deps: Seq<AccountDependency>, preds: Seq<Vec<usize>>) -> bool {
    &&& preds.len() == deps.len()
    &&& preds_in_range(preds)
    &&& forall|i: int, j: int|
        0 <= i < deps.len() && 0 <= j < deps.len() ==> (preds[i]@.contains(j as usize)
            <==> #[trigger] depends_on_entry(deps, j, i))
}

proof fn lemma_account_cycle_is_pred_cycle(deps: Seq<AccountDependency>, preds: Seq<Vec<usize>>, s: Set<int>)
    requires
        preds_of_entries(deps, preds),
        account_cycle(deps, s),
    ensures
        pred_cycle(preds, s),
{
    assert forall|i: int| s.contains(i) implies #[trigger] pred_within(preds, s, i) by {
        assert(depends_within(deps, s, i));
        let j = choose|j: int| s.contains(j) && #[trigger] depends_on_entry(deps, j, i);
        assert(0 <= i < deps.len());
        assert(0 <= j < deps.len());
        assert(preds[i]@.contains(j as usize));
    }
}

proof fn lemma_complete_means_no_account_cycle(
    deps: Seq<AccountDependency>,
    preds: Seq<Vec<usize>>,
    order: Seq<usize>,
)
    requires
        deps.len() <= usize::MAX,
        preds_of_entries(deps, preds),
        respects_preds(order, preds),
        covers_all(order, deps.len()),
    ensures
        !has_account_cycle(deps),
{
    assert forall|s: Set<int>| !account_cycle(deps, s) by {
        if account_cycle(deps, s) {
            lemma_account_cycle_is_pred_cycle(deps, preds, s);
            lemma_cycle_blocks_order(preds, order, s);
        }
    }
}

proof fn lemma_left_out_means_account_cycle(
    deps: Seq<AccountDependency>,
    preds: Seq<Vec<usize>>,
    order: Seq<usize>,
    m: int,
)
    requires
        preds_of_entries(deps, preds),
        is_dependency_order(order, preds),
        0 <= m < deps.len(),
        !order.contains(m as usize),
    ensures
        has_account_cycle(deps),
{
    lemma_left_out_means_cycle(preds, order, m);
    let s = choose|s: Set<int>| pred_cycle(preds, s);
    assert forall|i: int| s.contains(i) implies #[trigger] depends_within(deps, s, i) by {
        assert(pred_within(preds, s, i));
        let j = choose|j: int| s.contains(j) && #[trigger] preds[i]@.contains(j as usize);
        assert(depends_on_entry(deps, j, i));
    }
    assert(account_cycle(deps, s));
}

impl AccountOrder {
    /// `Ok(true)` when no accounts depend on one another in a cycle (an
    /// entry depends on the entries whose account name its `depends_on`
    /// lists); `CircularDependency` when some do.
    pub fn validate_account_flow(&self, dependencies: &Vec<AccountDependency>) -> (r: Result<bool, SolifyError>)
        ensures
            r is Ok <==> !has_account_cycle(dependencies@),
            r matches Ok(b) ==> b,
            r matches Err(e) ==> e == SolifyError::CircularDependency,
    {
        let n = dependencies.len();
        let preds = entry_preds(dependencies);
        let order = dependency_order(&preds);
        let seen = membership(&order, n);
        match first_missing(&seen) {
            None => {
                proof {
                    assert forall|j: usize| j < n implies #[trigger] order@.contains(j) by {
                        assert(seen@[j as int]);
                    }
                    lemma_complete_means_no_account_cycle(dependencies@, preds@, order@);
                }
                Ok(true)
            },
            Some(m) => {
                proof {
                    lemma_left_out_means_account_cycle(dependencies@, preds@, order@, m as int);
                }
                Err(SolifyError::CircularDependency)
            },
        }
    }
}

} // verus!
