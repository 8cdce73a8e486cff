//! The instruction dependency graph: one node per entry of the execution
//! order, with edges from the instruction that creates an account to the
//! later ones that need it.
use vstd::prelude::*;
use crate::errors::SolifyError;
use crate::idl::{IdlAccountItem, IdlData, IdlInstruction};
use crate::registry::{
    has_name, initialized_by_name, name_index, names_of, AccountInfo, AccountRegistry,
    DependencyAnalyzerImpl, SeedInfo, SeedSource, SeedType,
};
use crate::text::str_eq;
use crate::toposort::{
    blocked, covers_all, dependency_order, distinct_nodes, is_dependency_order, least_with, lemma_lowest_first_by,
    lowest_ready_first_by, preds_in_range,
};

verus! {

/// One instruction of the execution order.
#[derive(Debug)]
pub struct InstructionNode {
    pub name: String,
    /// Accounts the instruction is inferred to create.
    pub initializes: Vec<String>,
    /// Accounts it references but does not create.
    pub requires: Vec<String>,
}

#[derive(Debug, Clone, Copy, PartialEq, Eq, Structural)]
pub enum DependencyType {
    Initialization,
    SeedDependency,
    Constraint,
}

/// `to` needs `account`, which `from` provides; `from` runs earlier.
#[derive(Debug)]
pub struct DependencyEdge {
    pub from: String,
    pub to: String,
    pub dependency_type: DependencyType,
    pub account: String,
}

#[derive(Debug)]
pub struct DependencyGraph {
    pub nodes: Vec<InstructionNode>,
    pub edges: Vec<DependencyEdge>,
}

/// Some edge leads from the name of node `k` to the name of node `j`.
pub open spec fn edge_between(g: DependencyGraph, k: int, j: int) -> bool {
    exists|e: int|
        0 <= e < g.edges@.len() && (#[trigger] g.edges@[e]).from@ == g.nodes@[k].name@ && g.edges@[e].to@
            == g.nodes@[j].name@
}

/// `order` lists every node once, each after every node that has an edge
/// to it.
pub open spec fn graph_order(g: DependencyGraph, order: Seq<usize>) -> bool {
    &&& distinct_nodes(order, g.nodes@.len())
    &&& covers_all(order, g.nodes@.len())
    &&& forall|a: int, k: int|
        0 <= a < order.len() && 0 <= k < g.nodes@.len() && #[trigger] edge_between(g, k, order[a] as int)
            ==> order.take(a).contains(k as usize)
}

/// Node `i` waits for node `j`: some edge leads from `j` to `i`.
pub open spec fn waits_in_graph(g: DependencyGraph) -> spec_fn(int, int) -> bool {
    |i: int, j: int| edge_between(g, j, i)
}

/// Each node of `order` is, among the nodes whose predecessors all come
/// before it, the one of lowest position in the graph (Kahn's algorithm
/// with ties broken by node position).
pub open spec fn graph_lowest_first(g: DependencyGraph, order: Seq<usize>) -> bool {
    lowest_ready_first_by(waits_in_graph(g), g.nodes@.len() as int, order)
}

/// The nodes of `s` (a non-empty set) each have an edge from another node
/// of `s`: following edges backwards never leaves `s`, so the graph has a
/// cycle.
pub open spec fn cyclic_core(g: DependencyGraph, s: Set<int>) -> bool {
    &&& exists|j: int| s.contains(j)
    &&& forall|j: int| #[trigger] s.contains(j) ==> 0 <= j < g.nodes@.len()
    &&& forall|j: int| #[trigger] s.contains(j) ==> exists|k: int| s.contains(k) && #[trigger] edge_between(g, k, j)
}

/// The graph has a cycle.
pub open spec fn has_cycle(g: DependencyGraph) -> bool {
    exists|s: Set<int>| cyclic_core(g, s)
}

/// A graph with a cycle has no order.
pub proof fn lemma_cycle_has_no_order(g: DependencyGraph, s: Set<int>, order: Seq<usize>)
    requires
        g.nodes@.len() <= usize::MAX,
        cyclic_core(g, s),
    ensures
        !graph_order(g, order),
{
    if graph_order(g, order) {
        // the member of `s` that comes first in `order` has an edge from
        // another member, which must come earlier
        let n = g.nodes@.len();
        let j0 = choose|j: int| s.contains(j);
        assert(0 <= j0 < n);
        assert(order.contains(j0 as usize));
        let a0 = choose|a: int| 0 <= a < order.len() && order[a] == j0 as usize;
        let pos = |p: int| 0 <= p < order.len() && s.contains(order[p] as int);
        assert(order[a0] as int == j0);
        assert(pos(a0));
        let a = least_with(pos, a0);
        let j = order[a] as int;
        assert(s.contains(j));
        let k = choose|k: int| s.contains(k) && #[trigger] edge_between(g, k, j);
        assert(0 <= k < n);
        assert(order.take(a).contains(k as usize));
        let b = choose|b: int| 0 <= b < a && #[trigger] order.take(a)[b] == k as usize;
        assert(order[b] == k as usize);
        assert(pos(b));
    }
}

/// Whether some edge leads from the name `from` to the name `to`.
fn has_edge(edges: &Vec<DependencyEdge>, from: &String, to: &String) -> (r: bool)
    ensures
        r == exists|e: int|
            0 <= e < edges@.len() && (#[trigger] edges@[e]).from@ == from@ && edges@[e].to@ == to@,
{
    let mut e: usize = 0;
    while e < edges.len()
        invariant
            e <= edges@.len(),
            forall|x: int| 0 <= x < e ==> !((#[trigger] edges@[x]).from@ == from@ && edges@[x].to@ == to@),
        decreases edges@.len() - e,
    {
        if str_eq(edges[e].from.as_str(), from.as_str()) && str_eq(edges[e].to.as_str(), to.as_str()) {
            return true;
        }
        e = e + 1;
    }
    false
}

/// For each node, the nodes that have an edge to it.
fn node_preds(g: &DependencyGraph) -> (preds: Vec<Vec<usize>>)
    ensures
        preds_of_graph(*g, preds@),
{
    let n = g.nodes.len();
    let mut preds: Vec<Vec<usize>> = Vec::new();
    let mut j: usize = 0;
    while j < n
        invariant
            n == g.nodes@.len(),
            j <= n,
            preds@.len() == j,
            forall|x: int, y: int| 0 <= x < j && 0 <= y < preds@[x]@.len() ==> (#[trigger] preds@[x]@[y]) < n,
            forall|x: int, k: int|
                0 <= x < j && 0 <= k < n ==> (preds@[x]@.contains(k as usize) <==> #[trigger] edge_between(
                    *g,
                    k,
                    x,
                )),
        decreases n - j,
    {
        let mut ps: Vec<usize> = Vec::new();
        let mut k: usize = 0;
        while k < n
            invariant
                n == g.nodes@.len(),
                j < n,
                k <= n,
                forall|y: int| 0 <= y < ps@.len() ==> (#[trigger] ps@[y]) < k,
                forall|x: int| 0 <= x < n ==> (ps@.contains(x as usize) <==> (x < k && #[trigger] edge_between(
                    *g,
                    x,
                    j as int,
                ))),
            decreases n - k,
        {
            let ghost before = ps@;
            if has_edge(&g.edges, &g.nodes[k].name, &g.nodes[j].name) {
                ps.push(k);
            }
            proof {
                assert forall|x: int| 0 <= x < n implies (ps@.contains(x as usize) <==> (x < k + 1
                    && #[trigger] edge_between(*g, x, j as int))) by {
                    if ps@.contains(x as usize) {
                        let y = choose|y: int| 0 <= y < ps@.len() && ps@[y] == x as usize;
                        if y < before.len() {
                            assert(before[y] == x as usize);
                        }
                    }
                    if x < k && edge_between(*g, x, j as int) {
                        let y = choose|y: int| 0 <= y < before.len() && before[y] == x as usize;
                        assert(ps@[y] == x as usize);
                    }
                    if x == k && edge_between(*g, x, j as int) {
                        let e = choose|e: int|
                            0 <= e < g.edges@.len() && (#[trigger] g.edges@[e]).from@ == g.nodes@[x].name@
                                && g.edges@[e].to@ == g.nodes@[j as int].name@;
                        assert(ps@[ps@.len() - 1] == x as usize);
                    }
                }
            }
            k = k + 1;
        }
        let ghost old_preds = preds@;
        preds.push(ps);
        proof {
            assert forall|x: int, k: int|
                0 <= x < j + 1 && 0 <= k < n implies (preds@[x]@.contains(k as usize)
                <==> #[trigger] edge_between(*g, k, x)) by {
                if x < j {
                    assert(preds@[x] == old_preds[x]);
                }
            }
        }
        j = j + 1;
    }
    preds
}

/// Which nodes of `0..n` the list holds.
pub(crate) fn membership(order: &Vec<usize>, n: usize) -> (seen: Vec<bool>)
    requires
        forall|a: int| 0 <= a < order@.len() ==> (#[trigger] order@[a]) < n,
    ensures
        seen@.len() == n,
        forall|x: int| 0 <= x < n ==> (seen@[x] <==> order@.contains(x as usize)),
{
    let mut seen: Vec<bool> = Vec::new();
    let mut j: usize = 0;
    while j < n
        invariant
            j <= n,
            seen@.len() == j,
            forall|x: int| 0 <= x < j ==> !seen@[x],
        decreases n - j,
    {
        seen.push(false);
        j = j + 1;
    }
    let mut a: usize = 0;
    while a < order.len()
        invariant
            forall|a: int| 0 <= a < order@.len() ==> (#[trigger] order@[a]) < n,
            a <= order@.len(),
            seen@.len() == n,
            forall|x: int| 0 <= x < n ==> (seen@[x] <==> order@.take(a as int).contains(x as usize)),
        decreases order@.len() - a,
    {
        seen.set(order[a], true);
        proof {
            assert(order@.take(a + 1) == order@.take(a as int).push(order@[a as int]));
            assert forall|x: int| 0 <= x < n implies (seen@[x] <==> order@.take(a + 1).contains(x as usize)) by {
                if order@.take(a as int).contains(x as usize) {
                    let y = choose|y: int| 0 <= y < a && #[trigger] order@.take(a as int)[y] == x as usize;
                    assert(order@.take(a + 1)[y] == x as usize);
                }
                if order@.take(a + 1).contains(x as usize) && x as usize != order@[a as int] {
                    let y = choose|y: int| 0 <= y < a + 1 && #[trigger] order@.take(a + 1)[y] == x as usize;
                    assert(order@.take(a as int)[y] == x as usize);
                }
                if x as usize == order@[a as int] {
                    assert(order@.take(a + 1)[a as int] == x as usize);
                }
            }
        }
        a = a + 1;
    }
    assert(order@.take(order@.len() as int) == order@);
    seen
}

/// The first position that holds `false`, if any.
pub(crate) fn first_missing(seen: &Vec<bool>) -> (r: Option<usize>)
    ensures
        match r {
            Some(m) => m < seen@.len() && !seen@[m as int],
            None => forall|x: int| 0 <= x < seen@.len() ==> seen@[x],
        },
{
    let mut x: usize = 0;
    while x < seen.len()
        invariant
            x <= seen@.len(),
            forall|y: int| 0 <= y < x ==> seen@[y],
        decreases seen@.len() - x,
    {
        if !seen[x] {
            return Some(x);
        }
        x = x + 1;
    }
    None
}

/// `preds` lists, for each node, the nodes with an edge to it.
pub open spec fn preds_of_graph(g: DependencyGraph, preds: Seq<Vec<usize>>) -> bool {
    &&& preds.len() == g.nodes@.len()
    &&& preds_in_range(preds)
    &&& forall|j: int, k: int|
        0 <= j < g.nodes@.len() && 0 <= k < g.nodes@.len() ==> (preds[j]@.contains(k as usize)
            <==> #[trigger] edge_between(g, k, j))
}

proof fn lemma_complete_order(g: DependencyGraph, preds: Seq<Vec<usize>>, order: Seq<usize>)
    requires
        preds_of_graph(g, preds),
        is_dependency_order(order, preds),
        covers_all(order, g.nodes@.len()),
    ensures
        graph_order(g, order),
{
    let n = g.nodes@.len();
    assert forall|a: int, k: int|
        0 <= a < order.len() && 0 <= k < n && #[trigger] edge_between(g, k, order[a] as int)
            implies order.take(a).contains(k as usize) by {
        let j = order[a] as int;
        assert(preds[j]@.contains(k as usize));
        let y = choose|y: int| 0 <= y < preds[j]@.len() && preds[j]@[y] == k as usize;
        assert(order.take(a).contains(#[trigger] preds[order[a] as int]@[y]));
    }
}

proof fn lemma_stuck_order(g: DependencyGraph, preds: Seq<Vec<usize>>, order: Seq<usize>, m: int)
    requires
        preds_of_graph(g, preds),
        is_dependency_order(order, preds),
        0 <= m < g.nodes@.len(),
        !order.contains(m as usize),
    ensures
        has_cycle(g),
{
    let n = g.nodes@.len();
    let s = Set::new(|j: int| 0 <= j < n && !order.contains(j as usize));
    assert(s.contains(m));
    assert forall|j: int| #[trigger] s.contains(j) implies exists|k: int|
        s.contains(k) && #[trigger] edge_between(g, k, j) by {
        assert(order.contains(j as usize) || blocked(order, preds, j));
        let y = choose|y: int| 0 <= y < preds[j]@.len() && !order.contains(#[trigger] preds[j]@[y]);
        let k = preds[j]@[y] as int;
        assert(0 <= k < n);
        assert(preds[j]@.contains(k as usize));
        assert(edge_between(g, k, j));
        assert(s.contains(k));
    }
    assert(cyclic_core(g, s));
}

/// An order of the nodes in which each node comes after every node that
/// has an edge to it, lowest index first among the ready ones; or
/// `CircularDependency` when the graph has a cycle.
pub fn instruction_order(g: &DependencyGraph) -> (r: Result<Vec<usize>, SolifyError>)
    ensures
        match r {
            Ok(order) => graph_order(*g, order@) && graph_lowest_first(*g, order@),
            Err(e) => e == SolifyError::CircularDependency && has_cycle(*g),
        },
{
    let preds = node_preds(g);
    let order = dependency_order(&preds);
    proof {
        assert forall|x: int, y: int|
            0 <= x < preds@.len() && 0 <= y < preds@.len() implies (preds@[x]@.contains(y as usize)
            <==> #[trigger] waits_in_graph(*g)(x, y)) by {
            assert(preds@[x]@.contains(y as usize) <==> edge_between(*g, y, x));
        }
        lemma_lowest_first_by(preds@, waits_in_graph(*g), order@);
    }
    let seen = membership(&order, g.nodes.len());
    match first_missing(&seen) {
        None => {
            proof {
                assert forall|j: usize| j < g.nodes@.len() implies #[trigger] order@.contains(j) by {
                    assert(seen@[j as int]);
                }
                lemma_complete_order(*g, preds@, order@);
            }
            Ok(order)
        },
        Some(m) => {
            proof {
                lemma_stuck_order(*g, preds@, order@, m as int);
            }
            Err(SolifyError::CircularDependency)
        },
    }
}

/// Whether the registry record named `name` has the instruction `ins_name`
/// as its initializer.
pub open spec fn created_by(accts: Seq<AccountInfo>, name: Seq<char>, ins_name: Seq<char>) -> bool {
    has_name(accts, name) && initialized_by_name(accts[name_index(accts, name)], ins_name)
}

/// The names of the listed accounts that the registry knows and that
/// `ins_name` creates (`creates`) or does not create (`!creates`), in order.
pub open spec fn split_names(
    items: Seq<IdlAccountItem>,
    accts: Seq<AccountInfo>,
    ins_name: Seq<char>,
    creates: bool,
) -> Seq<Seq<char>>
    decreases items.len(),
{
    if items.len() == 0 {
        seq![]
    } else {
        let rest = split_names(items.drop_last(), accts, ins_name, creates);
        let x = items.last().name@;
        if has_name(accts, x) && created_by(accts, x, ins_name) == creates {
            rest.push(x)
        } else {
            rest
        }
    }
}

impl DependencyAnalyzerImpl {
    /// The node of `instruction`: the accounts it lists that the registry
    /// knows, split into those it creates and those it only requires.
    pub fn create_instruction_node(
        &self,
        instruction: &IdlInstruction,
        registry: &AccountRegistry,
    ) -> (r: InstructionNode)
        requires
            registry.wf(),
        ensures
            r.name@ == instruction.name@,
            names_of(r.initializes@) == split_names(
                instruction.accounts@,
                registry.accounts@,
                instruction.name@,
                true,
            ),
            names_of(r.requires@) == split_names(
                instruction.accounts@,
                registry.accounts@,
                instruction.name@,
                false,
            ),
    {
        let mut initializes: Vec<String> = Vec::new();
        let mut required: Vec<String> = Vec::new();
        let items = &instruction.accounts;
        let mut j: usize = 0;
        while j < items.len()
            invariant
                registry.wf(),
                j <= items@.len(),
                names_of(initializes@) == split_names(
                    items@.take(j as int),
                    registry.accounts@,
                    instruction.name@,
                    true,
                ),
                names_of(required@) == split_names(
                    items@.take(j as int),
                    registry.accounts@,
                    instruction.name@,
                    false,
                ),
            decreases items@.len() - j,
        {
            proof {
                assert(items@.take(j + 1).drop_last() == items@.take(j as int));
                assert(items@.take(j + 1).last() == items@[j as int]);
            }
            if let Some(account) = registry.get_account(items[j].name.as_str()) {
                let mine = match &account.initialized_by {
                    Some(n) => str_eq(n.as_str(), instruction.name.as_str()),
                    None => false,
                };
                if mine {
                    initializes.push(account.name.clone());
                    proof {
                        assert(names_of(initializes@) =~= names_of(initializes@.drop_last()).push(account.name@));
                    }
                } else {
                    required.push(account.name.clone());
                    proof {
                        assert(names_of(required@) =~= names_of(required@.drop_last()).push(account.name@));
                    }
                }
            }
            j = j + 1;
        }
        proof {
            assert(items@.take(items@.len() as int) == items@);
        }
        InstructionNode { name: instruction.name.clone(), initializes, requires: required }
    }
}

/// Node `k`, before node `j`, is the first node that creates `x`.
pub open spec fn first_initializer(nodes: Seq<InstructionNode>, j: int, x: Seq<char>, k: int) -> bool {
    &&& 0 <= k < j
    &&& names_of(nodes[k].initializes@).contains(x)
    &&& forall|k2: int| 0 <= k2 < k ==> !names_of((#[trigger] nodes[k2]).initializes@).contains(x)
}

/// Some node before node `j` creates `x`.
pub open spec fn initialized_before(nodes: Seq<InstructionNode>, j: int, x: Seq<char>) -> bool {
    exists|k: int| 0 <= k < j && names_of((#[trigger] nodes[k]).initializes@).contains(x)
}

/// An account-key seed whose path suggests a user account or a vault.
pub open spec fn seed_refers(seed: SeedInfo) -> bool {
    seed.seed_type == SeedType::AccountKey && (seed.source is UserAccount || seed.source is Vault)
}

/// The edge `e` leads from node `ix` to node `iy` for the reason its type gives.
pub open spec fn edge_for(
    nodes: Seq<InstructionNode>,
    accts: Seq<AccountInfo>,
    e: DependencyEdge,
    ix: int,
    iy: int,
) -> bool {
    &&& 0 <= iy < nodes.len()
    &&& e.from@ == nodes[ix].name@
    &&& e.to@ == nodes[iy].name@
    &&& match e.dependency_type {
        DependencyType::Initialization => names_of(nodes[iy].requires@).contains(e.account@)
            && first_initializer(nodes, iy, e.account@, ix),
        DependencyType::SeedDependency => {
            &&& names_of(nodes[iy].initializes@).contains(e.account@)
            &&& has_name(accts, e.account@)
            &&& exists|q: int|
                0 <= q < accts[name_index(accts, e.account@)].seeds@.len() && seed_refers(
                    #[trigger] accts[name_index(accts, e.account@)].seeds@[q],
                ) && first_initializer(
                    nodes,
                    iy,
                    accts[name_index(accts, e.account@)].seeds@[q].value@,
                    ix,
                )
        },
        DependencyType::Constraint => false,
    }
}

/// The edge `e` has its reason.
pub open spec fn edge_justified(nodes: Seq<InstructionNode>, accts: Seq<AccountInfo>, e: DependencyEdge) -> bool {
    exists|ix: int, iy: int| #[trigger] edge_for(nodes, accts, e, ix, iy)
}

/// Every edge of `edges` has its reason.
pub open spec fn edges_justified(nodes: Seq<InstructionNode>, accts: Seq<AccountInfo>, edges: Seq<DependencyEdge>) -> bool {
    forall|e: int| 0 <= e < edges.len() ==> #[trigger] edge_justified(nodes, accts, edges[e])
}

/// `edges` has an edge of type `t` to node `iy` for account `a`, from the
/// first node before `iy` that creates `x`.
pub open spec fn has_edge_for(
    nodes: Seq<InstructionNode>,
    edges: Seq<DependencyEdge>,
    t: DependencyType,
    iy: int,
    a: Seq<char>,
    x: Seq<char>,
) -> bool {
    exists|e: int, ix: int|
        #![trigger edges[e], first_initializer(nodes, iy, x, ix)]
        0 <= e < edges.len() && edges[e].dependency_type == t && edges[e].to@ == nodes[iy].name@
            && edges[e].account@ == a && first_initializer(nodes, iy, x, ix) && edges[e].from@ == nodes[ix].name@
}

/// Node `iy` has the initialization edges owed for its first `rmax`
/// required accounts: one for each that an earlier node creates.
pub open spec fn init_edges_upto(nodes: Seq<InstructionNode>, edges: Seq<DependencyEdge>, iy: int, rmax: int) -> bool {
    forall|r: int|
        0 <= r < rmax && r < nodes[iy].requires@.len() && initialized_before(
            nodes,
            iy,
            (#[trigger] nodes[iy].requires@[r])@,
        ) ==> has_edge_for(
            nodes,
            edges,
            DependencyType::Initialization,
            iy,
            nodes[iy].requires@[r]@,
            nodes[iy].requires@[r]@,
        )
}

/// Node `iy` has every initialization edge owed.
pub open spec fn init_edges_complete(nodes: Seq<InstructionNode>, edges: Seq<DependencyEdge>, iy: int) -> bool {
    init_edges_upto(nodes, edges, iy, nodes[iy].requires@.len() as int)
}

/// The premise under which seed `q` of the `c`-th account that node `iy`
/// creates owes a seed edge: the seed is an account key suggesting a user account or a vault,
/// and an earlier node creates what it names.
pub open spec fn seed_edge_owed(nodes: Seq<InstructionNode>, accts: Seq<AccountInfo>, iy: int, c: int, q: int) -> bool {
    let a = nodes[iy].initializes@[c]@;
    &&& 0 <= c < nodes[iy].initializes@.len()
    &&& has_name(accts, a)
    &&& 0 <= q < accts[name_index(accts, a)].seeds@.len()
    &&& seed_refers(accts[name_index(accts, a)].seeds@[q])
    &&& initialized_before(nodes, iy, accts[name_index(accts, a)].seeds@[q].value@)
}

/// The seed edge for seed `q` of the `c`-th account that node `iy` creates.
pub open spec fn seed_edge_present(
    nodes: Seq<InstructionNode>,
    accts: Seq<AccountInfo>,
    edges: Seq<DependencyEdge>,
    iy: int,
    c: int,
    q: int,
) -> bool {
    let a = nodes[iy].initializes@[c]@;
    has_edge_for(
        nodes,
        edges,
        DependencyType::SeedDependency,
        iy,
        a,
        accts[name_index(accts, a)].seeds@[q].value@,
    )
}

/// Node `iy` has the seed edges owed for the pairs `(c, q)` before
/// `(cmax, qmax)`.
pub open spec fn seed_edges_upto(
    nodes: Seq<InstructionNode>,
    accts: Seq<AccountInfo>,
    edges: Seq<DependencyEdge>,
    iy: int,
    cmax: int,
    qmax: int,
) -> bool {
    forall|c: int, q: int|
        (c < cmax || (c == cmax && q < qmax)) && #[trigger] seed_edge_owed(nodes, accts, iy, c, q)
            ==> seed_edge_present(nodes, accts, edges, iy, c, q)
}

/// Node `iy` has every seed edge owed.
pub open spec fn seed_edges_complete(
    nodes: Seq<InstructionNode>,
    accts: Seq<AccountInfo>,
    edges: Seq<DependencyEdge>,
    iy: int,
) -> bool {
    seed_edges_upto(nodes, accts, edges, iy, nodes[iy].initializes@.len() as int, 0)
}

/// The edges of `edges` are justified and complete for the graph's nodes.
pub open spec fn edges_of(nodes: Seq<InstructionNode>, accts: Seq<AccountInfo>, edges: Seq<DependencyEdge>) -> bool {
    &&& edges_justified(nodes, accts, edges)
    &&& forall|iy: int|
        0 <= iy < nodes.len() ==> #[trigger] init_edges_complete(nodes, edges, iy) && seed_edges_complete(
            nodes,
            accts,
            edges,
            iy,
        )
}

proof fn lemma_has_edge_push(
    nodes: Seq<InstructionNode>,
    edges: Seq<DependencyEdge>,
    n: DependencyEdge,
    t: DependencyType,
    iy: int,
    a: Seq<char>,
    x: Seq<char>,
)
    requires
        has_edge_for(nodes, edges, t, iy, a, x),
    ensures
        has_edge_for(nodes, edges.push(n), t, iy, a, x),
{
    let (e, ix) = choose|e: int, ix: int|
        #![trigger edges[e], first_initializer(nodes, iy, x, ix)]
        0 <= e < edges.len() && edges[e].dependency_type == t && edges[e].to@ == nodes[iy].name@
            && edges[e].account@ == a && first_initializer(nodes, iy, x, ix) && edges[e].from@ == nodes[ix].name@;
    assert(edges.push(n)[e] == edges[e]);
}

/// The first node before node `j` that creates `x`, if any.
fn first_initializer_before(nodes: &Vec<InstructionNode>, j: usize, x: &String) -> (r: Option<usize>)
    requires
        j <= nodes@.len(),
    ensures
        match r {
            Some(k) => first_initializer(nodes@, j as int, x@, k as int),
            None => !initialized_before(nodes@, j as int, x@),
        },
{
    let mut k: usize = 0;
    while k < j
        invariant
            j <= nodes@.len(),
            k <= j,
            forall|k2: int| 0 <= k2 < k ==> !names_of((#[trigger] nodes@[k2]).initializes@).contains(x@),
        decreases j - k,
    {
        if crate::registry::contains_name(&nodes[k].initializes, x) {
            return Some(k);
        }
        k = k + 1;
    }
    None
}

proof fn lemma_upto_push(
    nodes: Seq<InstructionNode>,
    accts: Seq<AccountInfo>,
    edges: Seq<DependencyEdge>,
    n: DependencyEdge,
    iy: int,
    rmax: int,
    cmax: int,
    qmax: int,
)
    requires
        init_edges_upto(nodes, edges, iy, rmax),
        seed_edges_upto(nodes, accts, edges, iy, cmax, qmax),
    ensures
        init_edges_upto(nodes, edges.push(n), iy, rmax),
        seed_edges_upto(nodes, accts, edges.push(n), iy, cmax, qmax),
{
    assert forall|r: int|
        0 <= r < rmax && r < nodes[iy].requires@.len() && initialized_before(
            nodes,
            iy,
            (#[trigger] nodes[iy].requires@[r])@,
        ) implies has_edge_for(
            nodes,
            edges.push(n),
            DependencyType::Initialization,
            iy,
            nodes[iy].requires@[r]@,
            nodes[iy].requires@[r]@,
        ) by {
        lemma_has_edge_push(
            nodes,
            edges,
            n,
            DependencyType::Initialization,
            iy,
            nodes[iy].requires@[r]@,
            nodes[iy].requires@[r]@,
        );
    }
    assert forall|c: int, q: int|
        (c < cmax || (c == cmax && q < qmax)) && #[trigger] seed_edge_owed(nodes, accts, iy, c, q)
            implies seed_edge_present(nodes, accts, edges.push(n), iy, c, q) by {
        let a = nodes[iy].initializes@[c]@;
        lemma_has_edge_push(
            nodes,
            edges,
            n,
            DependencyType::SeedDependency,
            iy,
            a,
            accts[name_index(accts, a)].seeds@[q].value@,
        );
    }
}

proof fn lemma_justified_push(
    nodes: Seq<InstructionNode>,
    accts: Seq<AccountInfo>,
    edges: Seq<DependencyEdge>,
    n: DependencyEdge,
    ix: int,
    iy: int,
)
    requires
        edges_justified(nodes, accts, edges),
        edge_for(nodes, accts, n, ix, iy),
    ensures
        edges_justified(nodes, accts, edges.push(n)),
{
    let es = edges.push(n);
    assert forall|e: int| 0 <= e < es.len() implies #[trigger] edge_justified(nodes, accts, es[e]) by {
        if e < edges.len() {
            assert(es[e] == edges[e]);
        } else {
            assert(es[e] == n);
            assert(edge_for(nodes, accts, es[e], ix, iy));
        }
    }
}

/// The position of the first instruction named `name`, if any.
pub(crate) fn instruction_index(instrs: &Vec<IdlInstruction>, name: &String) -> (r: Option<usize>)
    ensures
        match r {
            Some(i) => named_first(instrs@, name@, i as int),
            None => forall|i: int| 0 <= i < instrs@.len() ==> (#[trigger] instrs@[i]).name@ != name@,
        },
{
    let mut i: usize = 0;
    while i < instrs.len()
        invariant
            i <= instrs@.len(),
            forall|k: int| 0 <= k < i ==> (#[trigger] instrs@[k]).name@ != name@,
        decreases instrs@.len() - i,
    {
        if str_eq(instrs[i].name.as_str(), name.as_str()) {
            return Some(i);
        }
        i = i + 1;
    }
    None
}

/// Instruction `i` is the first one named `name`.
pub open spec fn named_first(instrs: Seq<IdlInstruction>, name: Seq<char>, i: int) -> bool {
    0 <= i < instrs.len() && instrs[i].name@ == name && forall|k: int| 0 <= k < i ==> (#[trigger] instrs[k]).name@ != name
}

/// Some instruction is named `name`.
pub open spec fn has_instruction(instrs: Seq<IdlInstruction>, name: Seq<char>) -> bool {
    exists|i: int| 0 <= i < instrs.len() && (#[trigger] instrs[i]).name@ == name
}

/// Every entry of the execution order names an instruction.
pub open spec fn order_known(instrs: Seq<IdlInstruction>, order: Seq<String>) -> bool {
    forall|i: int| 0 <= i < order.len() ==> has_instruction(instrs, (#[trigger] order[i])@)
}

/// `node` is the node of `ins` over the registry `accts`.
pub open spec fn node_of(node: InstructionNode, ins: IdlInstruction, accts: Seq<AccountInfo>) -> bool {
    &&& node.name@ == ins.name@
    &&& names_of(node.initializes@) == split_names(ins.accounts@, accts, ins.name@, true)
    &&& names_of(node.requires@) == split_names(ins.accounts@, accts, ins.name@, false)
}

/// `nodes` has one node per entry of `order`, the node of the first
/// instruction of that name.
pub open spec fn nodes_of(
    nodes: Seq<InstructionNode>,
    instrs: Seq<IdlInstruction>,
    order: Seq<String>,
    accts: Seq<AccountInfo>,
) -> bool {
    &&& nodes.len() == order.len()
    &&& forall|i: int| 0 <= i < order.len() ==> #[trigger] node_for_entry(nodes[i], instrs, order[i]@, accts)
}

/// `node` is the node of the first instruction named `name`.
pub open spec fn node_for_entry(
    node: InstructionNode,
    instrs: Seq<IdlInstruction>,
    name: Seq<char>,
    accts: Seq<AccountInfo>,
) -> bool {
    exists|k: int| #[trigger] named_first(instrs, name, k) && node_of(node, instrs[k], accts)
}

/// The errors that building the graph may return: an entry that names no
/// instruction, or a cycle among known instructions.
pub open spec fn build_error(
    e: SolifyError,
    instrs: Seq<IdlInstruction>,
    order: Seq<String>,
    accts: Seq<AccountInfo>,
) -> bool {
    match e {
        SolifyError::InvalidInstructionOrder(name) => missing_entry(instrs, order, name@),
        SolifyError::CircularDependency => order_known(instrs, order) && exists|g: DependencyGraph|
            #[trigger] nodes_of(g.nodes@, instrs, order, accts) && edges_of(g.nodes@, accts, g.edges@) && has_cycle(g),
        _ => false,
    }
}

/// `name` is an entry of the execution order that names no instruction.
pub open spec fn missing_entry(instrs: Seq<IdlInstruction>, order: Seq<String>, name: Seq<char>) -> bool {
    &&& exists|i: int| 0 <= i < order.len() && (#[trigger] order[i])@ == name
    &&& !has_instruction(instrs, name)
}

/// The edges of the graph over `nodes`: for each node, in order, an
/// initialization edge for each required account that an earlier node
/// creates (from the first such node), then a seed edge for each
/// account-key seed (user-account or vault) of each account it creates that an earlier
/// node creates.
fn build_edges(nodes: &Vec<InstructionNode>, registry: &AccountRegistry) -> (edges: Vec<DependencyEdge>)
    requires
        registry.wf(),
    ensures
        edges_of(nodes@, registry.accounts@, edges@),
{
    let ghost accts = registry.accounts@;
    let mut edges: Vec<DependencyEdge> = Vec::new();
    let mut i: usize = 0;
    while i < nodes.len()
        invariant
            registry.wf(),
            accts == registry.accounts@,
            i <= nodes@.len(),
            edges_justified(nodes@, accts, edges@),
            forall|iy: int|
                0 <= iy < i ==> #[trigger] init_edges_complete(nodes@, edges@, iy) && seed_edges_complete(
                    nodes@,
                    accts,
                    edges@,
                    iy,
                ),
        decreases nodes@.len() - i,
    {
        let node = &nodes[i];
        let mut r: usize = 0;
        while r < node.requires.len()
            invariant
                registry.wf(),
                accts == registry.accounts@,
                i < nodes@.len(),
                *node == nodes@[i as int],
                r <= node.requires@.len(),
                edges_justified(nodes@, accts, edges@),
                forall|iy: int|
                    0 <= iy < i ==> #[trigger] init_edges_complete(nodes@, edges@, iy) && seed_edges_complete(
                        nodes@,
                        accts,
                        edges@,
                        iy,
                    ),
                init_edges_upto(nodes@, edges@, i as int, r as int),
            decreases node.requires@.len() - r,
        {
            let account = &node.requires[r];
            if let Some(k) = first_initializer_before(nodes, i, account) {
                let edge = DependencyEdge {
                    from: nodes[k].name.clone(),
                    to: node.name.clone(),
                    dependency_type: DependencyType::Initialization,
                    account: account.clone(),
                };
                let ghost old_edges = edges@;
                proof {
                    assert(names_of(node.requires@)[r as int] == account@);
                    assert(edge_for(nodes@, accts, edge, k as int, i as int));
                    lemma_justified_push(nodes@, accts, old_edges, edge, k as int, i as int);
                    assert forall|iy: int| 0 <= iy < i implies #[trigger] init_edges_complete(nodes@, old_edges.push(edge), iy)
                        && seed_edges_complete(nodes@, accts, old_edges.push(edge), iy) by {
                        assert(init_edges_complete(nodes@, old_edges, iy));
                        lemma_upto_push(nodes@, accts, old_edges, edge, iy, nodes@[iy].requires@.len() as int, nodes@[iy].initializes@.len() as int, 0);
                    }
                    lemma_upto_push(nodes@, accts, old_edges, edge, i as int, r as int, 0, 0);
                }
                edges.push(edge);
                proof {
                    let e = old_edges.len() as int;
                    assert(edges@[e] == edge);
                    assert(has_edge_for(
                        nodes@,
                        edges@,
                        DependencyType::Initialization,
                        i as int,
                        account@,
                        account@,
                    ));
                }
            }
            r = r + 1;
        }
        let mut c: usize = 0;
        proof {
            assert(seed_edges_upto(nodes@, accts, edges@, i as int, 0, 0));
        }
        while c < node.initializes.len()
            invariant
                registry.wf(),
                accts == registry.accounts@,
                i < nodes@.len(),
                *node == nodes@[i as int],
                c <= node.initializes@.len(),
                edges_justified(nodes@, accts, edges@),
                forall|iy: int|
                    0 <= iy < i ==> #[trigger] init_edges_complete(nodes@, edges@, iy) && seed_edges_complete(
                        nodes@,
                        accts,
                        edges@,
                        iy,
                    ),
                init_edges_complete(nodes@, edges@, i as int),
                seed_edges_upto(nodes@, accts, edges@, i as int, c as int, 0),
            decreases node.initializes@.len() - c,
        {
            let account_name = &node.initializes[c];
            match registry.get_account(account_name.as_str()) {
                None => {
                    proof {
                        assert forall|c2: int, q: int|
                            (c2 < c + 1 || (c2 == c + 1 && q < 0)) && #[trigger] seed_edge_owed(nodes@, accts, i as int, c2, q)
                                implies seed_edge_present(nodes@, accts, edges@, i as int, c2, q) by {
                            if c2 == c {
                                assert(nodes@[i as int].initializes@[c2]@ == account_name@);
                            }
                        }
                    }
                },
                Some(account) => {
                    let mut q: usize = 0;
                    while q < account.seeds.len()
                        invariant
                            registry.wf(),
                            accts == registry.accounts@,
                            i < nodes@.len(),
                            *node == nodes@[i as int],
                            c < node.initializes@.len(),
                            *account_name == node.initializes@[c as int],
                            has_name(accts, account_name@),
                            *account == accts[name_index(accts, account_name@)],
                            q <= account.seeds@.len(),
                            edges_justified(nodes@, accts, edges@),
                            forall|iy: int|
                                0 <= iy < i ==> #[trigger] init_edges_complete(nodes@, edges@, iy) && seed_edges_complete(
                                    nodes@,
                                    accts,
                                    edges@,
                                    iy,
                                ),
                            init_edges_complete(nodes@, edges@, i as int),
                            seed_edges_upto(nodes@, accts, edges@, i as int, c as int, q as int),
                        decreases account.seeds@.len() - q,
                    {
                        let seed = &account.seeds[q];
                        let refers = seed.seed_type == SeedType::AccountKey && match seed.source {
                            SeedSource::UserAccount => true,
                            SeedSource::Vault => true,
                            _ => false,
                        };
                        if refers {
                            if let Some(k) = first_initializer_before(nodes, i, &seed.value) {
                                let edge = DependencyEdge {
                                    from: nodes[k].name.clone(),
                                    to: node.name.clone(),
                                    dependency_type: DependencyType::SeedDependency,
                                    account: account_name.clone(),
                                };
                                let ghost old_edges = edges@;
                                proof {
                                    assert(names_of(node.initializes@)[c as int] == account_name@);
                                    assert(edge_for(nodes@, accts, edge, k as int, i as int));
                                    lemma_justified_push(nodes@, accts, old_edges, edge, k as int, i as int);
                                    assert forall|iy: int| 0 <= iy < i implies #[trigger] init_edges_complete(nodes@, old_edges.push(edge), iy)
                                        && seed_edges_complete(nodes@, accts, old_edges.push(edge), iy) by {
                                        assert(init_edges_complete(nodes@, old_edges, iy));
                                        lemma_upto_push(nodes@, accts, old_edges, edge, iy, nodes@[iy].requires@.len() as int, nodes@[iy].initializes@.len() as int, 0);
                                    }
                                    lemma_upto_push(nodes@, accts, old_edges, edge, i as int, nodes@[i as int].requires@.len() as int, c as int, q as int);
                                }
                                edges.push(edge);
                                proof {
                                    let e = old_edges.len() as int;
                                    assert(edges@[e] == edge);
                                    assert(seed_edge_present(nodes@, accts, edges@, i as int, c as int, q as int));
                                }
                            }
                        }
                        proof {
                            assert forall|c2: int, q2: int|
                                (c2 < c || (c2 == c && q2 < q + 1)) && #[trigger] seed_edge_owed(nodes@, accts, i as int, c2, q2)
                                    implies seed_edge_present(nodes@, accts, edges@, i as int, c2, q2) by {
                                if c2 == c && q2 == q {
                                    assert(nodes@[i as int].initializes@[c2]@ == account_name@);
                                }
                            }
                        }
                        q = q + 1;
                    }
                    proof {
                        assert forall|c2: int, q2: int|
                            (c2 < c + 1 || (c2 == c + 1 && q2 < 0)) && #[trigger] seed_edge_owed(nodes@, accts, i as int, c2, q2)
                                implies seed_edge_present(nodes@, accts, edges@, i as int, c2, q2) by {
                            if c2 == c {
                                assert(nodes@[i as int].initializes@[c2]@ == account_name@);
                            }
                        }
                    }
                },
            }
            c = c + 1;
        }
        proof {
            assert(init_edges_complete(nodes@, edges@, i as int));
            assert(seed_edges_complete(nodes@, accts, edges@, i as int));
            assert forall|iy: int| 0 <= iy < i + 1 implies #[trigger] init_edges_complete(nodes@, edges@, iy)
                && seed_edges_complete(nodes@, accts, edges@, iy) by {
                if iy < i {
                    assert(init_edges_complete(nodes@, edges@, iy));
                }
            }
        }
        i = i + 1;
    }
    edges
}

/// The graph has no cycle when it has an order.
proof fn lemma_order_means_acyclic(g: DependencyGraph, order: Seq<usize>)
    requires
        g.nodes@.len() <= usize::MAX,
        graph_order(g, order),
    ensures
        !has_cycle(g),
{
    assert forall|s: Set<int>| !cyclic_core(g, s) by {
        if cyclic_core(g, s) {
            lemma_cycle_has_no_order(g, s, order);
        }
    }
}

impl DependencyAnalyzerImpl {
    /// The dependency graph of the execution order: one node per entry (see
    /// `nodes_of`), the edges that `edges_of` describes, and no cycle.
    /// Fails with `InvalidInstructionOrder` when an entry names no
    /// instruction, and with `CircularDependency` when the edges form a
    /// cycle.
    pub fn build_dependency_graph(
        &self,
        idl_data: &IdlData,
        execution_order: &Vec<String>,
        registry: &AccountRegistry,
    ) -> (r: Result<DependencyGraph, SolifyError>)
        requires
            registry.wf(),
        ensures
            r matches Ok(g) ==> {
                &&& order_known(idl_data.instructions@, execution_order@)
                &&& nodes_of(g.nodes@, idl_data.instructions@, execution_order@, registry.accounts@)
                &&& edges_of(g.nodes@, registry.accounts@, g.edges@)
                &&& !has_cycle(g)
            },
            r matches Err(e) ==> build_error(e, idl_data.instructions@, execution_order@, registry.accounts@),
    {
        let instrs = &idl_data.instructions;
        let mut nodes: Vec<InstructionNode> = Vec::new();
        let mut i: usize = 0;
        while i < execution_order.len()
            invariant
                registry.wf(),
                instrs@ == idl_data.instructions@,
                i <= execution_order@.len(),
                nodes@.len() == i,
                forall|x: int| 0 <= x < i ==> has_instruction(instrs@, (#[trigger] execution_order@[x])@),
                forall|x: int|
                    0 <= x < i ==> #[trigger] node_for_entry(nodes@[x], instrs@, execution_order@[x]@, registry.accounts@),
            decreases execution_order@.len() - i,
        {
            match instruction_index(instrs, &execution_order[i]) {
                None => {
                    let name = execution_order[i].clone();
                    proof {
                        assert(!has_instruction(instrs@, name@));
                        assert((execution_order@[i as int])@ == name@);
                        assert(missing_entry(instrs@, execution_order@, name@));
                    }
                    let ghost gname = name@;
                    let e = SolifyError::InvalidInstructionOrder(name);
                    assert(e matches SolifyError::InvalidInstructionOrder(n) && n@ == gname);
                    return Err(e);
                },
                Some(k) => {
                    let node = self.create_instruction_node(&instrs[k], registry);
                    let ghost old_nodes = nodes@;
                    nodes.push(node);
                    proof {
                        assert(has_instruction(instrs@, execution_order@[i as int]@));
                        assert forall|x: int|
                            0 <= x < i + 1 implies #[trigger] node_for_entry(nodes@[x], instrs@, execution_order@[x]@, registry.accounts@) by {
                            if x < i {
                                assert(nodes@[x] == old_nodes[x]);
                            } else {
                                assert(named_first(instrs@, execution_order@[x]@, k as int));
                                assert(node_of(nodes@[x], instrs@[k as int], registry.accounts@));
                            }
                        }
                    }
                },
            }
            i = i + 1;
        }
        let edges = build_edges(&nodes, registry);
        let graph = DependencyGraph { nodes, edges };
        proof {
            assert(order_known(instrs@, execution_order@));
            assert(nodes_of(graph.nodes@, instrs@, execution_order@, registry.accounts@));
        }
        match self.detect_circular_dependencies(&graph) {
            Ok(()) => Ok(graph),
            Err(e) => Err(e),
        }
    }

    /// `Ok` when the graph has no cycle, `CircularDependency` when it has one.
    pub fn detect_circular_dependencies(&self, graph: &DependencyGraph) -> (r: Result<(), SolifyError>)
        ensures
            r is Ok <==> !has_cycle(*graph),
            r matches Err(e) ==> e == SolifyError::CircularDependency,
    {
        let n = graph.nodes.len();
        match instruction_order(graph) {
            Ok(order) => {
                proof {
                    lemma_order_means_acyclic(*graph, order@);
                }
                Ok(())
            },
            Err(e) => Err(e),
        }
    }

    /// The names of the nodes in an order where each node comes after
    /// every node that has an edge to it, lowest position first among the
    /// ready ones (Kahn's algorithm); `CircularDependency` when the graph
    /// has a cycle, and only then.
    pub fn topological_sort(&self, graph: &DependencyGraph) -> (r: Result<Vec<String>, SolifyError>)
        ensures
            match r {
                Ok(names) => exists|order: Seq<usize>|
                    graph_order(*graph, order) && graph_lowest_first(*graph, order) && names@.len() == order.len() && forall|a: int|
                        0 <= a < order.len() ==> (#[trigger] names@[a])@ == graph.nodes@[order[a] as int].name@,
                Err(e) => e == SolifyError::CircularDependency && has_cycle(*graph),
            },
            r is Ok <==> !has_cycle(*graph),
    {
        let n = graph.nodes.len();
        match instruction_order(graph) {
            Ok(order) => {
                proof {
                    lemma_order_means_acyclic(*graph, order@);
                }
                Ok(order_names(graph, &order))
            },
            Err(e) => Err(e),
        }
    }
}

/// The names of the nodes at the positions of `order`.
pub fn order_names(graph: &DependencyGraph, order: &Vec<usize>) -> (names: Vec<String>)
    requires
        forall|a: int| 0 <= a < order@.len() ==> (#[trigger] order@[a]) < graph.nodes@.len(),
    ensures
        names@.len() == order@.len(),
        forall|a: int| 0 <= a < order@.len() ==> (#[trigger] names@[a])@ == graph.nodes@[order@[a] as int].name@,
{
    let mut names: Vec<String> = Vec::new();
    let mut a: usize = 0;
    while a < order.len()
        invariant
            forall|a: int| 0 <= a < order@.len() ==> (#[trigger] order@[a]) < graph.nodes@.len(),
            a <= order@.len(),
            names@.len() == a,
            forall|b: int| 0 <= b < a ==> (#[trigger] names@[b])@ == graph.nodes@[order@[b] as int].name@,
        decreases order@.len() - a,
    {
        names.push(graph.nodes[order[a]].name.clone());
        a = a + 1;
    }
    names
}

} // verus!
