//! Facts about the analysis as a whole.
use vstd::prelude::*;
use crate::account_order::{dependencies_for, entry_for, external_records, known_names, ordered_init_names};
use crate::analyzer::plan_of;
use crate::graph::{
    created_by, edge_between, edges_of, graph_lowest_first, graph_order, waits_in_graph, named_first, node_for_entry, node_of, nodes_of, split_names, DependencyGraph,
    InstructionNode,
};
use crate::idl::{IdlAccountItem, IdlData, IdlInstruction};
use crate::pda_detector::{keys_of, output_seed_type, pda_init_of, pda_records, pda_sequence, pda_waits};
use crate::registry::{
    flags_from_first, has_name, initializer_from, initializes_item, name_index, names_of, observations, registry_of,
    AccountInfo, AccountRegistry,
};
use crate::setup_generator::{
    first_target, left_waiting, planned_steps, requirement_of, setup_order, setup_plan, step_waits, step_waits_for,
    PlannedStep,
};
use crate::toposort::{distinct_nodes, exhausted_by, lemma_covering_is_exhausted, lemma_lowest_first_unique, ready_by};
use crate::types::{AccountDependency, PdaInit, SetupRequirement, TestMetadata};

verus! {

/// `s` has no element twice.
pub open spec fn distinct_texts(s: Seq<Seq<char>>) -> bool {
    forall|a: int, b: int| 0 <= a < b < s.len() ==> s[a] != s[b]
}

proof fn lemma_known_names_members(names: Seq<Seq<char>>, accts: Seq<AccountInfo>, x: Seq<char>)
    ensures
        known_names(names, accts).contains(x) <==> (names.contains(x) && has_name(accts, x)),
    decreases names.len(),
{
    if names.len() > 0 {
        lemma_known_names_members(names.drop_last(), accts, x);
        let rest = known_names(names.drop_last(), accts);
        if rest.contains(x) {
            let k = choose|k: int| 0 <= k < rest.len() && rest[k] == x;
            assert(known_names(names, accts)[k] == x);
        }
        if names.drop_last().contains(x) {
            let k = choose|k: int| 0 <= k < names.drop_last().len() && names.drop_last()[k] == x;
            assert(names[k] == x);
        }
        if names.contains(x) {
            let k = choose|k: int| 0 <= k < names.len() && names[k] == x;
            if k < names.len() - 1 {
                assert(names.drop_last()[k] == x);
            }
        }
        if known_names(names, accts).contains(x) && !rest.contains(x) {
            assert(x == names.last());
        }
        if x == names.last() && has_name(accts, x) {
            assert(known_names(names, accts)[known_names(names, accts).len() - 1] == x);
        }
    }
}

proof fn lemma_known_names_distinct(names: Seq<Seq<char>>, accts: Seq<AccountInfo>)
    requires
        distinct_texts(names),
    ensures
        distinct_texts(known_names(names, accts)),
    decreases names.len(),
{
    if names.len() > 0 {
        let init = names.drop_last();
        assert(distinct_texts(init));
        lemma_known_names_distinct(init, accts);
        lemma_known_names_members(init, accts, names.last());
        if init.contains(names.last()) {
            let k = choose|k: int| 0 <= k < init.len() && init[k] == names.last();
            assert(names[k] == names[names.len() - 1]);
        }
    }
}

proof fn lemma_split_members(
    items: Seq<IdlAccountItem>,
    accts: Seq<AccountInfo>,
    ins_name: Seq<char>,
    x: Seq<char>,
)
    ensures
        split_names(items, accts, ins_name, true).contains(x) <==> ((exists|j: int|
            0 <= j < items.len() && (#[trigger] items[j]).name@ == x) && has_name(accts, x) && created_by(accts, x, ins_name)),
    decreases items.len(),
{
    if items.len() > 0 {
        let init = items.drop_last();
        lemma_split_members(init, accts, ins_name, x);
        let rest = split_names(init, accts, ins_name, true);
        if rest.contains(x) {
            let k = choose|k: int| 0 <= k < rest.len() && rest[k] == x;
            assert(split_names(items, accts, ins_name, true)[k] == x);
            let j = choose|j: int| 0 <= j < init.len() && (#[trigger] init[j]).name@ == x;
            assert(items[j] == init[j]);
        }
        if split_names(items, accts, ins_name, true).contains(x) && !rest.contains(x) {
            assert(x == items.last().name@);
            assert(items[items.len() - 1].name@ == x);
        }
        if exists|j: int| 0 <= j < items.len() && (#[trigger] items[j]).name@ == x {
            let j = choose|j: int| 0 <= j < items.len() && (#[trigger] items[j]).name@ == x;
            if j < items.len() - 1 {
                assert(init[j].name@ == x);
            } else if has_name(accts, x) && created_by(accts, x, ins_name) {
                let s = split_names(items, accts, ins_name, true);
                assert(s[s.len() - 1] == x);
            }
        }
    }
}

proof fn lemma_split_distinct(items: Seq<IdlAccountItem>, accts: Seq<AccountInfo>, ins_name: Seq<char>)
    requires
        forall|a: int, b: int| 0 <= a < b < items.len() ==> items[a].name@ != items[b].name@,
    ensures
        distinct_texts(split_names(items, accts, ins_name, true)),
    decreases items.len(),
{
    if items.len() > 0 {
        let init = items.drop_last();
        lemma_split_distinct(init, accts, ins_name);
        lemma_split_members(init, accts, ins_name, items.last().name@);
        if split_names(init, accts, ins_name, true).contains(items.last().name@) {
            let j = choose|j: int| 0 <= j < init.len() && (#[trigger] init[j]).name@ == items.last().name@;
            assert(items[j].name@ == items[items.len() - 1].name@);
        }
    }
}

/// The accounts that the node at position `p` of `order` creates.
pub open spec fn block(nodes: Seq<InstructionNode>, order: Seq<usize>, accts: Seq<AccountInfo>, p: int) -> Seq<Seq<char>> {
    known_names(names_of(nodes[order[p] as int].initializes@), accts)
}

proof fn lemma_ordered_members(nodes: Seq<InstructionNode>, order: Seq<usize>, accts: Seq<AccountInfo>, x: Seq<char>)
    ensures
        ordered_init_names(nodes, order, accts).contains(x) <==> exists|p: int|
            0 <= p < order.len() && #[trigger] block(nodes, order, accts, p).contains(x),
    decreases order.len(),
{
    if order.len() > 0 {
        let init = order.drop_last();
        lemma_ordered_members(nodes, init, accts, x);
        let a = ordered_init_names(nodes, init, accts);
        let b = block(nodes, order, accts, order.len() - 1);
        assert(ordered_init_names(nodes, order, accts) == a + b);
        assert forall|p: int| 0 <= p < init.len() implies block(nodes, init, accts, p) == #[trigger] block(nodes, order, accts, p) by {}
        if (a + b).contains(x) {
            let k = choose|k: int| 0 <= k < (a + b).len() && (a + b)[k] == x;
            if k < a.len() {
                assert(a[k] == x);
                let p = choose|p: int| 0 <= p < init.len() && #[trigger] block(nodes, init, accts, p).contains(x);
                assert(block(nodes, order, accts, p).contains(x));
            } else {
                assert(b[k - a.len()] == x);
                assert(b.contains(x));
                assert(block(nodes, order, accts, order.len() - 1).contains(x));
            }
        }
        if exists|p: int| 0 <= p < order.len() && #[trigger] block(nodes, order, accts, p).contains(x) {
            let p = choose|p: int| 0 <= p < order.len() && #[trigger] block(nodes, order, accts, p).contains(x);
            if p < init.len() {
                assert(block(nodes, init, accts, p).contains(x));
                let k = choose|k: int| 0 <= k < a.len() && a[k] == x;
                assert((a + b)[k] == x);
            } else {
                let k = choose|k: int| 0 <= k < b.len() && b[k] == x;
                assert((a + b)[a.len() + k] == x);
            }
        }
    }
}

proof fn lemma_created_by_unique(accts: Seq<AccountInfo>, x: Seq<char>, n1: Seq<char>, n2: Seq<char>)
    requires
        created_by(accts, x, n1),
        created_by(accts, x, n2),
    ensures
        n1 == n2,
{
}

proof fn lemma_concat_distinct(a: Seq<Seq<char>>, b: Seq<Seq<char>>)
    requires
        distinct_texts(a),
        distinct_texts(b),
        forall|x: Seq<char>| a.contains(x) ==> !#[trigger] b.contains(x),
    ensures
        distinct_texts(a + b),
{
    assert forall|i: int, j: int| 0 <= i < j < (a + b).len() implies (a + b)[i] != (a + b)[j] by {
        if i < a.len() && j >= a.len() {
            assert(a.contains((a + b)[i]));
            assert(b[j - a.len()] == (a + b)[j]);
            if (a + b)[i] == (a + b)[j] {
                assert(b.contains((a + b)[i]));
            }
        } else if i >= a.len() {
            assert(b[i - a.len()] == (a + b)[i]);
            assert(b[j - a.len()] == (a + b)[j]);
        }
    }
}

/// The node-level conditions under which the created accounts of a
/// dependency order are all distinct.
pub open spec fn nodes_create_distinctly(nodes: Seq<InstructionNode>, accts: Seq<AccountInfo>) -> bool {
    &&& forall|j: int| 0 <= j < nodes.len() ==> distinct_texts(names_of(#[trigger] nodes[j].initializes@))
    &&& forall|j: int, x: Seq<char>|
        0 <= j < nodes.len() && #[trigger] names_of(nodes[j].initializes@).contains(x) ==> created_by(accts, x, nodes[j].name@)
    &&& forall|j1: int, j2: int| 0 <= j1 < j2 < nodes.len() ==> nodes[j1].name@ != nodes[j2].name@
}

proof fn lemma_ordered_distinct(nodes: Seq<InstructionNode>, order: Seq<usize>, accts: Seq<AccountInfo>)
    requires
        nodes_create_distinctly(nodes, accts),
        distinct_nodes(order, nodes.len()),
    ensures
        distinct_texts(ordered_init_names(nodes, order, accts)),
    decreases order.len(),
{
    if order.len() > 0 {
        let init = order.drop_last();
        assert(distinct_nodes(init, nodes.len()));
        lemma_ordered_distinct(nodes, init, accts);
        let last = order.last() as int;
        let a = ordered_init_names(nodes, init, accts);
        let b = known_names(names_of(nodes[last].initializes@), accts);
        lemma_known_names_distinct(names_of(nodes[last].initializes@), accts);
        assert forall|x: Seq<char>| a.contains(x) implies !#[trigger] b.contains(x) by {
            lemma_ordered_members(nodes, init, accts, x);
            let p = choose|p: int| 0 <= p < init.len() && #[trigger] block(nodes, init, accts, p).contains(x);
            let jp = init[p] as int;
            lemma_known_names_members(names_of(nodes[jp].initializes@), accts, x);
            lemma_known_names_members(names_of(nodes[last].initializes@), accts, x);
            if b.contains(x) {
                lemma_created_by_unique(accts, x, nodes[jp].name@, nodes[last].name@);
                assert(order[p] == init[p]);
                assert(order[p] != order[order.len() - 1]);
                if jp < last {
                } else {
                }
            }
        }
        lemma_concat_distinct(a, b);
    }
}

proof fn lemma_external_members(accts: Seq<AccountInfo>, r: AccountInfo)
    ensures
        external_records(accts).contains(r) <==> (accts.contains(r) && r.initialized_by is None),
    decreases accts.len(),
{
    if accts.len() > 0 {
        let init = accts.drop_last();
        lemma_external_members(init, r);
        let e0 = external_records(init);
        let e = external_records(accts);
        if e0.contains(r) {
            let k = choose|k: int| 0 <= k < e0.len() && e0[k] == r;
            assert(e[k] == r);
            let i = choose|i: int| 0 <= i < init.len() && init[i] == r;
            assert(accts[i] == r);
        }
        if e.contains(r) && !e0.contains(r) {
            assert(r == accts.last());
            assert(accts[accts.len() - 1] == r);
        }
        if accts.contains(r) && r.initialized_by is None {
            let i = choose|i: int| 0 <= i < accts.len() && accts[i] == r;
            if i < accts.len() - 1 {
                assert(init[i] == r);
            } else {
                assert(e[e.len() - 1] == r);
            }
        }
    }
}

proof fn lemma_external_distinct(accts: Seq<AccountInfo>)
    requires
        forall|a: int, b: int| 0 <= a < b < accts.len() ==> accts[a].name@ != accts[b].name@,
    ensures
        forall|a: int, b: int|
            0 <= a < b < external_records(accts).len() ==> external_records(accts)[a].name@ != external_records(
                accts,
            )[b].name@,
    decreases accts.len(),
{
    if accts.len() > 0 {
        let init = accts.drop_last();
        lemma_external_distinct(init);
        let e0 = external_records(init);
        let e = external_records(accts);
        if e.len() > e0.len() {
            assert forall|a: int, b: int| 0 <= a < b < e.len() implies e[a].name@ != e[b].name@ by {
                if b == e.len() - 1 {
                    assert(e0.contains(e[a]));
                    lemma_external_members(init, e[a]);
                    let i = choose|i: int| 0 <= i < init.len() && init[i] == e[a];
                    assert(accts[i] == e[a]);
                    assert(e[b] == accts[accts.len() - 1]);
                } else {
                    assert(e[a] == e0[a]);
                    assert(e[b] == e0[b]);
                }
            }
        }
    }
}

proof fn lemma_observation_source(instrs: Seq<IdlInstruction>, m: int)
    requires
        0 <= m < observations(instrs).len(),
    ensures
        exists|k: int, j: int|
            0 <= k < instrs.len() && 0 <= j < instrs[k].accounts@.len() && #[trigger] observations(instrs)[m]
                == (instrs[k], instrs[k].accounts@[j]),
    decreases instrs.len(),
{
    let init = instrs.drop_last();
    let a = observations(init);
    if m < a.len() {
        lemma_observation_source(init, m);
        let (k, j) = choose|k: int, j: int|
            0 <= k < init.len() && 0 <= j < init[k].accounts@.len() && #[trigger] observations(init)[m]
                == (init[k], init[k].accounts@[j]);
        assert(instrs[k] == init[k]);
        assert(observations(instrs)[m] == (instrs[k], instrs[k].accounts@[j]));
    } else {
        let k = instrs.len() - 1;
        let j = m - a.len();
        assert(observations(instrs)[m] == (instrs[k], instrs[k].accounts@[j]));
    }
}

/// The conditions under which every account gets exactly one entry: the
/// execution order names each instruction at most once, instruction names
/// are distinct, each instruction lists each account once, and every
/// instruction that is taken to create an account is in the order.
pub open spec fn order_covers_creators(instrs: Seq<IdlInstruction>, order: Seq<String>) -> bool {
    &&& forall|a: int, b: int| 0 <= a < b < order.len() ==> order[a]@ != order[b]@
    &&& forall|k1: int, k2: int| 0 <= k1 < k2 < instrs.len() ==> instrs[k1].name@ != instrs[k2].name@
    &&& forall|k: int, a: int, b: int|
        0 <= k < instrs.len() && 0 <= a < b < instrs[k].accounts@.len() ==> (#[trigger] instrs[k].accounts@[a]).name@
            != (#[trigger] instrs[k].accounts@[b]).name@
    &&& forall|k: int, j: int|
        0 <= k < instrs.len() && 0 <= j < instrs[k].accounts@.len() && initializes_item(
            instrs[k],
            #[trigger] instrs[k].accounts@[j],
        ) ==> exists|e: int| 0 <= e < order.len() && (#[trigger] order[e])@ == instrs[k].name@
}

proof fn lemma_nodes_create_distinctly(
    nodes: Seq<InstructionNode>,
    instrs: Seq<IdlInstruction>,
    order: Seq<String>,
    accts: Seq<AccountInfo>,
)
    requires
        nodes_of(nodes, instrs, order, accts),
        order_covers_creators(instrs, order),
    ensures
        nodes_create_distinctly(nodes, accts),
{
    assert forall|j: int| 0 <= j < nodes.len() implies distinct_texts(names_of(#[trigger] nodes[j].initializes@)) by {
        assert(node_for_entry(nodes[j], instrs, order[j]@, accts));
        let k = choose|k: int| #[trigger] named_first(instrs, order[j]@, k) && node_of(nodes[j], instrs[k], accts);
        assert forall|a: int, b: int| 0 <= a < b < instrs[k].accounts@.len() implies instrs[k].accounts@[a].name@
            != instrs[k].accounts@[b].name@ by {
            assert(instrs[k].accounts@[a].name@ != instrs[k].accounts@[b].name@);
        }
        lemma_split_distinct(instrs[k].accounts@, accts, instrs[k].name@);
    }
    assert forall|j: int, x: Seq<char>|
        0 <= j < nodes.len() && #[trigger] names_of(nodes[j].initializes@).contains(x) implies created_by(
        accts,
        x,
        nodes[j].name@,
    ) by {
        assert(node_for_entry(nodes[j], instrs, order[j]@, accts));
        let k = choose|k: int| #[trigger] named_first(instrs, order[j]@, k) && node_of(nodes[j], instrs[k], accts);
        lemma_split_members(instrs[k].accounts@, accts, instrs[k].name@, x);
    }
    assert forall|j1: int, j2: int| 0 <= j1 < j2 < nodes.len() implies nodes[j1].name@ != nodes[j2].name@ by {
        assert(node_for_entry(nodes[j1], instrs, order[j1]@, accts));
        assert(node_for_entry(nodes[j2], instrs, order[j2]@, accts));
        let k1 = choose|k: int| #[trigger] named_first(instrs, order[j1]@, k) && node_of(nodes[j1], instrs[k], accts);
        let k2 = choose|k: int| #[trigger] named_first(instrs, order[j2]@, k) && node_of(nodes[j2], instrs[k], accts);
    }
}

/// Every account named anywhere in the description gets exactly one entry
/// in the account initialization order: no name twice, none left out, none
/// that the description does not name. This holds when the execution order
/// names each instruction at most once and covers every instruction taken to
/// create an account, instruction names are distinct, and no instruction
/// lists an account twice (`order_covers_creators`).
pub proof fn lemma_one_entry_per_account(
    instrs: Seq<IdlInstruction>,
    order: Seq<String>,
    program: Seq<char>,
    reg: AccountRegistry,
    g: DependencyGraph,
    iorder: Seq<usize>,
    deps: Seq<AccountDependency>,
)
    requires
        g.nodes@.len() <= usize::MAX,
        reg.wf(),
        registry_of(reg.accounts@, observations(instrs), program),
        nodes_of(g.nodes@, instrs, order, reg.accounts@),
        graph_order(g, iorder),
        dependencies_for(deps, g.nodes@, iorder, reg.accounts@),
        order_covers_creators(instrs, order),
    ensures
        forall|a: int, b: int| 0 <= a < b < deps.len() ==> deps[a].account_name@ != deps[b].account_name@,
        forall|m: int|
            0 <= m < observations(instrs).len() ==> exists|a: int|
                0 <= a < deps.len() && deps[a].account_name@ == (#[trigger] observations(instrs)[m]).1.name@,
        forall|a: int|
            0 <= a < deps.len() ==> exists|m: int|
                0 <= m < observations(instrs).len() && (#[trigger] observations(instrs)[m]).1.name@
                    == (#[trigger] deps[a]).account_name@,
{
    let accts = reg.accounts@;
    let nodes = g.nodes@;
    let os = observations(instrs);
    let created = ordered_init_names(nodes, iorder, accts);
    let ext = external_records(accts);
    let c = created.len();
    lemma_nodes_create_distinctly(nodes, instrs, order, accts);
    lemma_ordered_distinct(nodes, iorder, accts);
    lemma_external_distinct(accts);
    // the name of each entry, and what stands behind it
    assert forall|t: int| 0 <= t < c implies deps[t].account_name@ == created[t] && has_name(accts, created[t])
        && accts[name_index(accts, created[t])].initialized_by is Some by {
        assert(entry_for(deps[t], accts[name_index(accts, created[t])], t, true));
        assert(created.contains(created[t]));
        lemma_ordered_members(nodes, iorder, accts, created[t]);
        let p = choose|p: int| 0 <= p < iorder.len() && #[trigger] block(nodes, iorder, accts, p).contains(created[t]);
        let jp = iorder[p] as int;
        lemma_known_names_members(names_of(nodes[jp].initializes@), accts, created[t]);
    }
    assert forall|u: int| 0 <= u < ext.len() implies deps[c + u].account_name@ == (#[trigger] ext[u]).name@
        && accts.contains(ext[u]) && ext[u].initialized_by is None by {
        assert(entry_for(deps[c + u], ext[u], c + u, false));
        assert(ext.contains(ext[u]));
        lemma_external_members(accts, ext[u]);
    }
    // no name twice
    assert forall|a: int, b: int| 0 <= a < b < deps.len() implies deps[a].account_name@ != deps[b].account_name@ by {
        if b < c {
        } else if a >= c {
            assert(ext[a - c].name@ != ext[b - c].name@);
        } else {
            let x = created[a];
            let r = ext[b - c];
            if r.name@ == x {
                let i = choose|i: int| 0 <= i < accts.len() && accts[i] == r;
                let k = name_index(accts, x);
                if i != k {
                    if i < k {
                        assert(accts[i].name@ != accts[k].name@);
                    } else {
                        assert(accts[k].name@ != accts[i].name@);
                    }
                }
            }
        }
    }
    // none left out
    assert forall|m: int| 0 <= m < os.len() implies exists|a: int|
        0 <= a < deps.len() && deps[a].account_name@ == (#[trigger] os[m]).1.name@ by {
        let x = os[m].1.name@;
        assert(has_name(accts, x));
        let k = name_index(accts, x);
        let rec = accts[k];
        assert(initializer_from(rec, os));
        if rec.initialized_by is None {
            assert(accts.contains(rec));
            lemma_external_members(accts, rec);
            let u = choose|u: int| 0 <= u < ext.len() && ext[u] == rec;
            assert(deps[c + u].account_name@ == x);
        } else {
            let n = rec.initialized_by->Some_0;
            let m2 = choose|m2: int|
                0 <= m2 < os.len() && (#[trigger] os[m2]).1.name@ == rec.name@ && initializes_item(os[m2].0, os[m2].1)
                    && n@ == os[m2].0.name@ && forall|m3: int|
                    0 <= m3 < m2 && (#[trigger] os[m3]).1.name@ == rec.name@ ==> !initializes_item(os[m3].0, os[m3].1);
            lemma_observation_source(instrs, m2);
            let (ki, j) = choose|ki: int, j: int|
                0 <= ki < instrs.len() && 0 <= j < instrs[ki].accounts@.len() && #[trigger] os[m2] == (
                instrs[ki],
                instrs[ki].accounts@[j],
            );
            assert(initializes_item(instrs[ki], instrs[ki].accounts@[j]));
            let e = choose|e: int| 0 <= e < order.len() && (#[trigger] order[e])@ == instrs[ki].name@;
            assert(node_for_entry(nodes[e], instrs, order[e]@, accts));
            let k2 = choose|k2: int| #[trigger] named_first(instrs, order[e]@, k2) && node_of(nodes[e], instrs[k2], accts);
            if k2 != ki {
                if k2 < ki {
                    assert(instrs[k2].name@ != instrs[ki].name@);
                } else {
                    assert(instrs[ki].name@ != instrs[k2].name@);
                }
            }
            assert(created_by(accts, x, instrs[ki].name@));
            lemma_split_members(instrs[ki].accounts@, accts, instrs[ki].name@, x);
            assert(names_of(nodes[e].initializes@).contains(x));
            lemma_known_names_members(names_of(nodes[e].initializes@), accts, x);
            assert(iorder.contains(e as usize));
            let p = choose|p: int| 0 <= p < iorder.len() && iorder[p] == e as usize;
            assert(iorder[p] as int == e);
            assert(known_names(names_of(nodes[e].initializes@), accts).contains(x));
            assert(block(nodes, iorder, accts, p).contains(x));
            lemma_ordered_members(nodes, iorder, accts, x);
            let t = choose|t: int| 0 <= t < created.len() && created[t] == x;
            assert(deps[t].account_name@ == x);
        }
    }
    // none that the description does not name
    assert forall|a: int| 0 <= a < deps.len() implies exists|m: int|
        0 <= m < os.len() && (#[trigger] os[m]).1.name@ == (#[trigger] deps[a]).account_name@ by {
        let rec = if a < c {
            accts[name_index(accts, created[a])]
        } else {
            let i = choose|i: int| 0 <= i < accts.len() && accts[i] == ext[a - c];
            accts[i]
        };
        assert(rec.name@ == deps[a].account_name@);
        assert(accts.contains(rec));
        let i = choose|i: int| 0 <= i < accts.len() && accts[i] == rec;
        assert(flags_from_first(accts[i], os));
    }
}

/// In the test plan of a description, every account named anywhere in the
/// description has exactly one account entry: no name twice, none left
/// out, none that the description does not name (under the conditions of
/// `order_covers_creators`).
pub proof fn lemma_plan_has_one_entry_per_account(idl: IdlData, order: Seq<String>, program: Seq<char>, m: TestMetadata)
    requires
        order.len() <= usize::MAX,
        plan_of(m, idl, order, program),
        order_covers_creators(idl.instructions@, order),
    ensures
        forall|a: int, b: int|
            0 <= a < b < m.account_dependencies@.len() ==> m.account_dependencies@[a].account_name@
                != m.account_dependencies@[b].account_name@,
        forall|k: int|
            0 <= k < observations(idl.instructions@).len() ==> exists|a: int|
                0 <= a < m.account_dependencies@.len() && m.account_dependencies@[a].account_name@ == (
                #[trigger] observations(idl.instructions@)[k]).1.name@,
        forall|a: int|
            0 <= a < m.account_dependencies@.len() ==> exists|k: int|
                0 <= k < observations(idl.instructions@).len() && (#[trigger] observations(
                    idl.instructions@,
                )[k]).1.name@ == (#[trigger] m.account_dependencies@[a]).account_name@,
{
    let (reg, g, iorder) = choose|reg: AccountRegistry, g: DependencyGraph, iorder: Seq<usize>|
        #![trigger registry_of(reg.accounts@, observations(idl.instructions@), program), graph_order(g, iorder)]
        {
            &&& reg.wf()
            &&& registry_of(reg.accounts@, observations(idl.instructions@), program)
            &&& nodes_of(g.nodes@, idl.instructions@, order, reg.accounts@)
            &&& edges_of(g.nodes@, reg.accounts@, g.edges@)
            &&& graph_order(g, iorder)
            &&& dependencies_for(m.account_dependencies@, g.nodes@, iorder, reg.accounts@)
            &&& exists|porder: Seq<usize>| #[trigger] pda_sequence(m.pda_init_sequence@, reg.accounts@, program, porder)
        };
    lemma_one_entry_per_account(idl.instructions@, order, program, reg, g, iorder, m.account_dependencies@);
}

/// `d1` and `d2` agree entry by entry: same account, dependencies, flags
/// and position.
pub open spec fn same_entries(d1: Seq<AccountDependency>, d2: Seq<AccountDependency>) -> bool {
    &&& d1.len() == d2.len()
    &&& forall|t: int|
        0 <= t < d1.len() ==> {
            &&& (#[trigger] d1[t]).account_name@ == d2[t].account_name@
            &&& names_of(d1[t].depends_on@) == names_of(d2[t].depends_on@)
            &&& d1[t].is_pda == d2[t].is_pda
            &&& d1[t].is_signer == d2[t].is_signer
            &&& d1[t].is_mut == d2[t].is_mut
            &&& d1[t].must_be_initialized == d2[t].must_be_initialized
            &&& d1[t].initialization_order == d2[t].initialization_order
        }
}

/// The instruction order and the account initialization order are fixed
/// by the graph and the registry: ties among ready instructions go to the
/// lowest node position, so any two runs on the same graph and registry
/// take the same instruction order and give the same entries in the same
/// order, with the same positions.
pub proof fn lemma_account_order_is_fixed(
    g: DependencyGraph,
    accts: Seq<AccountInfo>,
    o1: Seq<usize>,
    o2: Seq<usize>,
    d1: Seq<AccountDependency>,
    d2: Seq<AccountDependency>,
)
    requires
        g.nodes@.len() <= usize::MAX,
        graph_order(g, o1),
        graph_lowest_first(g, o1),
        dependencies_for(d1, g.nodes@, o1, accts),
        graph_order(g, o2),
        graph_lowest_first(g, o2),
        dependencies_for(d2, g.nodes@, o2, accts),
    ensures
        o1 == o2,
        same_entries(d1, d2),
{
    let n = g.nodes@.len() as int;
    lemma_covering_is_exhausted(waits_in_graph(g), n, o1);
    lemma_covering_is_exhausted(waits_in_graph(g), n, o2);
    lemma_lowest_first_unique(waits_in_graph(g), n, o1, o2);
    let created = ordered_init_names(g.nodes@, o1, accts);
    let ext = external_records(accts);
    assert forall|t: int| 0 <= t < d1.len() implies {
        &&& (#[trigger] d1[t]).account_name@ == d2[t].account_name@
        &&& names_of(d1[t].depends_on@) == names_of(d2[t].depends_on@)
        &&& d1[t].is_pda == d2[t].is_pda
        &&& d1[t].is_signer == d2[t].is_signer
        &&& d1[t].is_mut == d2[t].is_mut
        &&& d1[t].must_be_initialized == d2[t].must_be_initialized
        &&& d1[t].initialization_order == d2[t].initialization_order
    } by {
        if t < created.len() {
            assert(entry_for(d1[t], accts[name_index(accts, created[t])], t, true));
            assert(entry_for(d2[t], accts[name_index(accts, created[t])], t, true));
        } else {
            let u = t - created.len();
            assert(entry_for(d1[created.len() + u], ext[u], created.len() + u, false));
            assert(entry_for(d2[created.len() + u], ext[u], created.len() + u, false));
        }
    }
}

/// Some entry of `names` has the text `x`.
pub open spec fn name_listed(names: Seq<String>, x: Seq<char>) -> bool {
    exists|a: int| 0 <= a < names.len() && (#[trigger] names[a])@ == x
}

/// An entry with the text `x` comes before an entry with the text `y`.
pub open spec fn listed_before(names: Seq<String>, x: Seq<char>, y: Seq<char>) -> bool {
    exists|a: int, b: int| 0 <= a < b < names.len() && (#[trigger] names[a])@ == x && (#[trigger] names[b])@ == y
}

/// For a graph whose node names are distinct and whose edges join nodes,
/// the names that `topological_sort` returns hold every node exactly once,
/// and for every edge the name it leaves comes before the name it enters.
pub proof fn lemma_sorted_names(g: DependencyGraph, names: Seq<String>, order: Seq<usize>)
    requires
        g.nodes@.len() <= usize::MAX,
        forall|j1: int, j2: int| 0 <= j1 < j2 < g.nodes@.len() ==> g.nodes@[j1].name@ != g.nodes@[j2].name@,
        forall|e: int|
            0 <= e < g.edges@.len() ==> (exists|j: int| 0 <= j < g.nodes@.len() && g.nodes@[j].name@ == (#[trigger] g.edges@[e]).from@)
                && (exists|j: int| 0 <= j < g.nodes@.len() && g.nodes@[j].name@ == g.edges@[e].to@),
        graph_order(g, order),
        names.len() == order.len(),
        forall|a: int| 0 <= a < order.len() ==> (#[trigger] names[a])@ == g.nodes@[order[a] as int].name@,
    ensures
        names.len() == g.nodes@.len(),
        forall|j: int| 0 <= j < g.nodes@.len() ==> name_listed(names, (#[trigger] g.nodes@[j]).name@),
        forall|a: int, b: int| 0 <= a < b < names.len() ==> names[a]@ != names[b]@,
        forall|e: int|
            0 <= e < g.edges@.len() ==> listed_before(names, (#[trigger] g.edges@[e]).from@, g.edges@[e].to@),
{
    let n = g.nodes@.len();
    assert forall|j: int| 0 <= j < n implies name_listed(names, (#[trigger] g.nodes@[j]).name@) by {
        assert(order.contains(j as usize));
        let a = choose|a: int| 0 <= a < order.len() && order[a] == j as usize;
        assert(names[a]@ == g.nodes@[j].name@);
    }
    assert forall|a: int, b: int| 0 <= a < b < names.len() implies names[a]@ != names[b]@ by {
        assert(names[a]@ == g.nodes@[order[a] as int].name@);
        assert(names[b]@ == g.nodes@[order[b] as int].name@);
        assert(order[a] != order[b]);
        if order[a] < order[b] {
            assert(g.nodes@[order[a] as int].name@ != g.nodes@[order[b] as int].name@);
        } else {
            assert(g.nodes@[order[b] as int].name@ != g.nodes@[order[a] as int].name@);
        }
    }
    // every position of `order` is taken once, so there are as many as nodes
    let s = Set::new(|j: int| 0 <= j < n);
    vstd::set_lib::lemma_int_range(0, n as int);
    assert(s == vstd::set_lib::set_int_range(0, n as int));
    let os = order.map_values(|x: usize| x as int);
    assert forall|a: int, b: int| 0 <= a < b < os.len() implies os[a] != os[b] by {
        assert(order[a] != order[b]);
    }
    assert(os.no_duplicates());
    os.unique_seq_to_set();
    assert(os.to_set() =~= s) by {
        assert forall|j: int| s.contains(j) implies os.to_set().contains(j) by {
            assert(order.contains(j as usize));
            let a = choose|a: int| 0 <= a < order.len() && order[a] == j as usize;
            assert(os[a] == j);
        }
        assert forall|j: int| os.to_set().contains(j) implies s.contains(j) by {
            let a = choose|a: int| 0 <= a < os.len() && os[a] == j;
            assert(order[a] < n);
        }
    }
    assert forall|e: int| 0 <= e < g.edges@.len() implies listed_before(names, (#[trigger] g.edges@[e]).from@, g.edges@[e].to@) by {
        let kf = choose|j: int| 0 <= j < n && g.nodes@[j].name@ == g.edges@[e].from@;
        let kt = choose|j: int| 0 <= j < n && g.nodes@[j].name@ == g.edges@[e].to@;
        assert(edge_between(g, kf, kt));
        assert(order.contains(kt as usize));
        let b = choose|b: int| 0 <= b < order.len() && order[b] == kt as usize;
        assert(order.take(b).contains(kf as usize));
        let a = choose|a: int| 0 <= a < b && #[trigger] order.take(b)[a] == kf as usize;
        assert(order[a] == kf as usize);
        assert(names[a]@ == g.edges@[e].from@);
        assert(names[b]@ == g.edges@[e].to@);
    }
}

/// The PDA sequence is fixed by the registry: any two runs on the same
/// registry and program take the same order and give entries that agree
/// in name, seeds, program and size.
pub proof fn lemma_pda_sequence_is_fixed(
    accts: Seq<AccountInfo>,
    program: Seq<char>,
    v1: Seq<PdaInit>,
    o1: Seq<usize>,
    v2: Seq<PdaInit>,
    o2: Seq<usize>,
)
    requires
        pda_records(accts).len() <= usize::MAX,
        pda_sequence(v1, accts, program, o1),
        pda_sequence(v2, accts, program, o2),
    ensures
        o1 == o2,
        v1.len() == v2.len(),
        forall|a: int|
            0 <= a < v1.len() ==> {
                &&& (#[trigger] v1[a]).account_name@ == v2[a].account_name@
                &&& v1[a].seeds@.len() == v2[a].seeds@.len()
                &&& forall|k: int|
                    0 <= k < v1[a].seeds@.len() ==> (#[trigger] v1[a].seeds@[k]).seed_type == v2[a].seeds@[k].seed_type
                        && v1[a].seeds@[k].value@ == v2[a].seeds@[k].value@
                &&& v1[a].program_id@ == v2[a].program_id@
                &&& v1[a].space == v2[a].space
            },
{
    let pdas = pda_records(accts);
    let n = pdas.len() as int;
    let w = pda_waits(keys_of(pdas));
    lemma_covering_is_exhausted(w, n, o1);
    lemma_covering_is_exhausted(w, n, o2);
    lemma_lowest_first_unique(w, n, o1, o2);
    assert forall|a: int| 0 <= a < v1.len() implies {
        &&& (#[trigger] v1[a]).account_name@ == v2[a].account_name@
        &&& v1[a].seeds@.len() == v2[a].seeds@.len()
        &&& forall|k: int|
            0 <= k < v1[a].seeds@.len() ==> (#[trigger] v1[a].seeds@[k]).seed_type == v2[a].seeds@[k].seed_type
                && v1[a].seeds@[k].value@ == v2[a].seeds@[k].value@
        &&& v1[a].program_id@ == v2[a].program_id@
        &&& v1[a].space == v2[a].space
    } by {
        let r = pdas[o1[a] as int];
        assert(pda_init_of(v1[a], r, program));
        assert(pda_init_of(v2[a], r, program));
        assert forall|k: int| 0 <= k < v1[a].seeds@.len() implies (#[trigger] v1[a].seeds@[k]).seed_type
            == v2[a].seeds@[k].seed_type && v1[a].seeds@[k].value@ == v2[a].seeds@[k].value@ by {
            assert(v1[a].seeds@[k].seed_type == output_seed_type(r.seeds@[k].seed_type));
            assert(v2[a].seeds@[k].seed_type == output_seed_type(r.seeds@[k].seed_type));
        }
    }
}

/// The list is strictly increasing.
pub open spec fn ascending(x: Seq<usize>) -> bool {
    forall|a: int, b: int| 0 <= a < b < x.len() ==> x[a] < x[b]
}

proof fn lemma_ascending_unique(x: Seq<usize>, y: Seq<usize>)
    requires
        ascending(x),
        ascending(y),
        forall|v: usize| x.contains(v) <==> #[trigger] y.contains(v),
    ensures
        x == y,
    decreases x.len(),
{
    if x.len() == 0 {
        if y.len() > 0 {
            assert(y.contains(y[0]));
        }
        assert(x =~= y);
    } else {
        assert(x.contains(x[0]));
        assert(y.contains(x[0]));
        assert(y.len() > 0);
        assert(y.contains(y[0]));
        assert(x.contains(y[0]));
        let i = choose|i: int| 0 <= i < x.len() && x[i] == y[0];
        let j = choose|j: int| 0 <= j < y.len() && y[j] == x[0];
        if i > 0 {
            assert(x[0] < x[i]);
        }
        if j > 0 {
            assert(y[0] < y[j]);
        }
        assert(x[0] == y[0]);
        let x1 = x.drop_first();
        let y1 = y.drop_first();
        assert forall|v: usize| x1.contains(v) <==> #[trigger] y1.contains(v) by {
            if x1.contains(v) {
                let a = choose|a: int| 0 <= a < x1.len() && x1[a] == v;
                assert(x[a + 1] == v);
                assert(x[0] < x[a + 1]);
                assert(y.contains(v));
                let b = choose|b: int| 0 <= b < y.len() && y[b] == v;
                assert(b != 0);
                assert(y1[b - 1] == v);
            }
            if y1.contains(v) {
                let b = choose|b: int| 0 <= b < y1.len() && y1[b] == v;
                assert(y[b + 1] == v);
                assert(y[0] < y[b + 1]);
                assert(y.contains(v));
                assert(x.contains(v));
                let a = choose|a: int| 0 <= a < x.len() && x[a] == v;
                assert(a != 0);
                assert(x1[a - 1] == v);
            }
        }
        lemma_ascending_unique(x1, y1);
        assert(x =~= seq![x[0]] + x1);
        assert(y =~= seq![y[0]] + y1);
    }
}

proof fn lemma_setup_prefix_exhausted(steps: Seq<PlannedStep>, order: Seq<usize>, k: int)
    requires
        steps.len() <= usize::MAX,
        setup_order(steps, order, k),
    ensures
        exhausted_by(step_waits(steps), steps.len() as int, order.take(k)),
{
    let n = steps.len() as int;
    assert forall|i: int| !#[trigger] ready_by(step_waits(steps), n, order.take(k), i) by {
        if 0 <= i < n && !order.take(k).contains(i as usize) {
            assert(left_waiting(steps, order.take(k), i));
            let j = choose|j: int| #[trigger] step_waits_for(steps, i, j) && !order.take(k).contains(j as usize);
            let x = choose|x: Seq<char>| steps[i].needs.contains(x) && #[trigger] first_target(steps, x, j);
            assert(step_waits(steps)(i, j));
        }
    }
}

/// The setup steps are fixed by the account initialization order: any two
/// runs on the same entries give the same steps in the same order.
pub proof fn lemma_setup_is_fixed(deps: Seq<AccountDependency>, r1: Seq<SetupRequirement>, r2: Seq<SetupRequirement>)
    requires
        planned_steps(deps).len() <= usize::MAX,
        setup_plan(deps, r1),
        setup_plan(deps, r2),
    ensures
        r1.len() == r2.len(),
        forall|a: int|
            0 <= a < r1.len() ==> {
                &&& (#[trigger] r1[a]).requirement_type == r2[a].requirement_type
                &&& r1[a].description@ == r2[a].description@
                &&& names_of(r1[a].dependencies@) == names_of(r2[a].dependencies@)
                &&& r1[a].target matches Some(t1) && r2[a].target matches Some(t2) && t1@ == t2@
            },
{
    let steps = planned_steps(deps);
    let n = steps.len() as int;
    let (o1, k1) = choose|order: Seq<usize>, k: int|
        #![trigger setup_order(steps, order, k)]
        setup_order(steps, order, k) && r1.len() == order.len() && forall|a: int|
            0 <= a < order.len() ==> requirement_of(#[trigger] r1[a], steps[order[a] as int]);
    let (o2, k2) = choose|order: Seq<usize>, k: int|
        #![trigger setup_order(steps, order, k)]
        setup_order(steps, order, k) && r2.len() == order.len() && forall|a: int|
            0 <= a < order.len() ==> requirement_of(#[trigger] r2[a], steps[order[a] as int]);
    lemma_setup_prefix_exhausted(steps, o1, k1);
    lemma_setup_prefix_exhausted(steps, o2, k2);
    lemma_lowest_first_unique(step_waits(steps), n, o1.take(k1), o2.take(k2));
    let p = o1.take(k1);
    assert(k1 == k2);
    let t1 = o1.subrange(k1, o1.len() as int);
    let t2 = o2.subrange(k2, o2.len() as int);
    assert forall|v: usize| t1.contains(v) <==> #[trigger] t2.contains(v) by {
        if t1.contains(v) {
            let a = choose|a: int| 0 <= a < t1.len() && t1[a] == v;
            assert(o1[k1 + a] == v);
            assert(v < n);
            if p.contains(v) {
                let b = choose|b: int| 0 <= b < p.len() && p[b] == v;
                assert(o1[b] == v);
            }
            assert(o2.contains(v));
            let c = choose|c: int| 0 <= c < o2.len() && o2[c] == v;
            if c < k2 {
                assert(o2.take(k2)[c] == v);
            }
            assert(t2[c - k2] == v);
        }
        if t2.contains(v) {
            let a = choose|a: int| 0 <= a < t2.len() && t2[a] == v;
            assert(o2[k2 + a] == v);
            assert(v < n);
            if p.contains(v) {
                let b = choose|b: int| 0 <= b < p.len() && p[b] == v;
                assert(o2.take(k2)[b] == v);
                assert(o2[b] == v);
            }
            assert(o1.contains(v));
            let c = choose|c: int| 0 <= c < o1.len() && o1[c] == v;
            if c < k1 {
                assert(p[c] == v);
            }
            assert(t1[c - k1] == v);
        }
    }
    assert forall|a: int, b: int| 0 <= a < b < t1.len() implies t1[a] < t1[b] by {
        assert(o1[k1 + a] < o1[k1 + b]);
    }
    assert forall|a: int, b: int| 0 <= a < b < t2.len() implies t2[a] < t2[b] by {
        assert(o2[k2 + a] < o2[k2 + b]);
    }
    lemma_ascending_unique(t1, t2);
    assert(o1 =~= o1.take(k1) + t1);
    assert(o2 =~= o2.take(k2) + t2);
    assert(o1 == o2);
    assert forall|a: int| 0 <= a < r1.len() implies {
        &&& (#[trigger] r1[a]).requirement_type == r2[a].requirement_type
        &&& r1[a].description@ == r2[a].description@
        &&& names_of(r1[a].dependencies@) == names_of(r2[a].dependencies@)
        &&& r1[a].target matches Some(t1) && r2[a].target matches Some(t2) && t1@ == t2@
    } by {
        assert(requirement_of(r1[a], steps[o1[a] as int]));
        assert(requirement_of(r2[a], steps[o2[a] as int]));
    }
}

} // verus!
