//! The whole analysis: registry, graph, account order, PDAs, setup steps
//! and test cases, assembled into one test plan.
use vstd::prelude::*;
use crate::account_order::{dependencies_for, has_account_cycle, AccountOrder};
use crate::errors::SolifyError;
use crate::graph::{edges_of, graph_lowest_first, graph_order, has_cycle, missing_entry, nodes_of, order_known, DependencyGraph};
use crate::idl::IdlData;
use crate::pda_detector::{pda_sequence, PdaDetector};
use crate::registry::{names_of, observations, registry_of, AccountRegistry, DependencyAnalyzerImpl};
use crate::setup_generator::{flow_satisfied, setup_plan, SetupGenerator};
use crate::test_case_generator::{cases_for_entry, TestCaseGenerator};
use crate::types::{AccountDependency, SetupRequirement, TestMetadata};

verus! {

/// Runs the whole analysis.
pub struct DependencyAnalyzer;

/// `m` is the test plan of `idl` under the execution order `order` and the
/// program `program`: built over the registry of the description and the
/// dependency graph of the order (see the stages' own contracts).
pub open spec fn plan_of(m: TestMetadata, idl: IdlData, order: Seq<String>, program: Seq<char>) -> bool {
    &&& names_of(m.instruction_order@) == names_of(order)
    &&& exists|reg: AccountRegistry, g: DependencyGraph, iorder: Seq<usize>|
        #![trigger registry_of(reg.accounts@, observations(idl.instructions@), program), graph_order(g, iorder)]
        {
            &&& reg.wf()
            &&& registry_of(reg.accounts@, observations(idl.instructions@), program)
            &&& nodes_of(g.nodes@, idl.instructions@, order, reg.accounts@)
            &&& edges_of(g.nodes@, reg.accounts@, g.edges@)
            &&& graph_order(g, iorder)
            &&& graph_lowest_first(g, iorder)
            &&& dependencies_for(m.account_dependencies@, g.nodes@, iorder, reg.accounts@)
            &&& exists|porder: Seq<usize>| #[trigger] pda_sequence(m.pda_init_sequence@, reg.accounts@, program, porder)
        }
    &&& !has_account_cycle(m.account_dependencies@)
    &&& setup_plan(m.account_dependencies@, m.setup_requirements@)
    &&& flow_satisfied(m.setup_requirements@)
    &&& m.test_cases@.len() == order.len()
    &&& forall|i: int| 0 <= i < order.len() ==> #[trigger] cases_for_entry(m.test_cases@[i], idl.instructions@, order[i]@)
}

/// Why the analysis of `idl` under `order` and `program` may stop with a
/// cycle: the instructions depend on one another in a cycle, or the
/// accounts of the initialization order do.
pub open spec fn cycle_found(idl: IdlData, order: Seq<String>, program: Seq<char>) -> bool {
    exists|reg: AccountRegistry, g: DependencyGraph|
        #![trigger registry_of(reg.accounts@, observations(idl.instructions@), program), edges_of(g.nodes@, reg.accounts@, g.edges@)]
        {
            &&& reg.wf()
            &&& registry_of(reg.accounts@, observations(idl.instructions@), program)
            &&& nodes_of(g.nodes@, idl.instructions@, order, reg.accounts@)
            &&& edges_of(g.nodes@, reg.accounts@, g.edges@)
            &&& (has_cycle(g) || exists|iorder: Seq<usize>, deps: Seq<AccountDependency>|
                #![trigger graph_order(g, iorder), dependencies_for(deps, g.nodes@, iorder, reg.accounts@)]
                graph_order(g, iorder) && dependencies_for(deps, g.nodes@, iorder, reg.accounts@)
                    && has_account_cycle(deps))
        }
}

/// Why the analysis may stop at the setup check: the setup steps of an
/// acyclic initialization order need an account before a step takes care
/// of it.
pub open spec fn setup_unsatisfied(idl: IdlData, order: Seq<String>, program: Seq<char>) -> bool {
    exists|reg: AccountRegistry, g: DependencyGraph, iorder: Seq<usize>, deps: Seq<AccountDependency>, reqs: Seq<SetupRequirement>|
        #![trigger registry_of(reg.accounts@, observations(idl.instructions@), program), graph_order(g, iorder), dependencies_for(deps, g.nodes@, iorder, reg.accounts@), setup_plan(deps, reqs)]
        {
            &&& reg.wf()
            &&& registry_of(reg.accounts@, observations(idl.instructions@), program)
            &&& nodes_of(g.nodes@, idl.instructions@, order, reg.accounts@)
            &&& edges_of(g.nodes@, reg.accounts@, g.edges@)
            &&& graph_order(g, iorder)
            &&& graph_lowest_first(g, iorder)
            &&& dependencies_for(deps, g.nodes@, iorder, reg.accounts@)
            &&& !has_account_cycle(deps)
            &&& setup_plan(deps, reqs)
            &&& !flow_satisfied(reqs)
        }
}

/// A copy of a list of strings.
fn copy_order(v: &Vec<String>) -> (r: Vec<String>)
    ensures
        names_of(r@) == names_of(v@),
{
    crate::account_order::clone_names(v)
}

impl DependencyAnalyzer {
    pub fn new() -> (r: Self) {
        DependencyAnalyzer
    }

    /// The test plan of `idl_data` (see `plan_of`). Each stage fails fast
    /// and its error comes back unchanged: `InvalidInstructionOrder` when an
    /// entry of the order names no instruction (and then only),
    /// `CircularDependency` when the instructions or the accounts depend on
    /// one another in a cycle, `DependencyAnalysisFailed` when a setup step
    /// needs an account that no earlier step takes care of.
    pub fn analyze_dependencies(
        &self,
        idl_data: &IdlData,
        execution_order: &Vec<String>,
        program: &String,
    ) -> (r: Result<TestMetadata, SolifyError>)
        ensures
            r matches Ok(m) ==> plan_of(m, *idl_data, execution_order@, program@),
            r matches Err(SolifyError::InvalidInstructionOrder(name)) ==> missing_entry(
                idl_data.instructions@,
                execution_order@,
                name@,
            ),
            !order_known(idl_data.instructions@, execution_order@) ==> r matches Err(
                SolifyError::InvalidInstructionOrder(_),
            ),
            r matches Err(e) ==> (e is InvalidInstructionOrder || e is CircularDependency
                || e is DependencyAnalysisFailed),
            r matches Err(SolifyError::CircularDependency) ==> order_known(idl_data.instructions@, execution_order@)
                && cycle_found(*idl_data, execution_order@, program@),
            r matches Err(SolifyError::DependencyAnalysisFailed(_)) ==> order_known(
                idl_data.instructions@,
                execution_order@,
            ) && setup_unsatisfied(*idl_data, execution_order@, program@),
    {
        let analyzer = DependencyAnalyzerImpl;
        let registry = match analyzer.build_account_registry(idl_data, program) {
            Ok(reg) => reg,
            Err(e) => {
                return Err(e);
            },
        };
        let graph = match analyzer.build_dependency_graph(idl_data, execution_order, &registry) {
            Ok(g) => g,
            Err(e) => {
                proof {
                    if e is CircularDependency {
                        let g = choose|g: DependencyGraph|
                            #[trigger] nodes_of(g.nodes@, idl_data.instructions@, execution_order@, registry.accounts@)
                                && edges_of(g.nodes@, registry.accounts@, g.edges@) && has_cycle(g);
                        assert(registry_of(registry.accounts@, observations(idl_data.instructions@), program@));
                        assert(edges_of(g.nodes@, registry.accounts@, g.edges@));
                        assert(cycle_found(*idl_data, execution_order@, program@));
                    }
                }
                return Err(e);
            },
        };
        let account_order = AccountOrder;
        let account_dependencies = match account_order.generate_account_dependencies(&graph, &registry) {
            Ok(d) => d,
            Err(e) => {
                proof {
                    assert(registry_of(registry.accounts@, observations(idl_data.instructions@), program@));
                    assert(edges_of(graph.nodes@, registry.accounts@, graph.edges@));
                    assert(cycle_found(*idl_data, execution_order@, program@));
                }
                return Err(e);
            },
        };
        let ghost iorder = choose|iorder: Seq<usize>|
            graph_order(graph, iorder) && graph_lowest_first(graph, iorder) && dependencies_for(
                account_dependencies@,
                graph.nodes@,
                iorder,
                registry.accounts@,
            );
        match account_order.validate_account_flow(&account_dependencies) {
            Ok(_) => {},
            Err(e) => {
                proof {
                    assert(registry_of(registry.accounts@, observations(idl_data.instructions@), program@));
                    assert(edges_of(graph.nodes@, registry.accounts@, graph.edges@));
                    assert(graph_order(graph, iorder));
                    assert(dependencies_for(account_dependencies@, graph.nodes@, iorder, registry.accounts@));
                    assert(cycle_found(*idl_data, execution_order@, program@));
                }
                return Err(e);
            },
        }
        let pda_detector = PdaDetector;
        let pda_init_sequence = match pda_detector.detect_pdas(&registry, program) {
            Ok(p) => p,
            Err(e) => {
                return Err(e);
            },
        };
        let setup_generator = SetupGenerator;
        let setup_requirements = match setup_generator.generate_setup_requirements(&account_dependencies) {
            Ok(s) => s,
            Err(e) => {
                return Err(e);
            },
        };
        match setup_generator.validate_setup_flow(&setup_requirements) {
            Ok(_) => {},
            Err(e) => {
                proof {
                    assert(registry_of(registry.accounts@, observations(idl_data.instructions@), program@));
                    assert(graph_order(graph, iorder));
                    assert(dependencies_for(account_dependencies@, graph.nodes@, iorder, registry.accounts@));
                    assert(setup_plan(account_dependencies@, setup_requirements@));
                    assert(setup_unsatisfied(*idl_data, execution_order@, program@));
                }
                return Err(e);
            },
        }
        let test_case_generator = TestCaseGenerator;
        let test_cases = match test_case_generator.generate_test_cases(idl_data, execution_order) {
            Ok(t) => t,
            Err(e) => {
                return Err(e);
            },
        };
        let m = TestMetadata {
            instruction_order: copy_order(execution_order),
            account_dependencies,
            pda_init_sequence,
            setup_requirements,
            test_cases,
        };
        proof {
            let porder = choose|porder: Seq<usize>| #[trigger] pda_sequence(m.pda_init_sequence@, registry.accounts@, program@, porder);
            assert(pda_sequence(m.pda_init_sequence@, registry.accounts@, program@, porder));
            assert(registry_of(registry.accounts@, observations(idl_data.instructions@), program@));
            assert(graph_order(graph, iorder));
        }
        Ok(m)
    }
}

} // verus!
