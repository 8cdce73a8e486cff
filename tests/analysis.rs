use solify::analyzer::DependencyAnalyzer;
use solify::account_order::AccountOrder;
use solify::errors::SolifyError;
use solify::graph::{DependencyEdge, DependencyGraph, DependencyType, InstructionNode};
use solify::idl::{IdlAccountItem, IdlData, IdlField, IdlInstruction, IdlPda, IdlSeed};
use solify::registry::DependencyAnalyzerImpl;
use solify::setup_generator::SetupGenerator;
use solify::types::{
    AccountDependency, ExpectedOutcome, SeedType, SetupRequirement, SetupType, TestCaseType, TestMetadata,
    TestValueType,
};

fn s(x: &str) -> String {
    x.to_string()
}

fn seed(kind: &str, path: &str) -> IdlSeed {
    IdlSeed { kind: s(kind), path: s(path), value: String::new() }
}

fn const_seed(literal: &str) -> IdlSeed {
    IdlSeed { kind: s("const"), path: String::new(), value: s(literal) }
}

fn item(name: &str, is_mut: bool, is_signer: bool, seeds: Option<Vec<IdlSeed>>) -> IdlAccountItem {
    IdlAccountItem {
        name: s(name),
        is_mut,
        is_signer,
        is_optional: false,
        docs: vec![],
        pda: seeds.map(|seeds| IdlPda { seeds, program: String::new() }),
    }
}

fn field(name: &str, ty: &str) -> IdlField {
    IdlField { name: s(name), field_type: s(ty) }
}

fn instruction(name: &str, accounts: Vec<IdlAccountItem>, args: Vec<IdlField>) -> IdlInstruction {
    IdlInstruction { name: s(name), accounts, args, docs: vec![] }
}

fn idl(instructions: Vec<IdlInstruction>) -> IdlData {
    IdlData {
        name: s("program"),
        version: s("0.1.0"),
        instructions,
        accounts: vec![],
        types: vec![],
        errors: vec![],
        constants: vec![],
        events: vec![],
    }
}

fn order(names: &[&str]) -> Vec<String> {
    names.iter().map(|n| s(n)).collect()
}

fn journal_idl() -> IdlData {
    let entry_seeds = vec![const_seed("entry"), seed("account", "authority")];
    idl(vec![
        instruction(
            "create_journal_entry",
            vec![
                item("journal_entry", true, false, Some(entry_seeds.clone())),
                item("authority", false, true, None),
                item("system_program", false, false, None),
            ],
            vec![field("title", "string"), field("message", "string")],
        ),
        instruction(
            "update_journal_entry",
            vec![
                item("journal_entry", true, false, Some(entry_seeds.clone())),
                item("authority", false, true, None),
            ],
            vec![field("title", "string"), field("message", "string")],
        ),
        instruction(
            "delete_journal_entry",
            vec![item("journal_entry", true, false, Some(entry_seeds)), item("authority", false, true, None)],
            vec![field("title", "string")],
        ),
    ])
}

fn run(data: &IdlData, names: &[&str]) -> Result<TestMetadata, SolifyError> {
    DependencyAnalyzer::new().analyze_dependencies(data, &order(names), &s("Prog1111"))
}

fn find<'a>(deps: &'a [AccountDependency], name: &str) -> &'a AccountDependency {
    deps.iter().find(|d| d.account_name == name).expect("account listed")
}

fn target(r: &SetupRequirement) -> &str {
    r.target.as_deref().unwrap_or("")
}

#[test]
fn journal_plan() {
    let data = journal_idl();
    let m = run(&data, &["create_journal_entry", "update_journal_entry", "delete_journal_entry"]).unwrap();
    assert_eq!(m.instruction_order, order(&["create_journal_entry", "update_journal_entry", "delete_journal_entry"]));

    assert_eq!(m.pda_init_sequence.len(), 1);
    let pda = &m.pda_init_sequence[0];
    assert_eq!(pda.account_name, "journal_entry");
    assert_eq!(pda.seeds.len(), 2);
    assert_eq!(pda.seeds[0].seed_type, SeedType::Static);
    assert_eq!(pda.seeds[0].value, "entry");
    assert_eq!(pda.seeds[1].seed_type, SeedType::AccountKey);
    assert_eq!(pda.seeds[1].value, "authority");
    assert_eq!(pda.program_id, "Prog1111");
    assert_eq!(m.test_cases[0].positive_cases.len(), 1);
    assert_eq!(pda.space, Some(8 + 64));

    let setup = &m.setup_requirements;
    assert_eq!(setup.len(), 3);
    assert_eq!(setup[0].requirement_type, SetupType::CreateKeypair);
    assert_eq!(target(&setup[0]), "authority");
    assert_eq!(setup[0].description, "Create keypair for authority");
    assert_eq!(setup[1].requirement_type, SetupType::FundAccount);
    assert_eq!(target(&setup[1]), "authority");
    assert_eq!(setup[1].dependencies, vec![s("authority")]);
    assert_eq!(setup[1].description, "Fund authority with SOL for transactions");
    assert_eq!(setup[2].requirement_type, SetupType::InitializePda);
    assert_eq!(target(&setup[2]), "journal_entry");
    assert_eq!(setup[2].dependencies, vec![s("authority")]);
    assert_eq!(setup[2].description, "Initialize journal_entry PDA");

    let authority = find(&m.account_dependencies, "authority");
    assert!(authority.is_signer);
    assert!(!authority.must_be_initialized);
    let entry = find(&m.account_dependencies, "journal_entry");
    assert!(entry.is_pda);
    assert!(entry.must_be_initialized);
    assert_eq!(entry.depends_on, vec![s("authority")]);
    assert_eq!(entry.initialization_order, 0);

    assert_eq!(m.test_cases.len(), 3);
    assert_eq!(m.test_cases[0].instruction_name, "create_journal_entry");
    assert_eq!(m.test_cases[2].instruction_name, "delete_journal_entry");
}

#[test]
fn seeded_account_follows_its_seed() {
    let data = idl(vec![
        instruction("init_a", vec![item("a", true, false, None)], vec![]),
        instruction("init_b", vec![item("b", true, false, Some(vec![seed("account", "a")])), item("a", false, false, None)], vec![]),
    ]);
    let analyzer = DependencyAnalyzerImpl;
    let registry = analyzer.build_account_registry(&data, &s("p")).unwrap();
    let graph = analyzer.build_dependency_graph(&data, &order(&["init_a", "init_b"]), &registry).unwrap();
    let deps = AccountOrder.generate_account_dependencies(&graph, &registry).unwrap();
    let a = find(&deps, "a");
    let b = find(&deps, "b");
    assert_eq!(b.depends_on, vec![s("a")]);
    assert!(a.initialization_order < b.initialization_order);
    assert_eq!(a.initialization_order, 0);
    assert_eq!(b.initialization_order, 1);
    assert_eq!(graph.edges.len(), 1);
    assert_eq!(graph.edges[0].from, "init_a");
    assert_eq!(graph.edges[0].to, "init_b");
    // `a` is neither a signer nor a PDA, so no setup step takes care of it
    // and the whole pipeline stops at the setup check.
    assert!(matches!(run(&data, &["init_a", "init_b"]), Err(SolifyError::DependencyAnalysisFailed(_))));
}

#[test]
fn accounts_seeded_by_each_other_form_a_cycle() {
    let data = idl(vec![
        instruction(
            "init_a",
            vec![item("a", true, false, Some(vec![seed("account", "b")])), item("b", false, false, None)],
            vec![],
        ),
        instruction(
            "init_b",
            vec![item("b", true, false, Some(vec![seed("account", "a")])), item("a", false, false, None)],
            vec![],
        ),
    ]);
    assert_eq!(run(&data, &["init_a", "init_b"]).unwrap_err(), SolifyError::CircularDependency);

    let analyzer = DependencyAnalyzerImpl;
    let registry = analyzer.build_account_registry(&data, &s("p")).unwrap();
    let graph = analyzer.build_dependency_graph(&data, &order(&["init_a", "init_b"]), &registry).unwrap();
    let deps = AccountOrder.generate_account_dependencies(&graph, &registry).unwrap();
    assert_eq!(AccountOrder.validate_account_flow(&deps), Err(SolifyError::CircularDependency));
}

fn node(name: &str) -> InstructionNode {
    InstructionNode { name: s(name), initializes: vec![], requires: vec![] }
}

fn edge(from: &str, to: &str) -> DependencyEdge {
    DependencyEdge { from: s(from), to: s(to), dependency_type: DependencyType::Initialization, account: s("x") }
}

#[test]
fn instruction_cycle_is_reported() {
    let graph = DependencyGraph { nodes: vec![node("i1"), node("i2")], edges: vec![edge("i1", "i2"), edge("i2", "i1")] };
    let analyzer = DependencyAnalyzerImpl;
    assert_eq!(analyzer.detect_circular_dependencies(&graph), Err(SolifyError::CircularDependency));
    assert_eq!(analyzer.topological_sort(&graph), Err(SolifyError::CircularDependency));
}

#[test]
fn topological_order_respects_edges() {
    let graph = DependencyGraph {
        nodes: vec![node("c"), node("a"), node("b"), node("d")],
        edges: vec![edge("a", "c"), edge("b", "c"), edge("a", "b")],
    };
    let sorted = DependencyAnalyzerImpl.topological_sort(&graph).unwrap();
    assert_eq!(sorted, order(&["a", "b", "c", "d"]));
}

#[test]
fn one_dependency_entry_per_account() {
    let data = journal_idl();
    let m = run(&data, &["create_journal_entry", "update_journal_entry", "delete_journal_entry"]).unwrap();
    let mut names: Vec<&str> = m.account_dependencies.iter().map(|d| d.account_name.as_str()).collect();
    assert_eq!(names.len(), 3);
    names.sort();
    assert_eq!(names, vec!["authority", "journal_entry", "system_program"]);
    let orders: Vec<u8> = m.account_dependencies.iter().map(|d| d.initialization_order).collect();
    assert_eq!(orders, vec![0, 1, 2]);
}

#[test]
fn keypair_precedes_funding_and_pda() {
    let deps = vec![
        AccountDependency {
            account_name: s("vault"),
            depends_on: vec![s("owner"), s("elsewhere")],
            is_pda: true,
            is_signer: false,
            is_mut: true,
            must_be_initialized: true,
            initialization_order: 0,
        },
        AccountDependency {
            account_name: s("owner"),
            depends_on: vec![],
            is_pda: false,
            is_signer: true,
            is_mut: true,
            must_be_initialized: false,
            initialization_order: 1,
        },
    ];
    let reqs = SetupGenerator.generate_setup_requirements(&deps).unwrap();
    let kinds: Vec<SetupType> = reqs.iter().map(|r| r.requirement_type).collect();
    assert_eq!(kinds, vec![SetupType::CreateKeypair, SetupType::FundAccount, SetupType::InitializePda]);
    assert_eq!(reqs[2].dependencies, vec![s("owner")]);
    assert_eq!(SetupGenerator.validate_setup_flow(&reqs), Ok(true));
}

#[test]
fn setup_flow_reports_unsatisfied_dependency() {
    let reqs = vec![SetupRequirement {
        requirement_type: SetupType::InitializePda,
        description: s("Initialize pool PDA"),
        dependencies: vec![s("mint")],
        target: Some(s("pool")),
    }];
    match SetupGenerator.validate_setup_flow(&reqs) {
        Err(SolifyError::DependencyAnalysisFailed(msg)) => assert_eq!(msg, "Dependency not satisfied: mint"),
        other => panic!("unexpected {:?}", other),
    }
}

#[test]
fn unsigned_amount_cases() {
    let data = idl(vec![instruction("deposit", vec![], vec![field("amount", "u64")])]);
    let m = run(&data, &["deposit"]).unwrap();
    let tc = &m.test_cases[0];
    let neg = &tc.negative_cases;
    let zero = neg
        .iter()
        .find(|c| {
            matches!(&c.argument_values[0].value_type, TestValueType::Invalid { description, .. } if description == "0")
        })
        .expect("zero case");
    assert_eq!(
        zero.expected_outcome,
        ExpectedOutcome::Failure { error_code: Some(s("ZeroAmount")), error_message: s("amount cannot be zero") }
    );
    let overflow = neg.iter().find(|c| c.test_type == TestCaseType::NegativeOverflow).expect("overflow case");
    assert!(matches!(&overflow.argument_values[0].value_type, TestValueType::Invalid { description, .. } if description == "u64::MAX"));
    let below = &neg[0];
    assert_eq!(below.description, "deposit - amount below minimum");
    assert!(matches!(&below.argument_values[0].value_type,
        TestValueType::Invalid { description, reason } if description == "-1" && reason == "Below minimum value of 0"));
    assert_eq!(neg.len(), 4);
    assert_eq!(tc.positive_cases.len(), 2);
    assert_eq!(tc.positive_cases[0].description, "deposit - valid inputs");
    assert_eq!(tc.positive_cases[1].description, "amount - minimum value");
}

#[test]
fn pipeline_is_deterministic() {
    let data = journal_idl();
    let names = ["create_journal_entry", "update_journal_entry", "delete_journal_entry"];
    assert_eq!(run(&data, &names).unwrap(), run(&data, &names).unwrap());
}

#[test]
fn unknown_instruction_in_order() {
    let data = journal_idl();
    assert_eq!(
        run(&data, &["create_journal_entry", "close_journal"]).unwrap_err(),
        SolifyError::InvalidInstructionOrder(s("close_journal"))
    );
}

#[test]
fn seed_edges_need_account_keys() {
    let make = |kind: &str| {
        idl(vec![
            instruction("init_stats", vec![item("user_stats", true, false, None)], vec![]),
            instruction(
                "create_vault",
                vec![item("vault", true, false, Some(vec![seed(kind, "user_stats")]))],
                vec![],
            ),
        ])
    };
    let analyzer = DependencyAnalyzerImpl;
    let by_key = make("account");
    let registry = analyzer.build_account_registry(&by_key, &s("p")).unwrap();
    let graph = analyzer.build_dependency_graph(&by_key, &order(&["init_stats", "create_vault"]), &registry).unwrap();
    assert_eq!(graph.edges.len(), 1);
    assert_eq!(graph.edges[0].dependency_type, DependencyType::SeedDependency);
    assert_eq!(graph.edges[0].account, "vault");
    let by_arg = make("arg");
    let registry = analyzer.build_account_registry(&by_arg, &s("p")).unwrap();
    let graph = analyzer.build_dependency_graph(&by_arg, &order(&["init_stats", "create_vault"]), &registry).unwrap();
    assert!(graph.edges.is_empty());
}

#[test]
fn unrelated_instructions_keep_their_order() {
    let graph = DependencyGraph { nodes: vec![node("z"), node("y"), node("x")], edges: vec![] };
    assert_eq!(DependencyAnalyzerImpl.topological_sort(&graph).unwrap(), order(&["z", "y", "x"]));
}
