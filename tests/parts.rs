use solify::errors::SolifyError;
use solify::naming::{cut_program_name, to_camel_case, to_pascal_case};
use solify::cli::{is_program_too_large_error, is_too_large_message, adjust_scroll, clamp_scroll, compute_max_scroll, sanitize_idl_name, truncate_str, CliConfig, GeneratedFiles};
use solify::idl::{
    find_instruction, get_instruction_names, get_pda_accounts, get_signer_accounts, get_writable_accounts,
    IdlAccountItem, IdlData, IdlField, IdlInstruction, IdlPda, IdlSeed,
};
use solify::pda_detector::PdaDetector;
use solify::registry::{AccountInfo, DependencyAnalyzerImpl, SeedSource, SeedType as RegistrySeedType};
use solify::setup_generator::SetupGenerator;
use solify::test_case_generator::TestCaseGenerator;
use solify::types::{ArgumentConstraint, ArgumentInfo, ArgumentType, ExpectedOutcome, PdaInit, SeedComponent, SeedType, TestValueType};

fn s(x: &str) -> String {
    x.to_string()
}

fn account(name: &str) -> AccountInfo {
    AccountInfo {
        name: s(name),
        is_pda: true,
        is_signer: false,
        is_mut: true,
        initialized_by: None,
        seeds: vec![],
        program: None,
        used_in: vec![],
        constraints: vec![],
    }
}

fn item(name: &str, is_mut: bool, is_signer: bool, seeds: Option<Vec<IdlSeed>>) -> IdlAccountItem {
    IdlAccountItem {
        name: s(name),
        is_mut,
        is_signer,
        is_optional: false,
        docs: vec![],
        pda: seeds.map(|seeds| IdlPda { seeds, program: String::new() }),
    }
}

fn seed(kind: &str, path: &str) -> IdlSeed {
    IdlSeed { kind: s(kind), path: s(path), value: String::new() }
}

fn sample_instruction() -> IdlInstruction {
    IdlInstruction {
        name: s("InitVault"),
        accounts: vec![
            item("vault", true, false, Some(vec![IdlSeed { kind: s("constant"), path: s("vault"), value: s("vault_v1") }, seed("arg", "user_seed"), seed("weird", "x"), seed("account", "owner")])),
            item("owner", true, true, None),
            item("mint", false, false, None),
        ],
        args: vec![],
        docs: vec![],
    }
}

#[test]
fn space_follows_lower_case_name() {
    let d = PdaDetector;
    assert_eq!(d.estimate_account_space(&account("UserVault")), 8 + 128);
    assert_eq!(d.estimate_account_space(&account("main_vault")), 8 + 256);
    assert_eq!(d.estimate_account_space(&account("LiquidityPool")), 8 + 512);
    assert_eq!(d.estimate_account_space(&account("market")), 8 + 1024);
    assert_eq!(d.estimate_account_space(&account("config")), 8 + 64);
    assert_eq!(d.estimate_account_space(&account("TokenAccount")), 8 + 128);
}

#[test]
fn observation_parsing() {
    let ins = sample_instruction();
    let analyzer = DependencyAnalyzerImpl;
    let vault = analyzer.parse_account_info(&ins.accounts[0], &ins, &s("prog"));
    assert!(vault.is_pda);
    assert_eq!(vault.initialized_by, Some(s("InitVault")));
    let kinds: Vec<RegistrySeedType> = vault.seeds.iter().map(|x| x.seed_type).collect();
    assert_eq!(kinds, vec![RegistrySeedType::Static, RegistrySeedType::Argument, RegistrySeedType::Static, RegistrySeedType::AccountKey]);
    assert!(matches!(vault.seeds[0].source, SeedSource::Vault));
    assert_eq!(vault.seeds[0].value, "vault_v1");
    assert_eq!(vault.seeds[1].value, "user_seed");
    assert!(matches!(vault.seeds[1].source, SeedSource::UserAccount));
    assert!(matches!(&vault.seeds[2].source, SeedSource::Custom(p) if p == "x"));
    assert!(matches!(vault.seeds[3].source, SeedSource::Authority));
    assert_eq!(vault.constraints[0].value, Some(s("4 seeds")));
    assert_eq!(vault.program, Some(s("prog")));
    let mint = analyzer.parse_account_info(&ins.accounts[2], &ins, &s("prog"));
    assert_eq!(mint.initialized_by, None);
    assert!(mint.constraints.is_empty());
}

#[test]
fn registry_merges_observations() {
    let first = sample_instruction();
    let second = IdlInstruction {
        name: s("deposit"),
        accounts: vec![item("vault", true, false, None), item("owner", false, true, None)],
        args: vec![],
        docs: vec![],
    };
    let data = IdlData {
        name: s("p"),
        version: s("1"),
        instructions: vec![first, second],
        accounts: vec![],
        types: vec![],
        errors: vec![],
        constants: vec![],
        events: vec![],
    };
    let reg = DependencyAnalyzerImpl.build_account_registry(&data, &s("p")).unwrap();
    let names: Vec<&str> = reg.accounts.iter().map(|a| a.name.as_str()).collect();
    assert_eq!(names, vec!["vault", "owner", "mint"]);
    let vault = reg.get_account("vault").unwrap();
    assert_eq!(vault.used_in, vec![s("InitVault"), s("deposit")]);
    assert_eq!(vault.initialized_by, Some(s("InitVault")));
    assert_eq!(vault.seeds.len(), 4);
    assert!(reg.get_account("nothing").is_none());
    assert_eq!(reg.find_accounts_initialized_by("InitVault").len(), 2);
}

#[test]
fn pda_seed_check() {
    let mut reg = solify::registry::AccountRegistry::new();
    reg.add_or_update_account(account("owner"));
    let pda = PdaInit {
        account_name: s("vault"),
        seeds: vec![
            SeedComponent { seed_type: SeedType::Static, value: s("vault") },
            SeedComponent { seed_type: SeedType::Argument, value: s("id") },
            SeedComponent { seed_type: SeedType::AccountKey, value: s("owner") },
        ],
        program_id: s("p"),
        space: None,
    };
    assert_eq!(PdaDetector.validate_pda_seeds(&pda, &reg), Ok(true));
    let mut missing = pda.clone();
    missing.seeds.push(SeedComponent { seed_type: SeedType::AccountKey, value: s("ghost") });
    assert_eq!(PdaDetector.validate_pda_seeds(&missing, &reg), Ok(false));
}

#[test]
fn targets_from_descriptions() {
    let g = SetupGenerator;
    assert_eq!(g.extract_target_from_description("Create keypair for alice"), Some(s("alice")));
    assert_eq!(g.extract_target_from_description("Fund bob with SOL for transactions"), Some(s("transactions")));
    assert_eq!(g.extract_target_from_description("Initialize pool PDA"), Some(s("pool")));
    assert_eq!(g.extract_target_from_description("a for b for c"), Some(s("b ")));
    assert_eq!(g.extract_target_from_description("nothing here"), None);
}

#[test]
fn signed_bounds_in_cases() {
    let gen = TestCaseGenerator;
    let arg = ArgumentInfo { name: s("delta"), arg_type: ArgumentType::I32, constraints: vec![], is_optional: false };
    let below = gen.create_constraint_violation_case(&s("adjust"), &arg, &ArgumentConstraint::Min { value: -5 }).unwrap();
    assert_eq!(below.description, "adjust - delta below minimum");
    assert!(matches!(&below.argument_values[0].value_type,
        TestValueType::Invalid { description, reason } if description == "-6" && reason == "Below minimum value of -5"));
    let above = gen.create_constraint_violation_case(&s("adjust"), &arg, &ArgumentConstraint::Max { value: 41 }).unwrap();
    assert!(matches!(&above.argument_values[0].value_type, TestValueType::Invalid { description, .. } if description == "42"));
    assert_eq!(above.expected_outcome, ExpectedOutcome::Failure {
        error_code: Some(s("ConstraintViolation")),
        error_message: s("delta must be at most 41"),
    });
    assert!(gen.create_constraint_violation_case(&s("adjust"), &arg, &ArgumentConstraint::MinLength { value: 1 }).is_none());
}

#[test]
fn argument_types_and_combined_case() {
    let gen = TestCaseGenerator;
    let fields = vec![
        IdlField { name: s("label"), field_type: s("string") },
        IdlField { name: s("owner"), field_type: s("publicKey") },
        IdlField { name: s("blob"), field_type: s("Vec<u8>") },
    ];
    let args = gen.parse_arguments(&fields);
    assert_eq!(args[0].arg_type, ArgumentType::String { max_length: None });
    assert_eq!(args[0].constraints, vec![ArgumentConstraint::MinLength { value: 1 }, ArgumentConstraint::MaxLength { value: 100 }]);
    assert_eq!(args[1].arg_type, ArgumentType::Pubkey);
    assert_eq!(args[2].arg_type, ArgumentType::Vec { inner_type: Box::new(ArgumentType::U8), max_length: None });
    let neg = gen.generate_negative_cases(&s("set"), &args);
    // two string cases, one key case, then the combined case
    assert_eq!(neg.len(), 4);
    assert_eq!(neg[0].description, "set - label empty string");
    assert_eq!(neg[2].description, "set - owner invalid pubkey");
    assert_eq!(neg[3].description, "set - all arguments invalid");
    assert_eq!(neg[3].argument_values.len(), 3);
    assert_eq!(neg[3].expected_outcome, ExpectedOutcome::Failure { error_code: None, error_message: s("Multiple validation errors") });
    let pos = gen.generate_positive_cases(&s("set"), &args);
    assert_eq!(pos.len(), 1);
    let values: Vec<String> = pos[0]
        .argument_values
        .iter()
        .map(|v| match &v.value_type {
            TestValueType::Valid { description } => description.clone(),
            TestValueType::Invalid { .. } => s("?"),
        })
        .collect();
    assert_eq!(values, vec![s("\"test_value\""), s("authority.publicKey"), s("/* valid value */")]);
}

#[test]
fn instruction_queries() {
    let data = IdlData {
        name: s("p"),
        version: s("1"),
        instructions: vec![sample_instruction()],
        accounts: vec![],
        types: vec![],
        errors: vec![],
        constants: vec![],
        events: vec![],
    };
    assert_eq!(get_instruction_names(&data), vec![s("InitVault")]);
    let ins = find_instruction(&data, "InitVault").unwrap();
    assert!(find_instruction(&data, "other").is_none());
    assert_eq!(get_pda_accounts(ins), vec![s("vault")]);
    assert_eq!(get_signer_accounts(ins), vec![s("owner")]);
    assert_eq!(get_writable_accounts(ins), vec![s("vault"), s("owner")]);
}

#[test]
fn text_truncation() {
    assert_eq!(truncate_str("short", 10), "short");
    assert_eq!(truncate_str("exactly", 7), "exactly");
    assert_eq!(truncate_str("a longer text", 8), "a lon...");
    assert_eq!(truncate_str("abcdef", 2), "...");
}

#[test]
fn generated_files_and_config() {
    let mut files = GeneratedFiles::new();
    assert!(files.is_empty());
    files.add_file(s("tests/a.ts"));
    files.add_file(s("tests/b.ts"));
    assert_eq!(files.count(), 2);
    assert_eq!(files.files(), &[s("tests/a.ts"), s("tests/b.ts")][..]);
    let quiet = CliConfig::default();
    assert!(!quiet.verbose);
    assert_eq!(quiet.rpc_url, "https://api.devnet.solana.com");
    let config = CliConfig::new(s("http://localhost:8899"), true);
    assert!(config.verbose);
    assert_eq!(config.rpc_url, "http://localhost:8899");
}

#[test]
fn file_name_sanitizing() {
    assert_eq!(sanitize_idl_name("my-program_v2"), "my-program_v2");
    assert_eq!(sanitize_idl_name("token vault.json"), "token_vault_json");
    assert_eq!(sanitize_idl_name(""), "");
}

#[test]
fn scrolling() {
    assert_eq!(compute_max_scroll(10, 0), 0);
    assert_eq!(compute_max_scroll(5, 10), 0);
    assert_eq!(compute_max_scroll(30, 10), 20);
    assert_eq!(compute_max_scroll(100_000, 1), 65535);
    let mut pos: u16 = 50;
    clamp_scroll(&mut pos, 30, 10);
    assert_eq!(pos, 20);
    adjust_scroll(&mut pos, false, 30, 10);
    assert_eq!(pos, 20);
    adjust_scroll(&mut pos, true, 30, 10);
    assert_eq!(pos, 19);
    adjust_scroll(&mut pos, false, 30, 10);
    assert_eq!(pos, 20);
    let mut top: u16 = 0;
    adjust_scroll(&mut top, true, 30, 10);
    assert_eq!(top, 0);
    adjust_scroll(&mut top, false, 5, 10);
    assert_eq!(top, 0);
}

#[test]
fn error_messages() {
    assert_eq!(SolifyError::CircularDependency.message(), "Circular dependency detected");
    assert_eq!(SolifyError::InvalidInstructionOrder(s("close")).message(), "Invalid instruction order: close");
    assert_eq!(
        SolifyError::DependencyAnalysisFailed(s("Dependency not satisfied: mint")).message(),
        "Dependency analysis failed: Dependency not satisfied: mint"
    );
}

#[test]
fn signed_integer_cases() {
    let gen = TestCaseGenerator;
    let args = gen.parse_arguments(&vec![IdlField { name: s("delta"), field_type: s("i64") }]);
    assert_eq!(args[0].arg_type, ArgumentType::I64);
    assert_eq!(args[0].constraints, vec![ArgumentConstraint::Min { value: 0 }, ArgumentConstraint::NonZero]);
    let neg = gen.generate_negative_cases(&s("shift"), &args);
    let titles: Vec<&str> = neg.iter().map(|c| c.description.as_str()).collect();
    assert_eq!(titles, vec!["shift - delta below minimum", "shift - delta is zero", "shift - delta overflow"]);
    let pos = gen.generate_positive_cases(&s("shift"), &args);
    assert!(matches!(&pos[0].argument_values[0].value_type, TestValueType::Valid { description } if description == "500"));
}

#[test]
fn identifier_forms() {
    assert_eq!(to_camel_case("initialize_user_account"), "initializeUserAccount");
    assert_eq!(to_camel_case("MY_PROGRAM"), "myProgram");
    assert_eq!(to_camel_case("a__b"), "aB");
    assert_eq!(to_camel_case(""), "");
    assert_eq!(to_pascal_case("my_program"), "MyProgram");
    assert_eq!(to_pascal_case("TOKEN_vault_"), "TokenVault");
    assert_eq!(to_pascal_case(""), "");
    assert_eq!(cut_program_name("token_vault"), "token");
    assert_eq!(cut_program_name("journal"), "journal");
}

#[test]
fn too_large_program_messages() {
    assert!(is_too_large_message("error: out of memory"));
    assert!(is_too_large_message("transaction simulation failed: program panicked at memory"));
    assert!(!is_too_large_message("transaction simulation failed: blockhash not found"));
    assert!(is_program_too_large_error(&vec![s("Request failed"), s("Compute Budget Exceeded")]));
    assert!(!is_program_too_large_error(&vec![s("account not found")]));
}
