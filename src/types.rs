//! The test plan that the analysis produces.
use vstd::prelude::*;

verus! {

/// Everything the analysis produces for one description and execution order.
#[derive(Debug, PartialEq, Eq)]
pub struct TestMetadata {
    pub instruction_order: Vec<String>,
    pub account_dependencies: Vec<AccountDependency>,
    pub pda_init_sequence: Vec<PdaInit>,
    pub setup_requirements: Vec<SetupRequirement>,
    pub test_cases: Vec<InstructionTestCases>,
}

/// One account in initialization order.
#[derive(Debug, Clone, PartialEq, Eq)]
pub struct AccountDependency {
    pub account_name: String,
    pub depends_on: Vec<String>,
    pub is_pda: bool,
    pub is_signer: bool,
    pub is_mut: bool,
    pub must_be_initialized: bool,
    /// Position in initialization order, from 0, saturating at 255.
    pub initialization_order: u8,
}

/// How to create one program-derived account.
#[derive(Debug, Clone, PartialEq, Eq)]
pub struct PdaInit {
    pub account_name: String,
    pub seeds: Vec<SeedComponent>,
    pub program_id: String,
    /// Estimated size in bytes.
    pub space: Option<u64>,
}

#[derive(Debug, Clone, PartialEq, Eq)]
pub struct SeedComponent {
    pub seed_type: SeedType,
    pub value: String,
}

#[derive(Debug, Clone, Copy, PartialEq, Eq, Structural)]
pub enum SeedType {
    Static,
    AccountKey,
    Argument,
}

/// One step that a test harness performs before the instructions run.
#[derive(Debug, Clone, PartialEq, Eq)]
pub struct SetupRequirement {
    pub requirement_type: SetupType,
    pub description: String,
    /// Accounts that earlier steps must have taken care of.
    pub dependencies: Vec<String>,
    /// The account this step takes care of.
    pub target: Option<String>,
}

#[derive(Debug, Clone, Copy, PartialEq, Eq, Structural)]
pub enum SetupType {
    CreateKeypair,
    FundAccount,
    InitializePda,
    MintTokens,
    CreateAta,
}

/// The test cases of one instruction.
#[derive(Debug, PartialEq, Eq)]
pub struct InstructionTestCases {
    pub instruction_name: String,
    pub arguments: Vec<ArgumentInfo>,
    pub positive_cases: Vec<TestCase>,
    pub negative_cases: Vec<TestCase>,
}

#[derive(Debug, PartialEq, Eq)]
pub struct ArgumentInfo {
    pub name: String,
    pub arg_type: ArgumentType,
    pub constraints: Vec<ArgumentConstraint>,
    pub is_optional: bool,
}

#[derive(Debug, PartialEq, Eq)]
pub enum ArgumentType {
    U8,
    U16,
    U32,
    U64,
    U128,
    I8,
    I16,
    I32,
    I64,
    I128,
    Bool,
    String { max_length: Option<u32> },
    Pubkey,
    Vec { inner_type: Box<ArgumentType>, max_length: Option<u32> },
    Option { inner_type: Box<ArgumentType> },
    Struct { name: String },
    Enum { name: String, variants: Vec<String> },
}

#[derive(Debug, Clone, PartialEq, Eq)]
pub enum ArgumentConstraint {
    Min { value: i64 },
    Max { value: i64 },
    Range { min: i64, max: i64 },
    NonZero,
    MaxLength { value: u32 },
    MinLength { value: u32 },
    Custom { description: String },
}

/// One set of argument values with the outcome it should have.
#[derive(Debug, Clone, PartialEq, Eq)]
pub struct TestCase {
    pub test_type: TestCaseType,
    pub description: String,
    pub argument_values: Vec<TestArgumentValue>,
    pub expected_outcome: ExpectedOutcome,
}

#[derive(Debug, Clone, Copy, PartialEq, Eq, Structural)]
pub enum TestCaseType {
    Positive,
    NegativeBoundary,
    NegativeType,
    NegativeConstraint,
    NegativeNull,
    NegativeOverflow,
}

#[derive(Debug, Clone, PartialEq, Eq)]
pub struct TestArgumentValue {
    pub argument_name: String,
    pub value_type: TestValueType,
}

#[derive(Debug, Clone, PartialEq, Eq)]
pub enum TestValueType {
    Valid { description: String },
    Invalid { description: String, reason: String },
}

#[derive(Debug, Clone, PartialEq, Eq)]
pub enum ExpectedOutcome {
    Success { state_changes: Vec<String> },
    Failure { error_code: Option<String>, error_message: String },
}

} // verus!
