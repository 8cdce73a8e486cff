use vstd::prelude::*;
use crate::text::concat2;

verus! {

/// Every way in which an analysis stage can fail.
#[derive(Debug, PartialEq, Eq)]
pub enum SolifyError {
    IdlNotFound(String),
    IdlParseFailed(String),
    /// An execution-order entry is absent from the description.
    InvalidInstructionOrder(String),
    /// The instruction graph or the account graph has a cycle.
    CircularDependency,
    AccountNotFound(String),
    InstructionNotFound(String),
    SerializationError(String),
    RpcError(String),
    TransactionError(String),
    TemplateError(String),
    Unknown(String),
    /// A downstream failure, with context.
    DependencyAnalysisFailed(String),
    InvalidSetupRequirement,
    InvalidPdaInitialization,
    InvalidTestCase,
}

/// The text that describes an error.
pub open spec fn error_text(e: SolifyError) -> Seq<char> {
    match e {
        SolifyError::IdlNotFound(x) => "IDL file not found: "@ + x@,
        SolifyError::IdlParseFailed(x) => "Failed to parse IDL: "@ + x@,
        SolifyError::InvalidInstructionOrder(x) => "Invalid instruction order: "@ + x@,
        SolifyError::CircularDependency => "Circular dependency detected"@,
        SolifyError::AccountNotFound(x) => "Account not found: "@ + x@,
        SolifyError::InstructionNotFound(x) => "Instruction not found: "@ + x@,
        SolifyError::SerializationError(x) => "Serialization error: "@ + x@,
        SolifyError::RpcError(x) => "RPC error: "@ + x@,
        SolifyError::TransactionError(x) => "Transaction error: "@ + x@,
        SolifyError::TemplateError(x) => "Template rendering error: "@ + x@,
        SolifyError::Unknown(x) => "Unknown error: "@ + x@,
        SolifyError::DependencyAnalysisFailed(x) => "Dependency analysis failed: "@ + x@,
        SolifyError::InvalidSetupRequirement => "Invalid setup requirement"@,
        SolifyError::InvalidPdaInitialization => "Invalid PDA initialization"@,
        SolifyError::InvalidTestCase => "Invalid test case"@,
    }
}

impl SolifyError {
    /// The text that describes the error.
    pub fn message(&self) -> (r: String)
        ensures
            r@ == error_text(*self),
    {
        match self {
            SolifyError::IdlNotFound(x) => concat2("IDL file not found: ", x.as_str()),
            SolifyError::IdlParseFailed(x) => concat2("Failed to parse IDL: ", x.as_str()),
            SolifyError::InvalidInstructionOrder(x) => concat2("Invalid instruction order: ", x.as_str()),
            SolifyError::CircularDependency => String::from_str("Circular dependency detected"),
            SolifyError::AccountNotFound(x) => concat2("Account not found: ", x.as_str()),
            SolifyError::InstructionNotFound(x) => concat2("Instruction not found: ", x.as_str()),
            SolifyError::SerializationError(x) => concat2("Serialization error: ", x.as_str()),
            SolifyError::RpcError(x) => concat2("RPC error: ", x.as_str()),
            SolifyError::TransactionError(x) => concat2("Transaction error: ", x.as_str()),
            SolifyError::TemplateError(x) => concat2("Template rendering error: ", x.as_str()),
            SolifyError::Unknown(x) => concat2("Unknown error: ", x.as_str()),
            SolifyError::DependencyAnalysisFailed(x) => concat2("Dependency analysis failed: ", x.as_str()),
            SolifyError::InvalidSetupRequirement => String::from_str("Invalid setup requirement"),
            SolifyError::InvalidPdaInitialization => String::from_str("Invalid PDA initialization"),
            SolifyError::InvalidTestCase => String::from_str("Invalid test case"),
        }
    }
}

} // verus!
