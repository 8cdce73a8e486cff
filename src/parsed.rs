use vstd::prelude::*;

verus! {

/// An interface description in the shape that the text format carries.
#[derive(Debug, PartialEq, Eq)]
pub struct ParsedIdl {
    pub address: String,
    pub metadata: IdlMetadata,
    pub instructions: Vec<Instruction>,
    pub accounts: Vec<AccountDef>,
    pub types: Vec<TypeDef>,
    pub errors: Vec<ErrorDef>,
    pub constants: Vec<ConstantDef>,
    pub events: Vec<EventDef>,
}

#[derive(Debug, Clone, PartialEq, Eq)]
pub struct ErrorDef {
    pub code: u32,
    pub name: String,
    pub msg: String,
}

#[derive(Debug, Clone, PartialEq, Eq)]
pub struct ConstantDef {
    pub name: String,
    pub constant_type: String,
    pub value: String,
}

#[derive(Debug, PartialEq, Eq)]
pub struct EventDef {
    pub name: String,
    pub discriminator: Vec<u8>,
    pub fields: Vec<FieldDef>,
}

#[derive(Debug, Clone, PartialEq, Eq)]
pub struct IdlMetadata {
    pub name: String,
    pub version: String,
    pub spec: String,
    pub description: String,
}

#[derive(Debug, PartialEq, Eq)]
pub struct Instruction {
    pub name: String,
    pub discriminator: Vec<u8>,
    pub accounts: Vec<AccountInfo>,
    pub args: Vec<ArgumentDef>,
    pub docs: Vec<String>,
}

#[derive(Debug, Clone, PartialEq, Eq)]
pub struct AccountInfo {
    pub name: String,
    pub writable: bool,
    pub signer: bool,
    pub optional: bool,
    pub address: Option<String>,
    pub pda: Option<PdaConfig>,
    pub docs: Vec<String>,
}

#[derive(Debug, Clone, PartialEq, Eq)]
pub struct PdaConfig {
    pub seeds: Vec<PdaSeed>,
    pub program: Option<PdaProgram>,
}

#[derive(Debug, Clone, PartialEq, Eq)]
pub struct PdaProgram {
    pub kind: String,
    pub value: Option<Vec<u8>>,
}

#[derive(Debug, Clone, PartialEq, Eq)]
pub struct PdaSeed {
    pub kind: String,
    pub path: String,
    pub value: Option<Vec<u8>>,
}

#[derive(Debug, PartialEq, Eq)]
pub struct ArgumentDef {
    pub name: String,
    pub arg_type: IdlType,
}

/// A type as the text format writes it: a name, or a vector, option,
/// fixed-size array or user-defined type around another type.
#[derive(Debug, PartialEq, Eq)]
pub enum IdlType {
    Simple(String),
    Vec { vec: Box<IdlType> },
    Option { option: Box<IdlType> },
    Array { array: Box<IdlType>, size: usize },
    Defined { defined: DefinedType },
}

#[derive(Debug, PartialEq, Eq)]
pub enum DefinedType {
    Simple(String),
    Generic { name: String, generics: Vec<IdlType> },
}

#[derive(Debug, Clone, PartialEq, Eq)]
pub struct AccountDef {
    pub name: String,
    pub discriminator: Vec<u8>,
}

#[derive(Debug, PartialEq, Eq)]
pub struct FieldDef {
    pub name: String,
    pub field_type: IdlType,
}

#[derive(Debug, PartialEq, Eq)]
pub struct TypeDef {
    pub name: String,
    pub type_kind: TypeKind,
}

#[derive(Debug, PartialEq, Eq)]
pub enum TypeKind {
    Struct { fields: Vec<FieldDef> },
    Enum { variants: Vec<EnumVariant> },
}

#[derive(Debug, PartialEq, Eq)]
pub struct EnumVariant {
    pub name: String,
    pub fields: Option<Vec<FieldDef>>,
}

} // verus!
