use vstd::prelude::*;
use crate::registry::names_of;
use crate::text::str_eq;

verus! {

/// A program's interface description, as the analysis consumes it.
#[derive(Debug, Clone, PartialEq, Eq)]
pub struct IdlData {
    pub name: String,
    pub version: String,
    pub instructions: Vec<IdlInstruction>,
    pub accounts: Vec<IdlAccount>,
    pub types: Vec<IdlTypeDef>,
    pub errors: Vec<IdlError>,
    pub constants: Vec<IdlConstant>,
    pub events: Vec<IdlEvent>,
}

#[derive(Debug, Clone, PartialEq, Eq)]
pub struct IdlError {
    pub code: u32,
    pub name: String,
    pub msg: String,
}

#[derive(Debug, Clone, PartialEq, Eq)]
pub struct IdlConstant {
    pub name: String,
    pub constant_type: String,
    pub value: String,
}

#[derive(Debug, Clone, PartialEq, Eq)]
pub struct IdlEvent {
    pub name: String,
    pub discriminator: Vec<u8>,
    pub fields: Vec<IdlField>,
}

/// One callable instruction: its accounts and its arguments, in order.
#[derive(Debug, Clone, PartialEq, Eq)]
pub struct IdlInstruction {
    pub name: String,
    pub accounts: Vec<IdlAccountItem>,
    pub args: Vec<IdlField>,
    pub docs: Vec<String>,
}

/// One account that an instruction takes.
#[derive(Debug, Clone, PartialEq, Eq)]
pub struct IdlAccountItem {
    pub name: String,
    pub is_mut: bool,
    pub is_signer: bool,
    pub is_optional: bool,
    pub docs: Vec<String>,
    pub pda: Option<IdlPda>,
}

/// How a program-derived address is computed: its seeds, in order.
#[derive(Debug, Clone, PartialEq, Eq)]
pub struct IdlPda {
    pub seeds: Vec<IdlSeed>,
    pub program: String,
}

/// One seed of a program-derived address: its kind (`const`, `arg`,
/// `account`, ...), the path it refers to, and a literal value.
#[derive(Debug, Clone, PartialEq, Eq)]
pub struct IdlSeed {
    pub kind: String,
    pub path: String,
    pub value: String,
}

#[derive(Debug, Clone, PartialEq, Eq)]
pub struct IdlAccount {
    pub name: String,
    pub fields: Vec<IdlField>,
}

/// A named, typed field; `field_type` is the type's name (`u64`, `string`, ...).
#[derive(Debug, Clone, PartialEq, Eq)]
pub struct IdlField {
    pub name: String,
    pub field_type: String,
}

#[derive(Debug, Clone, PartialEq, Eq)]
pub struct IdlTypeDef {
    pub name: String,
    pub kind: String,
    pub fields: Vec<String>,
}

/// The names of the instructions of `idl`, in order.
pub fn get_instruction_names(idl: &IdlData) -> (r: Vec<String>)
    ensures
        r@.len() == idl.instructions@.len(),
        forall|i: int| 0 <= i < r@.len() ==> (#[trigger] r@[i])@ == idl.instructions@[i].name@,
{
    let mut r: Vec<String> = Vec::new();
    let mut i: usize = 0;
    while i < idl.instructions.len()
        invariant
            i <= idl.instructions@.len(),
            r@.len() == i,
            forall|k: int| 0 <= k < i ==> (#[trigger] r@[k])@ == idl.instructions@[k].name@,
        decreases idl.instructions@.len() - i,
    {
        r.push(idl.instructions[i].name.clone());
        i = i + 1;
    }
    r
}

/// The first instruction named `name`, if any.
pub fn find_instruction<'a>(idl_data: &'a IdlData, name: &str) -> (r: Option<&'a IdlInstruction>)
    ensures
        match r {
            Some(ins) => exists|i: int|
                0 <= i < idl_data.instructions@.len() && idl_data.instructions@[i] == *ins && ins.name@ == name@
                    && forall|k: int| 0 <= k < i ==> (#[trigger] idl_data.instructions@[k]).name@ != name@,
            None => forall|k: int| 0 <= k < idl_data.instructions@.len() ==> (#[trigger] idl_data.instructions@[k]).name@ != name@,
        },
{
    let mut i: usize = 0;
    while i < idl_data.instructions.len()
        invariant
            i <= idl_data.instructions@.len(),
            forall|k: int| 0 <= k < i ==> (#[trigger] idl_data.instructions@[k]).name@ != name@,
        decreases idl_data.instructions@.len() - i,
    {
        if str_eq(idl_data.instructions[i].name.as_str(), name) {
            return Some(&idl_data.instructions[i]);
        }
        i = i + 1;
    }
    None
}

/// Which flag of an account item a selection looks at.
#[derive(Debug, Clone, Copy, PartialEq, Eq, Structural)]
pub enum AccountFlag {
    Pda,
    Signer,
    Writable,
}

pub open spec fn has_flag(item: IdlAccountItem, flag: AccountFlag) -> bool {
    match flag {
        AccountFlag::Pda => item.pda is Some,
        AccountFlag::Signer => item.is_signer,
        AccountFlag::Writable => item.is_mut,
    }
}

/// The names of the items that have `flag`, in order.
pub open spec fn flagged_names(items: Seq<IdlAccountItem>, flag: AccountFlag) -> Seq<Seq<char>>
    decreases items.len(),
{
    if items.len() == 0 {
        seq![]
    } else {
        let rest = flagged_names(items.drop_last(), flag);
        if has_flag(items.last(), flag) { rest.push(items.last().name@) } else { rest }
    }
}

fn accounts_with(instruction: &IdlInstruction, flag: AccountFlag) -> (r: Vec<String>)
    ensures
        names_of(r@) == flagged_names(instruction.accounts@, flag),
{
    let items = &instruction.accounts;
    let mut r: Vec<String> = Vec::new();
    let mut i: usize = 0;
    while i < items.len()
        invariant
            i <= items@.len(),
            names_of(r@) == flagged_names(items@.take(i as int), flag),
        decreases items@.len() - i,
    {
        proof {
            assert(items@.take(i + 1).drop_last() == items@.take(i as int));
            assert(items@.take(i + 1).last() == items@[i as int]);
        }
        let it = &items[i];
        let keep = match flag {
            AccountFlag::Pda => it.pda.is_some(),
            AccountFlag::Signer => it.is_signer,
            AccountFlag::Writable => it.is_mut,
        };
        if keep {
            let ghost old_r = names_of(r@);
            r.push(it.name.clone());
            proof {
                assert(names_of(r@) =~= old_r.push(it.name@));
            }
        }
        i = i + 1;
    }
    assert(items@.take(items@.len() as int) =~= items@);
    r
}

/// The names of the accounts of `instruction` that are PDAs, in order.
pub fn get_pda_accounts(instruction: &IdlInstruction) -> (r: Vec<String>)
    ensures
        names_of(r@) == flagged_names(instruction.accounts@, AccountFlag::Pda),
{
    accounts_with(instruction, AccountFlag::Pda)
}

/// The names of the accounts of `instruction` that sign, in order.
pub fn get_signer_accounts(instruction: &IdlInstruction) -> (r: Vec<String>)
    ensures
        names_of(r@) == flagged_names(instruction.accounts@, AccountFlag::Signer),
{
    accounts_with(instruction, AccountFlag::Signer)
}

/// The names of the accounts of `instruction` that are writable, in order.
pub fn get_writable_accounts(instruction: &IdlInstruction) -> (r: Vec<String>)
    ensures
        names_of(r@) == flagged_names(instruction.accounts@, AccountFlag::Writable),
{
    accounts_with(instruction, AccountFlag::Writable)
}

} // verus!
