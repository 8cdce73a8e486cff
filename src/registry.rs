//! The account registry: one merged record per account name seen across
//! the instructions of an interface description.
use vstd::prelude::*;
use crate::errors::SolifyError;
use crate::idl::{IdlAccountItem, IdlData, IdlInstruction, IdlSeed};
use crate::text::{concat2, decimal_of, decimal_text, lower_of, lowercase, seq_contains, str_contains, str_eq};

verus! {

/// What a registry knows of one account.
#[derive(Debug)]
pub struct AccountInfo {
    pub name: String,
    pub is_pda: bool,
    pub is_signer: bool,
    pub is_mut: bool,
    /// The instruction inferred to create the account, if any.
    pub initialized_by: Option<String>,
    pub seeds: Vec<SeedInfo>,
    pub program: Option<String>,
    /// The instructions that take the account, each named once.
    pub used_in: Vec<String>,
    pub constraints: Vec<ConstraintInfo>,
}

/// One seed of a program-derived address.
#[derive(Debug)]
pub struct SeedInfo {
    pub seed_type: SeedType,
    pub value: String,
    pub source: SeedSource,
}

#[derive(Debug, Clone, Copy, PartialEq, Eq, Structural)]
pub enum SeedType {
    Static,
    AccountKey,
    Argument,
}

/// What a seed's path suggests it refers to.
#[derive(Debug)]
pub enum SeedSource {
    Authority,
    UserAccount,
    Vault,
    Custom(String),
}

#[derive(Debug)]
pub struct ConstraintInfo {
    pub constraint_type: ConstraintType,
    pub value: Option<String>,
}

#[derive(Debug, Clone, Copy, PartialEq, Eq, Structural)]
pub enum ConstraintType {
    Init,
    Mut,
    Signer,
    Seeds,
    HasOne,
    Owner,
    Constraint,
    Close,
    Realloc,
}

/// The seed type that a seed kind names; unknown kinds are static.
pub open spec fn seed_kind_of(kind: Seq<char>) -> SeedType {
    if kind == "const"@ || kind == "constant"@ {
        SeedType::Static
    } else if kind == "arg"@ || kind == "argument"@ {
        SeedType::Argument
    } else if kind == "account"@ {
        SeedType::AccountKey
    } else {
        SeedType::Static
    }
}

/// A constant seed: its literal is in the seed's `value`, not its path.
pub open spec fn is_const_kind(kind: Seq<char>) -> bool {
    kind == "const"@ || kind == "constant"@
}

/// The source that a seed's path suggests, by the first rule that applies.
pub open spec fn source_fits(source: SeedSource, path: Seq<char>) -> bool {
    if seq_contains(path, "authority"@) || seq_contains(path, "owner"@) {
        source is Authority
    } else if seq_contains(path, "user"@) {
        source is UserAccount
    } else if seq_contains(path, "vault"@) {
        source is Vault
    } else {
        source matches SeedSource::Custom(p) && p@ == path
    }
}

/// An instruction whose lower-case name holds `init`, `create` or
/// `initialize` is taken to create the mutable accounts it lists. This is a
/// naming heuristic, not a fact about the program.
pub open spec fn names_initializer(lower_name: Seq<char>) -> bool {
    seq_contains(lower_name, "init"@) || seq_contains(lower_name, "create"@) || seq_contains(
        lower_name,
        "initialize"@,
    )
}

/// Whether instruction `ins` is inferred to create its account `item`.
pub open spec fn initializes_item(ins: IdlInstruction, item: IdlAccountItem) -> bool {
    item.is_mut && names_initializer(lower_of(ins.name@))
}

/// `seed` is the conversion of the description's seed `s`: its type from
/// the kind, its value the literal of a constant seed or else the path, its
/// source from the path.
pub open spec fn seed_matches(seed: SeedInfo, s: IdlSeed) -> bool {
    &&& seed.seed_type == seed_kind_of(s.kind@)
    &&& seed.value@ == (if is_const_kind(s.kind@) { s.value@ } else { s.path@ })
    &&& source_fits(seed.source, s.path@)
}

/// The constraint kinds recorded for an account observation, in order.
pub open spec fn constraint_kinds(is_pda: bool, is_mut: bool, is_signer: bool, init: bool) -> Seq<
    ConstraintType,
> {
    (if is_pda { seq![ConstraintType::Seeds] } else { seq![] }) + (if is_mut {
        seq![ConstraintType::Mut]
    } else {
        seq![]
    }) + (if is_signer { seq![ConstraintType::Signer] } else { seq![] }) + (if init {
        seq![ConstraintType::Init]
    } else {
        seq![]
    })
}

/// The record that one observation of `item` in `ins` makes.
pub open spec fn observes(a: AccountInfo, ins: IdlInstruction, item: IdlAccountItem, program: Seq<char>) -> bool {
    &&& a.name@ == item.name@
    &&& a.is_pda == item.pda.is_some()
    &&& a.is_signer == item.is_signer
    &&& a.is_mut == item.is_mut
    &&& (if initializes_item(ins, item) {
        a.initialized_by matches Some(n) && n@ == ins.name@
    } else {
        a.initialized_by is None
    })
    &&& a.seeds@.len() == (if item.pda is Some { item.pda->Some_0.seeds@.len() } else { 0 })
    &&& forall|k: int|
        0 <= k < a.seeds@.len() ==> seed_matches(#[trigger] a.seeds@[k], item.pda->Some_0.seeds@[k])
    &&& a.program matches Some(p) && p@ == program
    &&& a.used_in@.len() == 1 && a.used_in@[0]@ == ins.name@
    &&& a.constraints@.len() == constraint_kinds(
        item.pda is Some,
        item.is_mut,
        item.is_signer,
        initializes_item(ins, item),
    ).len()
    &&& forall|k: int|
        0 <= k < a.constraints@.len() ==> (#[trigger] a.constraints@[k]).constraint_type
            == constraint_kinds(item.pda is Some, item.is_mut, item.is_signer, initializes_item(ins, item))[k]
    &&& forall|k: int| 0 <= k < a.constraints@.len() ==> constraint_value_fits(#[trigger] a.constraints@[k], a.seeds@.len())
}

/// The value a recorded constraint carries: `N seeds` for the seeds of a
/// PDA, `mut` and `signer` for those flags, none for an inferred creation.
pub open spec fn constraint_value_fits(c: ConstraintInfo, seed_count: nat) -> bool {
    match c.constraint_type {
        ConstraintType::Seeds => c.value matches Some(v) && v@ == decimal_of(seed_count as int) + " seeds"@,
        ConstraintType::Mut => c.value matches Some(v) && v@ == "mut"@,
        ConstraintType::Signer => c.value matches Some(v) && v@ == "signer"@,
        ConstraintType::Init => c.value is None,
        _ => true,
    }
}

/// The seed type that a seed kind names; unknown kinds are static.
pub fn parse_seed_kind(kind: &str) -> (r: SeedType)
    ensures
        r == seed_kind_of(kind@),
{
    if str_eq(kind, "const") || str_eq(kind, "constant") {
        proof { reveal_strlit("const"); reveal_strlit("constant"); }
        SeedType::Static
    } else if str_eq(kind, "arg") || str_eq(kind, "argument") {
        proof { reveal_strlit("arg"); reveal_strlit("argument"); }
        SeedType::Argument
    } else if str_eq(kind, "account") {
        SeedType::AccountKey
    } else {
        SeedType::Static
    }
}

/// The source that a seed's path suggests.
pub fn classify_seed_source(path: &String) -> (r: SeedSource)
    ensures
        source_fits(r, path@),
{
    if str_contains(path.as_str(), "authority") || str_contains(path.as_str(), "owner") {
        SeedSource::Authority
    } else if str_contains(path.as_str(), "user") {
        SeedSource::UserAccount
    } else if str_contains(path.as_str(), "vault") {
        SeedSource::Vault
    } else {
        SeedSource::Custom(path.clone())
    }
}

/// Whether a lower-case instruction name marks an initializer.
pub fn is_initializer_name(lower_name: &str) -> (r: bool)
    ensures
        r == names_initializer(lower_name@),
{
    str_contains(lower_name, "init") || str_contains(lower_name, "create") || str_contains(
        lower_name,
        "initialize",
    )
}

fn constraint(kind: ConstraintType, value: Option<String>) -> (r: ConstraintInfo)
    ensures
        r.constraint_type == kind,
        r.value == value,
{
    ConstraintInfo { constraint_type: kind, value }
}

/// The seeds of a PDA descriptor, converted one for one.
fn convert_seeds(seeds: &Vec<IdlSeed>) -> (r: Vec<SeedInfo>)
    ensures
        r@.len() == seeds@.len(),
        forall|k: int| 0 <= k < r@.len() ==> seed_matches(#[trigger] r@[k], seeds@[k]),
{
    let mut r: Vec<SeedInfo> = Vec::new();
    let mut i: usize = 0;
    while i < seeds.len()
        invariant
            i <= seeds@.len(),
            r@.len() == i,
            forall|k: int| 0 <= k < i ==> seed_matches(#[trigger] r@[k], seeds@[k]),
        decreases seeds@.len() - i,
    {
        let s = &seeds[i];
        let is_const = str_eq(s.kind.as_str(), "const") || str_eq(s.kind.as_str(), "constant");
        proof {
            reveal_strlit("const");
            reveal_strlit("constant");
        }
        let seed = SeedInfo {
            seed_type: parse_seed_kind(s.kind.as_str()),
            value: if is_const { s.value.clone() } else { s.path.clone() },
            source: classify_seed_source(&s.path),
        };
        r.push(seed);
        i = i + 1;
    }
    r
}

proof fn lemma_observations_take(instrs: Seq<IdlInstruction>, i: int)
    requires
        0 <= i < instrs.len(),
    ensures
        observations(instrs.take(i + 1)) == observations(instrs.take(i)) + instruction_observations(instrs[i]),
{
    assert(instrs.take(i + 1).drop_last() == instrs.take(i));
    assert(instrs.take(i + 1).last() == instrs[i]);
}

impl DependencyAnalyzerImpl {
    /// The registry of all accounts of `idl_data`: one record per account
    /// name, merged over the instructions in order (see `registry_of`).
    /// It never fails.
    pub fn build_account_registry(&self, idl_data: &IdlData, program: &String) -> (r: Result<
        AccountRegistry,
        SolifyError,
    >)
        ensures
            r matches Ok(reg) && reg.wf() && registry_of(
                reg.accounts@,
                observations(idl_data.instructions@),
                program@,
            ),
    {
        let mut registry = AccountRegistry::new();
        let instrs = &idl_data.instructions;
        let mut i: usize = 0;
        proof {
            assert(observations(instrs@.take(0)) =~= seq![]);
        }
        while i < instrs.len()
            invariant
                i <= instrs@.len(),
                registry.wf(),
                registry_of(registry.accounts@, observations(instrs@.take(i as int)), program@),
            decreases instrs@.len() - i,
        {
            let instruction = &instrs[i];
            self.process_instruction_accounts(instruction, &mut registry, program);
            proof {
                lemma_observations_take(instrs@, i as int);
            }
            i = i + 1;
        }
        proof {
            assert(instrs@.take(instrs@.len() as int) =~= instrs@);
        }
        Ok(registry)
    }

    /// Merges the observations of each account of `instruction` into the
    /// registry, in order.
    pub fn process_instruction_accounts(&self, instruction: &IdlInstruction, registry: &mut AccountRegistry, program: &String)
        requires
            old(registry).wf(),
        ensures
            final(registry).wf(),
            forall|os: Seq<Observation>|
                #[trigger] registry_of(old(registry).accounts@, os, program@) ==> registry_of(
                    final(registry).accounts@,
                    os + instruction_observations(*instruction),
                    program@,
                ),
    {
        let ghost start = registry.accounts@;
        let mut j: usize = 0;
        proof {
            assert forall|os: Seq<Observation>| #[trigger] registry_of(start, os, program@) implies registry_of(
                registry.accounts@,
                os + instruction_observations(*instruction).take(0),
                program@,
            ) by {
                assert(os + instruction_observations(*instruction).take(0) =~= os);
            }
        }
        while j < instruction.accounts.len()
            invariant
                start == old(registry).accounts@,
                j <= instruction.accounts@.len(),
                registry.wf(),
                forall|os: Seq<Observation>|
                    #[trigger] registry_of(start, os, program@) ==> registry_of(
                        registry.accounts@,
                        os + instruction_observations(*instruction).take(j as int),
                        program@,
                    ),
            decreases instruction.accounts@.len() - j,
        {
            let item = &instruction.accounts[j];
            let account_info = self.parse_account_info(item, instruction, program);
            let ghost old_accts = registry.accounts@;
            registry.add_or_update_account(account_info);
            proof {
                assert forall|os: Seq<Observation>| #[trigger] registry_of(start, os, program@) implies registry_of(
                    registry.accounts@,
                    os + instruction_observations(*instruction).take(j + 1),
                    program@,
                ) by {
                    let prefix = os + instruction_observations(*instruction).take(j as int);
                    lemma_observe_step(old_accts, registry.accounts@, prefix, *instruction, *item, account_info, program@);
                    assert(prefix.push((*instruction, *item)) =~= os + instruction_observations(*instruction).take(j + 1));
                }
            }
            j = j + 1;
        }
        proof {
            assert(instruction_observations(*instruction).take(j as int) =~= instruction_observations(*instruction));
        }
    }

    /// The record that the observation of `account_item` in `instruction`
    /// makes: its flags, its converted seeds, whether the instruction is
    /// taken to create it, and the constraints that follow.
    pub fn parse_account_info(
        &self,
        account_item: &IdlAccountItem,
        instruction: &IdlInstruction,
        program: &String,
    ) -> (r: AccountInfo)
        ensures
            observes(r, *instruction, *account_item, program@),
    {
        let mut seeds: Vec<SeedInfo> = Vec::new();
        let mut constraints: Vec<ConstraintInfo> = Vec::new();
        let is_pda = account_item.pda.is_some();
        if let Some(pda) = &account_item.pda {
            seeds = convert_seeds(&pda.seeds);
            let count = decimal_text(seeds.len() as i128);
            constraints.push(constraint(ConstraintType::Seeds, Some(concat2(count.as_str(), " seeds"))));
        }
        if account_item.is_mut {
            constraints.push(constraint(ConstraintType::Mut, Some(String::from_str("mut"))));
        }
        if account_item.is_signer {
            constraints.push(constraint(ConstraintType::Signer, Some(String::from_str("signer"))));
        }
        let lower = lowercase(instruction.name.as_str());
        let init = account_item.is_mut && is_initializer_name(lower.as_str());
        let initialized_by = if init {
            constraints.push(constraint(ConstraintType::Init, None));
            Some(instruction.name.clone())
        } else {
            None
        };
        let mut used_in: Vec<String> = Vec::new();
        used_in.push(instruction.name.clone());
        proof {
            assert(constraints@.len() == constraint_kinds(is_pda, account_item.is_mut, account_item.is_signer, init).len());
            assert forall|k: int| 0 <= k < constraints@.len() implies constraint_value_fits(#[trigger] constraints@[k], seeds@.len()) by {
            }
            assert forall|k: int| 0 <= k < constraints@.len() implies (#[trigger] constraints@[k]).constraint_type
                == constraint_kinds(is_pda, account_item.is_mut, account_item.is_signer, init)[k] by {
            }
        }
        AccountInfo {
            name: account_item.name.clone(),
            is_pda,
            is_signer: account_item.is_signer,
            is_mut: account_item.is_mut,
            initialized_by,
            seeds,
            program: Some(program.clone()),
            used_in,
            constraints,
        }
    }
}

/// The texts of a list of strings.
pub open spec fn names_of(v: Seq<String>) -> Seq<Seq<char>> {
    v.map_values(|s: String| s@)
}

/// No text occurs twice in the list.
pub open spec fn no_dup_names(v: Seq<String>) -> bool {
    forall|a: int, b: int| 0 <= a < b < v.len() ==> v[a]@ != v[b]@
}

/// No two records of the list share a name.
pub open spec fn names_distinct(accts: Seq<AccountInfo>) -> bool {
    forall|a: int, b: int| 0 <= a < b < accts.len() ==> accts[a].name@ != accts[b].name@
}

/// The record's initializer is the instruction `n`.
pub open spec fn initialized_by_name(a: AccountInfo, n: Seq<char>) -> bool {
    a.initialized_by matches Some(x) && x@ == n
}

/// Some record of the list has the name.
pub open spec fn has_name(accts: Seq<AccountInfo>, name: Seq<char>) -> bool {
    exists|k: int| 0 <= k < accts.len() && (#[trigger] accts[k]).name@ == name
}

/// The position of a record with the name (meaningful where `has_name`).
pub open spec fn name_index(accts: Seq<AccountInfo>, name: Seq<char>) -> int {
    choose|k: int| 0 <= k < accts.len() && (#[trigger] accts[k]).name@ == name
}

/// `new` is what merging the later observation `a` into the record `e`
/// makes: the instructions that use it are united, the first initializer
/// is kept, newer non-empty seeds replace older ones, and the rest of `e`
/// stays.
pub open spec fn merged(new: AccountInfo, e: AccountInfo, a: AccountInfo) -> bool {
    &&& new.name == e.name
    &&& new.is_pda == e.is_pda
    &&& new.is_signer == e.is_signer
    &&& new.is_mut == e.is_mut
    &&& new.program == e.program
    &&& new.constraints == e.constraints
    &&& new.initialized_by == (if e.initialized_by is Some { e.initialized_by } else { a.initialized_by })
    &&& new.seeds == (if a.seeds@.len() > 0 { a.seeds } else { e.seeds })
    &&& forall|x: Seq<char>| #[trigger] names_of(new.used_in@).contains(x) <==> (names_of(e.used_in@).contains(x)
        || names_of(a.used_in@).contains(x))
    &&& no_dup_names(e.used_in@) ==> no_dup_names(new.used_in@)
}

/// Whether the list holds a string with the text of `s`.
pub fn contains_name(v: &Vec<String>, s: &String) -> (r: bool)
    ensures
        r == names_of(v@).contains(s@),
{
    let mut i: usize = 0;
    while i < v.len()
        invariant
            i <= v@.len(),
            forall|k: int| 0 <= k < i ==> v@[k]@ != s@,
        decreases v@.len() - i,
    {
        if str_eq(v[i].as_str(), s.as_str()) {
            assert(names_of(v@)[i as int] == s@);
            return true;
        }
        i = i + 1;
    }
    proof {
        if names_of(v@).contains(s@) {
            let k = choose|k: int| 0 <= k < names_of(v@).len() && names_of(v@)[k] == s@;
            assert(v@[k]@ == s@);
        }
    }
    false
}

proof fn lemma_push_contains(s: Seq<Seq<char>>, v: Seq<char>, x: Seq<char>)
    ensures
        s.push(v).contains(x) <==> (s.contains(x) || x == v),
{
    if s.contains(x) {
        let k = choose|k: int| 0 <= k < s.len() && s[k] == x;
        assert(s.push(v)[k] == x);
    }
    if x == v {
        assert(s.push(v)[s.len() as int] == x);
    }
    if s.push(v).contains(x) {
        let k = choose|k: int| 0 <= k < s.push(v).len() && s.push(v)[k] == x;
        if k < s.len() {
            assert(s[k] == x);
        }
    }
}

/// `used` followed by the strings of `add` whose text it lacks.
fn union_names(used: Vec<String>, add: &Vec<String>) -> (r: Vec<String>)
    ensures
        forall|x: Seq<char>| #[trigger] names_of(r@).contains(x) <==> (names_of(used@).contains(x)
            || names_of(add@).contains(x)),
        no_dup_names(used@) ==> no_dup_names(r@),
{
    let ghost start = used@;
    let mut r = used;
    let mut i: usize = 0;
    while i < add.len()
        invariant
            i <= add@.len(),
            forall|x: Seq<char>| #[trigger] names_of(r@).contains(x) <==> (names_of(start).contains(x)
                || names_of(add@.take(i as int)).contains(x)),
            no_dup_names(start) ==> no_dup_names(r@),
        decreases add@.len() - i,
    {
        let ghost before = r@;
        if !contains_name(&r, &add[i]) {
            r.push(add[i].clone());
            proof {
                assert(names_of(r@) == names_of(before).push(add@[i as int]@));
            }
        }
        proof {
            assert(add@.take(i + 1) == add@.take(i as int).push(add@[i as int]));
            assert(names_of(add@.take(i + 1)) == names_of(add@.take(i as int)).push(add@[i as int]@));
            assert forall|x: Seq<char>| #[trigger] names_of(r@).contains(x) <==> (names_of(start).contains(x)
                || names_of(add@.take(i + 1)).contains(x)) by {
                lemma_push_contains(names_of(add@.take(i as int)), add@[i as int]@, x);
                if r@.len() > before.len() {
                    lemma_push_contains(names_of(before), add@[i as int]@, x);
                }
            }
            if no_dup_names(start) && r@.len() > before.len() {
                assert forall|a: int, b: int| 0 <= a < b < r@.len() implies r@[a]@ != r@[b]@ by {
                    if b == before.len() {
                        assert(names_of(before)[a] == r@[a]@);
                    }
                }
            }
        }
        i = i + 1;
    }
    assert(add@.take(add@.len() as int) == add@);
    r
}

/// The merged records of the accounts seen so far, one per name.
pub struct AccountRegistry {
    pub accounts: Vec<AccountInfo>,
}

impl AccountRegistry {
    /// Each name has one record.
    pub open spec fn wf(&self) -> bool {
        names_distinct(self.accounts@)
    }

    /// An empty registry.
    pub fn new() -> (r: Self)
        ensures
            r.accounts@.len() == 0,
            r.wf(),
    {
        AccountRegistry { accounts: Vec::new() }
    }

    /// The position of the record named `name`, if there is one.
    pub fn find_index(&self, name: &str) -> (r: Option<usize>)
        requires
            self.wf(),
        ensures
            match r {
                Some(k) => k < self.accounts@.len() && self.accounts@[k as int].name@ == name@,
                None => !has_name(self.accounts@, name@),
            },
    {
        let mut k: usize = 0;
        while k < self.accounts.len()
            invariant
                k <= self.accounts@.len(),
                forall|m: int| 0 <= m < k ==> self.accounts@[m].name@ != name@,
            decreases self.accounts@.len() - k,
        {
            if str_eq(self.accounts[k].name.as_str(), name) {
                return Some(k);
            }
            k = k + 1;
        }
        None
    }

    /// The record named `name`, if there is one.
    pub fn get_account(&self, name: &str) -> (r: Option<&AccountInfo>)
        requires
            self.wf(),
        ensures
            match r {
                Some(a) => has_name(self.accounts@, name@) && *a == self.accounts@[name_index(
                    self.accounts@,
                    name@,
                )],
                None => !has_name(self.accounts@, name@),
            },
    {
        match self.find_index(name) {
            Some(k) => {
                proof {
                    let j = name_index(self.accounts@, name@);
                    if j != k as int {
                        assert(self.accounts@[j].name@ == self.accounts@[k as int].name@);
                    }
                }
                Some(&self.accounts[k])
            },
            None => None,
        }
    }

    /// Adds the observation `account`: a new name is appended; a known
    /// name has the observation merged into its record.
    pub fn add_or_update_account(&mut self, account: AccountInfo)
        requires
            old(self).wf(),
        ensures
            final(self).wf(),
            has_name(old(self).accounts@, account.name@) ==> {
                let i = name_index(old(self).accounts@, account.name@);
                &&& final(self).accounts@.len() == old(self).accounts@.len()
                &&& forall|k: int|
                    0 <= k < old(self).accounts@.len() && k != i ==> final(self).accounts@[k] == old(
                        self,
                    ).accounts@[k]
                &&& merged(final(self).accounts@[i], old(self).accounts@[i], account)
            },
            !has_name(old(self).accounts@, account.name@) ==> final(self).accounts@ == old(
                self,
            ).accounts@.push(account),
    {
        match self.find_index(account.name.as_str()) {
            Some(k) => {
                let ghost i = name_index(old(self).accounts@, account.name@);
                proof {
                    if i != k as int {
                        assert(old(self).accounts@[i].name@ == old(self).accounts@[k as int].name@);
                    }
                }
                let e = self.accounts.remove(k);
                let used_in = union_names(e.used_in, &account.used_in);
                let initialized_by = if e.initialized_by.is_some() {
                    e.initialized_by
                } else {
                    account.initialized_by
                };
                let seeds = if account.seeds.len() > 0 {
                    account.seeds
                } else {
                    e.seeds
                };
                let new = AccountInfo {
                    name: e.name,
                    is_pda: e.is_pda,
                    is_signer: e.is_signer,
                    is_mut: e.is_mut,
                    initialized_by,
                    seeds,
                    program: e.program,
                    used_in,
                    constraints: e.constraints,
                };
                self.accounts.insert(k, new);
                proof {
                    assert forall|a: int, b: int|
                        0 <= a < b < self.accounts@.len() implies self.accounts@[a].name@
                        != self.accounts@[b].name@ by {
                        assert(self.accounts@[a].name == old(self).accounts@[a].name);
                        assert(self.accounts@[b].name == old(self).accounts@[b].name);
                    }
                }
            },
            None => {
                self.accounts.push(account);
            },
        }
    }

    /// The records whose initializer is the instruction `instruction`.
    pub fn find_accounts_initialized_by(&self, instruction: &str) -> (r: Vec<&AccountInfo>)
        ensures
            forall|k: int| 0 <= k < r@.len() ==> initialized_by_name(#[trigger] *r@[k], instruction@),
            forall|k: int|
                0 <= k < self.accounts@.len() && initialized_by_name(#[trigger] self.accounts@[k], instruction@)
                    ==> r@.contains(&self.accounts@[k]),
    {
        let mut r: Vec<&AccountInfo> = Vec::new();
        let mut k: usize = 0;
        while k < self.accounts.len()
            invariant
                k <= self.accounts@.len(),
                forall|m: int| 0 <= m < r@.len() ==> initialized_by_name(#[trigger] *r@[m], instruction@),
                forall|m: int|
                    0 <= m < k && initialized_by_name(#[trigger] self.accounts@[m], instruction@)
                        ==> r@.contains(&self.accounts@[m]),
            decreases self.accounts@.len() - k,
        {
            let a = &self.accounts[k];
            if let Some(n) = &a.initialized_by {
                if str_eq(n.as_str(), instruction) {
                    let ghost before = r@;
                    r.push(a);
                    proof {
                        assert(r@[r@.len() - 1] == &self.accounts@[k as int]);
                        assert forall|m: int|
                            0 <= m < k && initialized_by_name(#[trigger] self.accounts@[m], instruction@)
                                implies r@.contains(&self.accounts@[m]) by {
                            let b = choose|b: int| 0 <= b < before.len() && before[b] == &self.accounts@[m];
                            assert(r@[b] == &self.accounts@[m]);
                        }
                    }
                }
            }
            k = k + 1;
        }
        r
    }
}

/// One observation: an instruction and one account item it lists.
pub type Observation = (IdlInstruction, IdlAccountItem);

/// The observations of one instruction, in the order of its accounts.
pub open spec fn instruction_observations(ins: IdlInstruction) -> Seq<Observation> {
    ins.accounts@.map_values(|it: IdlAccountItem| (ins, it))
}

/// The observations of a list of instructions, in order.
pub open spec fn observations(instrs: Seq<IdlInstruction>) -> Seq<Observation>
    decreases instrs.len(),
{
    if instrs.len() == 0 {
        seq![]
    } else {
        observations(instrs.drop_last()) + instruction_observations(instrs.last())
    }
}

/// The seeds that an account item's PDA descriptor lists (none without one).
pub open spec fn item_seeds(item: IdlAccountItem) -> Seq<IdlSeed> {
    if item.pda is Some { item.pda->Some_0.seeds@ } else { seq![] }
}

/// `seeds` convert `from` one for one.
pub open spec fn seeds_match(seeds: Seq<SeedInfo>, from: Seq<IdlSeed>) -> bool {
    seeds.len() == from.len() && forall|k: int| 0 <= k < seeds.len() ==> seed_matches(#[trigger] seeds[k], from[k])
}

/// Observation `m` is the first one of the account `name`.
pub open spec fn first_observation(os: Seq<Observation>, m: int, name: Seq<char>) -> bool {
    0 <= m < os.len() && os[m].1.name@ == name && forall|m2: int| 0 <= m2 < m ==> (#[trigger] os[m2]).1.name@ != name
}

/// The flags of record `a` are those of the first observation of its name.
pub open spec fn flags_from_first(a: AccountInfo, os: Seq<Observation>) -> bool {
    exists|m: int| first_observation(os, m, a.name@) && #[trigger] flags_of(a, os[m])
}

/// Record `a` has the flags and constraint kinds that observation `o` gives.
pub open spec fn flags_of(a: AccountInfo, o: Observation) -> bool {
    let kinds = constraint_kinds(o.1.pda is Some, o.1.is_mut, o.1.is_signer, initializes_item(o.0, o.1));
    &&& a.is_pda == o.1.pda.is_some()
    &&& a.is_signer == o.1.is_signer
    &&& a.is_mut == o.1.is_mut
    &&& a.constraints@.len() == kinds.len()
    &&& forall|k: int| 0 <= k < kinds.len() ==> (#[trigger] a.constraints@[k]).constraint_type == kinds[k]
}

/// Some observation of `x` comes before every observation of `y`.
pub open spec fn seen_before(os: Seq<Observation>, x: Seq<char>, y: Seq<char>) -> bool {
    exists|m: int|
        0 <= m < os.len() && (#[trigger] os[m]).1.name@ == x && forall|m2: int| 0 <= m2 <= m ==> (#[trigger] os[m2]).1.name@ != y
}

/// The initializer of record `a` is the instruction of the first
/// observation of its name that is taken to create it, if any.
pub open spec fn initializer_from(a: AccountInfo, os: Seq<Observation>) -> bool {
    match a.initialized_by {
        Some(n) => exists|m: int|
            0 <= m < os.len() && (#[trigger] os[m]).1.name@ == a.name@ && initializes_item(os[m].0, os[m].1) && n@
                == os[m].0.name@ && forall|m2: int|
                0 <= m2 < m && (#[trigger] os[m2]).1.name@ == a.name@ ==> !initializes_item(os[m2].0, os[m2].1),
        None => forall|m: int|
            0 <= m < os.len() && (#[trigger] os[m]).1.name@ == a.name@ ==> !initializes_item(os[m].0, os[m].1),
    }
}

/// The seeds of record `a` are the converted seeds of the last observation
/// of its name that lists any, or none if no observation does.
pub open spec fn seeds_from(a: AccountInfo, os: Seq<Observation>) -> bool {
    if a.seeds@.len() > 0 {
        exists|m: int|
            0 <= m < os.len() && (#[trigger] os[m]).1.name@ == a.name@ && seeds_match(a.seeds@, item_seeds(os[m].1))
                && forall|m2: int|
                m < m2 < os.len() && (#[trigger] os[m2]).1.name@ == a.name@ ==> item_seeds(os[m2].1).len() == 0
    } else {
        forall|m: int| 0 <= m < os.len() && (#[trigger] os[m]).1.name@ == a.name@ ==> item_seeds(os[m].1).len() == 0
    }
}

/// The instructions that use record `a` are those of the observations of
/// its name, each once.
pub open spec fn used_in_from(a: AccountInfo, os: Seq<Observation>) -> bool {
    &&& no_dup_names(a.used_in@)
    &&& forall|x: Seq<char>| #[trigger] names_of(a.used_in@).contains(x) <==> exists|m: int|
        0 <= m < os.len() && (#[trigger] os[m]).1.name@ == a.name@ && os[m].0.name@ == x
}

/// `accts` is the registry that the observations `os` make: one record per
/// name observed, no other records, each record merged as
/// `add_or_update_account` merges.
pub open spec fn registry_of(accts: Seq<AccountInfo>, os: Seq<Observation>, program: Seq<char>) -> bool {
    &&& names_distinct(accts)
    &&& forall|m: int| 0 <= m < os.len() ==> has_name(accts, (#[trigger] os[m]).1.name@)
    &&& forall|k1: int, k2: int|
        0 <= k1 < k2 < accts.len() ==> seen_before(os, (#[trigger] accts[k1]).name@, (#[trigger] accts[k2]).name@)
    &&& forall|k: int|
        0 <= k < accts.len() ==> {
            &&& flags_from_first(#[trigger] accts[k], os)
            &&& initializer_from(accts[k], os)
            &&& seeds_from(accts[k], os)
            &&& used_in_from(accts[k], os)
            &&& accts[k].program matches Some(p) && p@ == program
        }
}

/// `new` is what `add_or_update_account` makes of `old` and `a`.
pub open spec fn added(new: Seq<AccountInfo>, old: Seq<AccountInfo>, a: AccountInfo) -> bool {
    &&& names_distinct(new)
    &&& has_name(old, a.name@) ==> {
        let i = name_index(old, a.name@);
        &&& new.len() == old.len()
        &&& forall|k: int| 0 <= k < old.len() && k != i ==> new[k] == old[k]
        &&& merged(new[i], old[i], a)
    }
    &&& !has_name(old, a.name@) ==> new == old.push(a)
}

/// Adding the record of one more observation keeps the registry that of
/// the observations.
proof fn lemma_observe_step(
    old: Seq<AccountInfo>,
    new: Seq<AccountInfo>,
    os: Seq<Observation>,
    ins: IdlInstruction,
    item: IdlAccountItem,
    a: AccountInfo,
    program: Seq<char>,
)
    requires
        registry_of(old, os, program),
        observes(a, ins, item, program),
        added(new, old, a),
    ensures
        registry_of(new, os.push((ins, item)), program),
{
    let os2 = os.push((ins, item));
    let name = a.name@;
    assert forall|m: int| 0 <= m < os.len() implies os2[m] == os[m] by {}
    assert(os2[os.len() as int] == (ins, item));
    if has_name(old, name) {
        let i = name_index(old, name);
        assert forall|m: int| 0 <= m < os2.len() implies has_name(new, (#[trigger] os2[m]).1.name@) by {
            if m < os.len() {
                let k = choose|k: int| 0 <= k < old.len() && (#[trigger] old[k]).name@ == os[m].1.name@;
                if k == i {
                    assert(new[i].name == old[i].name);
                } else {
                    assert(new[k] == old[k]);
                }
            } else {
                assert(new[i].name@ == name);
            }
        }
        assert forall|k: int| 0 <= k < new.len() implies {
            &&& flags_from_first(#[trigger] new[k], os2)
            &&& initializer_from(new[k], os2)
            &&& seeds_from(new[k], os2)
            &&& used_in_from(new[k], os2)
            &&& new[k].program matches Some(p) && p@ == program
        } by {
            let e = old[k];
            assert(flags_from_first(e, os));
            let m0 = choose|m: int| first_observation(os, m, e.name@) && #[trigger] flags_of(e, os[m]);
            assert(first_observation(os2, m0, e.name@));
            assert(os2[m0] == os[m0]);
            if k == i {
                assert(flags_of(new[k], os2[m0]));
            }
            assert(initializer_from(e, os));
            assert(seeds_from(e, os));
            assert(used_in_from(e, os));
            if k != i {
                assert(new[k] == e);
                assert(e.name@ != name);
                assert(initializer_from(new[k], os2));
                assert(seeds_from(new[k], os2));
                assert forall|x: Seq<char>| #[trigger] names_of(e.used_in@).contains(x) <==> exists|m: int|
                    0 <= m < os2.len() && (#[trigger] os2[m]).1.name@ == e.name@ && os2[m].0.name@ == x by {
                    if exists|m: int| 0 <= m < os2.len() && (#[trigger] os2[m]).1.name@ == e.name@ && os2[m].0.name@ == x {
                        let m = choose|m: int| 0 <= m < os2.len() && (#[trigger] os2[m]).1.name@ == e.name@ && os2[m].0.name@ == x;
                        assert(os[m].1.name@ == e.name@);
                    }
                }
            } else {
                let n = new[i];
                assert(n.name == e.name);
                assert(e.name@ == name);
                // initializer
                match e.initialized_by {
                    Some(_) => {
                        assert(initializer_from(n, os2));
                    },
                    None => {
                        assert(initializer_from(n, os2));
                    },
                }
                // seeds
                if a.seeds@.len() > 0 {
                    assert(seeds_match(n.seeds@, item_seeds(os2[os.len() as int].1)));
                    assert(seeds_from(n, os2));
                } else {
                    assert(item_seeds(item).len() == 0);
                    assert(seeds_from(n, os2));
                }
                // used_in
                assert forall|x: Seq<char>| #[trigger] names_of(n.used_in@).contains(x) <==> exists|m: int|
                    0 <= m < os2.len() && (#[trigger] os2[m]).1.name@ == n.name@ && os2[m].0.name@ == x by {
                    assert(names_of(a.used_in@) =~= seq![ins.name@]);
                    if names_of(a.used_in@).contains(x) {
                        assert(x == ins.name@);
                        assert(os2[os.len() as int].0.name@ == x);
                    }
                    if exists|m: int| 0 <= m < os2.len() && (#[trigger] os2[m]).1.name@ == n.name@ && os2[m].0.name@ == x {
                        let m = choose|m: int| 0 <= m < os2.len() && (#[trigger] os2[m]).1.name@ == n.name@ && os2[m].0.name@ == x;
                        if m == os.len() {
                            assert(names_of(a.used_in@)[0] == x);
                        } else {
                            assert(os[m].1.name@ == e.name@);
                        }
                    }
                }
            }
        }
    } else {
        assert forall|m: int| 0 <= m < os2.len() implies has_name(new, (#[trigger] os2[m]).1.name@) by {
            if m < os.len() {
                let k = choose|k: int| 0 <= k < old.len() && (#[trigger] old[k]).name@ == os[m].1.name@;
                assert(new[k] == old[k]);
            } else {
                assert(new[old.len() as int] == a);
            }
        }
        assert forall|m: int| 0 <= m < os.len() implies (#[trigger] os[m]).1.name@ != name by {
            assert(has_name(old, os[m].1.name@));
        }
        assert forall|k: int| 0 <= k < new.len() implies {
            &&& flags_from_first(#[trigger] new[k], os2)
            &&& initializer_from(new[k], os2)
            &&& seeds_from(new[k], os2)
            &&& used_in_from(new[k], os2)
            &&& new[k].program matches Some(p) && p@ == program
        } by {
            if k < old.len() {
                let e = old[k];
                assert(new[k] == e);
                assert(e.name@ != name);
                assert(flags_from_first(e, os));
                let m0 = choose|m: int| first_observation(os, m, e.name@) && #[trigger] flags_of(e, os[m]);
                assert(first_observation(os2, m0, e.name@));
                assert(os2[m0] == os[m0]);
                assert(initializer_from(e, os));
                assert(initializer_from(e, os2));
                assert(seeds_from(e, os));
                assert(seeds_from(e, os2));
                assert(used_in_from(e, os));
                assert forall|x: Seq<char>| #[trigger] names_of(e.used_in@).contains(x) <==> exists|m: int|
                    0 <= m < os2.len() && (#[trigger] os2[m]).1.name@ == e.name@ && os2[m].0.name@ == x by {
                    if exists|m: int| 0 <= m < os2.len() && (#[trigger] os2[m]).1.name@ == e.name@ && os2[m].0.name@ == x {
                        let m = choose|m: int| 0 <= m < os2.len() && (#[trigger] os2[m]).1.name@ == e.name@ && os2[m].0.name@ == x;
                        assert(os[m].1.name@ == e.name@);
                    }
                }
            } else {
                assert(new[k] == a);
                let m = os.len() as int;
                assert(first_observation(os2, m, name));
                assert(flags_of(a, os2[m]));
                assert(flags_from_first(a, os2));
                assert(initializer_from(a, os2));
                assert(seeds_from(a, os2));
                assert forall|x: Seq<char>| #[trigger] names_of(a.used_in@).contains(x) <==> exists|m: int|
                    0 <= m < os2.len() && (#[trigger] os2[m]).1.name@ == a.name@ && os2[m].0.name@ == x by {
                    assert(names_of(a.used_in@) =~= seq![ins.name@]);
                    if names_of(a.used_in@).contains(x) {
                        assert(os2[os.len() as int].0.name@ == x);
                    }
                    if exists|m: int| 0 <= m < os2.len() && (#[trigger] os2[m]).1.name@ == a.name@ && os2[m].0.name@ == x {
                        let m = choose|m: int| 0 <= m < os2.len() && (#[trigger] os2[m]).1.name@ == a.name@ && os2[m].0.name@ == x;
                        assert(m == os.len());
                        assert(names_of(a.used_in@)[0] == x);
                    }
                }
            }
        }
    }
}

/// Builds registries from interface descriptions.
pub struct DependencyAnalyzerImpl;

} // verus!
