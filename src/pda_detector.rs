//! Program-derived accounts: their seeds, an estimate of their size, and
//! an order in which to create them.
use vstd::prelude::*;
use crate::account_order::key_seed_values;
use crate::errors::SolifyError;
use crate::registry::{
    contains_name, has_name, names_of, AccountInfo, AccountRegistry, SeedInfo, SeedType as RegistrySeedType,
};
use crate::text::{lower_of, lowercase, seq_contains, str_contains};
use crate::toposort::{
    blocked, covers_all, dependency_order, distinct_nodes, is_dependency_order, least_with, lemma_lowest_first_by,
    lowest_ready_first_by,
};
use crate::types::{PdaInit, SeedComponent, SeedType};

verus! {

/// Finds and orders the program-derived accounts of a registry.
pub struct PdaDetector;

/// The output form of a registry seed type.
pub open spec fn output_seed_type(t: RegistrySeedType) -> SeedType {
    match t {
        RegistrySeedType::Static => SeedType::Static,
        RegistrySeedType::AccountKey => SeedType::AccountKey,
        RegistrySeedType::Argument => SeedType::Argument,
    }
}

/// The estimated size of an account from its lower-case name: 8 bytes of
/// discriminator and a body chosen by the first rule that applies (`user`
/// or `account` 128, `vault` 256, `pool` 512, `market` 1024, else 64).
pub open spec fn space_for_lower(lower: Seq<char>) -> u64 {
    if seq_contains(lower, "user"@) || seq_contains(lower, "account"@) {
        136
    } else if seq_contains(lower, "vault"@) {
        264
    } else if seq_contains(lower, "pool"@) {
        520
    } else if seq_contains(lower, "market"@) {
        1032
    } else {
        72
    }
}

/// `p` is the initialization entry of record `a` under program `program`.
pub open spec fn pda_init_of(p: PdaInit, a: AccountInfo, program: Seq<char>) -> bool {
    &&& p.account_name@ == a.name@
    &&& p.seeds@.len() == a.seeds@.len()
    &&& forall|k: int|
        0 <= k < p.seeds@.len() ==> (#[trigger] p.seeds@[k]).seed_type == output_seed_type(a.seeds@[k].seed_type)
            && p.seeds@[k].value@ == a.seeds@[k].value@
    &&& p.program_id@ == program
    &&& p.space == Some(space_for_lower(lower_of(a.name@)))
}

/// The program-derived records of the registry, in registry order.
pub open spec fn pda_records(accts: Seq<AccountInfo>) -> Seq<AccountInfo>
    decreases accts.len(),
{
    if accts.len() == 0 {
        seq![]
    } else {
        let rest = pda_records(accts.drop_last());
        if accts.last().is_pda { rest.push(accts.last()) } else { rest }
    }
}

/// Position `j` is the first whose key list holds `v`.
pub open spec fn first_holder(keys: Seq<Seq<Seq<char>>>, v: Seq<char>, j: int) -> bool {
    0 <= j < keys.len() && keys[j].contains(v) && forall|j2: int| 0 <= j2 < j ==> !(#[trigger] keys[j2]).contains(v)
}

/// PDA `i` waits for PDA `j`: some account-key seed value of `i` is first
/// held by the key list of `j`, another PDA. This matches seed values, not
/// account names: two PDAs that share a seed value are taken to depend on
/// each other's position.
pub open spec fn pda_waits_for(keys: Seq<Seq<Seq<char>>>, i: int, j: int) -> bool {
    j != i && exists|v: Seq<char>| keys[i].contains(v) && #[trigger] first_holder(keys, v, j)
}

/// The estimated size of an account from its lower-case name.
pub fn space_for_lower_name(lower: &str) -> (r: u64)
    ensures
        r == space_for_lower(lower@),
{
    let body: u64 = if str_contains(lower, "user") || str_contains(lower, "account") {
        128
    } else if str_contains(lower, "vault") {
        256
    } else if str_contains(lower, "pool") {
        512
    } else if str_contains(lower, "market") {
        1024
    } else {
        64
    };
    8 + body
}

fn output_seeds(seeds: &Vec<SeedInfo>) -> (r: Vec<SeedComponent>)
    ensures
        r@.len() == seeds@.len(),
        forall|k: int|
            0 <= k < r@.len() ==> (#[trigger] r@[k]).seed_type == output_seed_type(seeds@[k].seed_type)
                && r@[k].value@ == seeds@[k].value@,
{
    let mut r: Vec<SeedComponent> = Vec::new();
    let mut i: usize = 0;
    while i < seeds.len()
        invariant
            i <= seeds@.len(),
            r@.len() == i,
            forall|k: int|
                0 <= k < i ==> (#[trigger] r@[k]).seed_type == output_seed_type(seeds@[k].seed_type)
                    && r@[k].value@ == seeds@[k].value@,
        decreases seeds@.len() - i,
    {
        let seed_type = match seeds[i].seed_type {
            RegistrySeedType::Static => SeedType::Static,
            RegistrySeedType::AccountKey => SeedType::AccountKey,
            RegistrySeedType::Argument => SeedType::Argument,
        };
        r.push(SeedComponent { seed_type, value: seeds[i].value.clone() });
        i = i + 1;
    }
    r
}

impl PdaDetector {
    /// The estimated size of `account`, from its name in lower case.
    pub fn estimate_account_space(&self, account: &AccountInfo) -> (r: u64)
        ensures
            r == space_for_lower(lower_of(account.name@)),
    {
        let lower = lowercase(account.name.as_str());
        space_for_lower_name(lower.as_str())
    }

    /// The initialization entry of `account`: its seeds, converted one for
    /// one, the program, and the estimated size.
    pub fn create_pda_init(&self, account: &AccountInfo, program_id: &String) -> (r: PdaInit)
        ensures
            pda_init_of(r, *account, program_id@),
    {
        PdaInit {
            account_name: account.name.clone(),
            seeds: output_seeds(&account.seeds),
            program_id: program_id.clone(),
            space: Some(self.estimate_account_space(account)),
        }
    }

    /// Whether every account-key seed of `pda_init` names an account of the
    /// registry; argument and static seeds always pass.
    pub fn validate_pda_seeds(&self, pda_init: &PdaInit, registry: &AccountRegistry) -> (r: Result<bool, SolifyError>)
        requires
            registry.wf(),
        ensures
            r matches Ok(b) && b == forall|k: int|
                0 <= k < pda_init.seeds@.len() && (#[trigger] pda_init.seeds@[k]).seed_type == SeedType::AccountKey
                    ==> has_name(registry.accounts@, pda_init.seeds@[k].value@),
    {
        let mut k: usize = 0;
        while k < pda_init.seeds.len()
            invariant
                registry.wf(),
                k <= pda_init.seeds@.len(),
                forall|m: int|
                    0 <= m < k && (#[trigger] pda_init.seeds@[m]).seed_type == SeedType::AccountKey
                        ==> has_name(registry.accounts@, pda_init.seeds@[m].value@),
            decreases pda_init.seeds@.len() - k,
        {
            let seed = &pda_init.seeds[k];
            if seed.seed_type == SeedType::AccountKey {
                if registry.find_index(seed.value.as_str()).is_none() {
                    return Ok(false);
                }
            }
            k = k + 1;
        }
        Ok(true)
    }
}

/// `v` holds the entries of the program-derived records of `accts` at the
/// positions of `order`: each record once, each after the records it waits
/// for, and among the records ready at a step the one of lowest registry
/// position first.
pub open spec fn pda_sequence(
    v: Seq<PdaInit>,
    accts: Seq<AccountInfo>,
    program: Seq<char>,
    order: Seq<usize>,
) -> bool {
    let pdas = pda_records(accts);
    &&& distinct_nodes(order, pdas.len())
    &&& covers_all(order, pdas.len())
    &&& v.len() == order.len()
    &&& forall|a: int| 0 <= a < order.len() ==> pda_init_of(#[trigger] v[a], pdas[order[a] as int], program)
    &&& forall|a: int, j: int|
        0 <= a < order.len() && #[trigger] pda_waits_for(keys_of(pdas), order[a] as int, j)
            ==> order.take(a).contains(j as usize)
    &&& lowest_ready_first_by(pda_waits(keys_of(pdas)), pdas.len() as int, order)
}

/// PDA `i` waits for PDA `j` (see `pda_waits_for`).
pub open spec fn pda_waits(keys: Seq<Seq<Seq<char>>>) -> spec_fn(int, int) -> bool {
    |i: int, j: int| pda_waits_for(keys, i, j)
}

/// The account-key seed values of each record.
pub open spec fn keys_of(recs: Seq<AccountInfo>) -> Seq<Seq<Seq<char>>> {
    recs.map_values(|a: AccountInfo| key_seed_values(a.seeds@))
}

/// The values of the account-key seeds of `seeds`, as new strings.
fn key_values(seeds: &Vec<SeedInfo>) -> (r: Vec<String>)
    ensures
        names_of(r@) == key_seed_values(seeds@),
{
    let mut r: Vec<String> = Vec::new();
    let mut i: usize = 0;
    while i < seeds.len()
        invariant
            i <= seeds@.len(),
            names_of(r@) == key_seed_values(seeds@.take(i as int)),
        decreases seeds@.len() - i,
    {
        proof {
            assert(seeds@.take(i + 1).drop_last() == seeds@.take(i as int));
            assert(seeds@.take(i + 1).last() == seeds@[i as int]);
        }
        if seeds[i].seed_type == RegistrySeedType::AccountKey {
            let ghost old_r = names_of(r@);
            r.push(seeds[i].value.clone());
            proof {
                assert(names_of(r@) =~= old_r.push(seeds@[i as int].value@));
            }
        }
        i = i + 1;
    }
    assert(seeds@.take(seeds@.len() as int) =~= seeds@);
    r
}

/// Some value among the first `t` of `mine` is first held by position `j`.
pub open spec fn held_upto(keys: Seq<Seq<Seq<char>>>, mine: Seq<Seq<char>>, t: int, j: int) -> bool {
    exists|t2: int| 0 <= t2 < t && #[trigger] first_holder(keys, mine[t2], j)
}

/// The position of the first key list that holds `v`.
fn first_holder_of(keys: &Vec<Vec<String>>, v: &String) -> (r: Option<usize>)
    ensures
        match r {
            Some(j) => first_holder(keys@.map_values(|k: Vec<String>| names_of(k@)), v@, j as int),
            None => forall|j: int| 0 <= j < keys@.len() ==> !names_of((#[trigger] keys@[j])@).contains(v@),
        },
{
    let ghost ks = keys@.map_values(|k: Vec<String>| names_of(k@));
    let mut j: usize = 0;
    while j < keys.len()
        invariant
            ks == keys@.map_values(|k: Vec<String>| names_of(k@)),
            j <= keys@.len(),
            forall|j2: int| 0 <= j2 < j ==> !names_of((#[trigger] keys@[j2])@).contains(v@),
        decreases keys@.len() - j,
    {
        if contains_name(&keys[j], v) {
            proof {
                assert forall|j2: int| 0 <= j2 < j implies !(#[trigger] ks[j2]).contains(v@) by {
                    assert(ks[j2] == names_of(keys@[j2]@));
                }
            }
            return Some(j);
        }
        j = j + 1;
    }
    None
}

/// Position `i` of a list of key lists comes after the positions it waits
/// for, which all lie before it.
proof fn lemma_waits_for_earlier(keys: Seq<Seq<Seq<char>>>, i: int, j: int)
    requires
        0 <= i < keys.len(),
        pda_waits_for(keys, i, j),
    ensures
        0 <= j < i,
{
    let v = choose|v: Seq<char>| keys[i].contains(v) && #[trigger] first_holder(keys, v, j);
    if j > i {
        assert(keys[i].contains(v));
    }
}

/// When every node's predecessors lie before it, a dependency order covers
/// every node.
proof fn lemma_earlier_preds_cover(preds: Seq<Vec<usize>>, order: Seq<usize>)
    requires
        preds.len() <= usize::MAX,
        is_dependency_order(order, preds),
        forall|i: int, k: int| 0 <= i < preds.len() && 0 <= k < preds[i]@.len() ==> (#[trigger] preds[i]@[k]) < i,
    ensures
        covers_all(order, preds.len()),
{
    let n = preds.len();
    if !covers_all(order, n) {
        let j0 = choose|j: usize| j < n && !#[trigger] order.contains(j);
        let p = |j: int| 0 <= j < n && !order.contains(j as usize);
        assert(p(j0 as int));
        let j = least_with(p, j0 as int);
        assert(blocked(order, preds, j));
        let k = choose|k: int| 0 <= k < preds[j]@.len() && !order.contains(#[trigger] preds[j]@[k]);
        assert(p(preds[j]@[k] as int));
    }
}

impl PdaDetector {
    /// The initialization entries of the program-derived accounts of the
    /// registry, one per such record (see `pda_init_of`), ordered so that
    /// a PDA comes after each PDA it waits for (see `pda_waits_for`); the
    /// lowest registry position goes first among the ready ones. It never
    /// fails.
    pub fn detect_pdas(&self, registry: &AccountRegistry, program_id: &String) -> (r: Result<Vec<PdaInit>, SolifyError>)
        ensures
            r matches Ok(v) && exists|order: Seq<usize>| #[trigger] pda_sequence(
                v@,
                registry.accounts@,
                program_id@,
                order,
            ),
    {
        let ghost accts = registry.accounts@;
        let mut recs: Vec<&AccountInfo> = Vec::new();
        let mut keys: Vec<Vec<String>> = Vec::new();
        let mut k: usize = 0;
        while k < registry.accounts.len()
            invariant
                accts == registry.accounts@,
                k <= accts.len(),
                recs@.len() == keys@.len(),
                recs@.len() == pda_records(accts.take(k as int)).len(),
                forall|i: int| 0 <= i < recs@.len() ==> *(#[trigger] recs@[i]) == pda_records(accts.take(k as int))[i],
                forall|i: int| 0 <= i < keys@.len() ==> names_of((#[trigger] keys@[i])@) == key_seed_values(recs@[i].seeds@),
            decreases accts.len() - k,
        {
            proof {
                assert(accts.take(k + 1).drop_last() == accts.take(k as int));
                assert(accts.take(k + 1).last() == accts[k as int]);
            }
            let a = &registry.accounts[k];
            if a.is_pda {
                recs.push(a);
                keys.push(key_values(&a.seeds));
            }
            k = k + 1;
        }
        assert(accts.take(accts.len() as int) =~= accts);
        let ghost pdas = pda_records(accts);
        let ghost ks = keys_of(pdas);
        proof {
            assert(keys@.map_values(|k: Vec<String>| names_of(k@)) =~= ks);
        }
        let n = recs.len();
        let mut preds: Vec<Vec<usize>> = Vec::new();
        let mut i: usize = 0;
        while i < n
            invariant
                accts == registry.accounts@,
                pdas == pda_records(accts),
                n == recs@.len(),
                n == keys@.len(),
                n == pdas.len(),
                ks == keys_of(pdas),
                keys@.map_values(|k: Vec<String>| names_of(k@)) == ks,
                i <= n,
                preds@.len() == i,
                forall|x: int, y: int| 0 <= x < i && 0 <= y < preds@[x]@.len() ==> (#[trigger] preds@[x]@[y]) < x,
                forall|x: int, j: int|
                    0 <= x < i && 0 <= j < n ==> (preds@[x]@.contains(j as usize) <==> #[trigger] pda_waits_for(ks, x, j)),
            decreases n - i,
        {
            let mut ps: Vec<usize> = Vec::new();
            let mine = &keys[i];
            let mut t: usize = 0;
            proof {
                assert(ks[i as int] == names_of(mine@));
            }
            while t < mine.len()
                invariant
                    n == keys@.len(),
                    n == pdas.len(),
                    i < n,
                    *mine == keys@[i as int],
                    ks == keys_of(pdas),
                    keys@.map_values(|k: Vec<String>| names_of(k@)) == ks,
                    ks[i as int] == names_of(mine@),
                    t <= mine@.len(),
                    forall|y: int| 0 <= y < ps@.len() ==> (#[trigger] ps@[y]) < i,
                    forall|j: int|
                        0 <= j < n ==> (ps@.contains(j as usize) <==> (j != i && #[trigger] held_upto(
                            ks,
                            names_of(mine@),
                            t as int,
                            j,
                        ))),
                decreases mine@.len() - t,
            {
                let ghost before = ps@;
                let found = first_holder_of(&keys, &mine[t]);
                proof {
                    assert(ks[i as int][t as int] == mine@[t as int]@);
                    assert(ks[i as int].contains(mine@[t as int]@));
                }
                match found {
                    Some(j) => {
                        proof {
                            lemma_waits_for_earlier_or_self(ks, i as int, j as int, mine@[t as int]@);
                        }
                        if j != i {
                            ps.push(j);
                        }
                    },
                    None => {
                        proof {
                            assert(!names_of(keys@[i as int]@).contains(mine@[t as int]@));
                        }
                    },
                }
                proof {
                    assert forall|j: int| 0 <= j < n implies (ps@.contains(j as usize) <==> (j != i
                        && #[trigger] held_upto(ks, names_of(mine@), t + 1, j))) by {
                        assert(names_of(mine@)[t as int] == mine@[t as int]@);
                        if held_upto(ks, names_of(mine@), t + 1, j) && !held_upto(ks, names_of(mine@), t as int, j) {
                            let t2 = choose|t2: int| 0 <= t2 < t + 1 && #[trigger] first_holder(ks, names_of(mine@)[t2], j);
                            assert(t2 == t);
                        }
                        if first_holder(ks, mine@[t as int]@, j) {
                            assert(held_upto(ks, names_of(mine@), t + 1, j));
                        }
                        if held_upto(ks, names_of(mine@), t as int, j) {
                            let t2 = choose|t2: int| 0 <= t2 < t && #[trigger] first_holder(ks, names_of(mine@)[t2], j);
                            assert(held_upto(ks, names_of(mine@), t + 1, j));
                        }
                        if ps@.contains(j as usize) && !before.contains(j as usize) {
                            assert(first_holder(ks, mine@[t as int]@, j));
                        }
                        if before.contains(j as usize) {
                            let y = choose|y: int| 0 <= y < before.len() && before[y] == j as usize;
                            assert(ps@[y] == j as usize);
                        }
                        if j != i && first_holder(ks, mine@[t as int]@, j) {
                            assert(found == Some(j as usize)) by {
                                lemma_first_holder_unique(ks, mine@[t as int]@, j, found->Some_0 as int);
                            }
                            assert(ps@[ps@.len() - 1] == j as usize);
                        }
                    }
                }
                t = t + 1;
            }
            proof {
                assert forall|j: int| 0 <= j < n implies (ps@.contains(j as usize) <==> pda_waits_for(ks, i as int, j)) by {
                    if pda_waits_for(ks, i as int, j) {
                        let v = choose|v: Seq<char>| ks[i as int].contains(v) && #[trigger] first_holder(ks, v, j);
                        let t2 = choose|t2: int| 0 <= t2 < ks[i as int].len() && ks[i as int][t2] == v;
                        assert(names_of(mine@)[t2] == v);
                        assert(held_upto(ks, names_of(mine@), t as int, j));
                    }
                    if ps@.contains(j as usize) {
                        assert(held_upto(ks, names_of(mine@), t as int, j));
                        let t2 = choose|t2: int| 0 <= t2 < t && #[trigger] first_holder(ks, names_of(mine@)[t2], j);
                        assert(ks[i as int][t2] == names_of(mine@)[t2]);
                        assert(ks[i as int].contains(names_of(mine@)[t2]));
                    }
                }
            }
            let ghost old_preds = preds@;
            preds.push(ps);
            proof {
                assert forall|x: int, j: int|
                    0 <= x < i + 1 && 0 <= j < n implies (preds@[x]@.contains(j as usize)
                    <==> #[trigger] pda_waits_for(ks, x, j)) by {
                    if x < i {
                        assert(preds@[x] == old_preds[x]);
                    }
                }
            }
            i = i + 1;
        }
        let order = dependency_order(&preds);
        proof {
            lemma_earlier_preds_cover(preds@, order@);
            assert forall|x: int, y: int|
                0 <= x < preds@.len() && 0 <= y < preds@.len() implies (preds@[x]@.contains(y as usize)
                <==> #[trigger] pda_waits(ks)(x, y)) by {
                assert(preds@[x]@.contains(y as usize) <==> pda_waits_for(ks, x, y));
            }
            lemma_lowest_first_by(preds@, pda_waits(ks), order@);
        }
        let mut out: Vec<PdaInit> = Vec::new();
        let mut a: usize = 0;
        while a < order.len()
            invariant
                accts == registry.accounts@,
                pdas == pda_records(accts),
                ks == keys_of(pdas),
                n == recs@.len(),
                n == pdas.len(),
                distinct_nodes(order@, n as nat),
                forall|i: int| 0 <= i < recs@.len() ==> *(#[trigger] recs@[i]) == pdas[i],
                a <= order@.len(),
                out@.len() == a,
                forall|b: int| 0 <= b < a ==> pda_init_of(#[trigger] out@[b], pdas[order@[b] as int], program_id@),
            decreases order@.len() - a,
        {
            out.push(self.create_pda_init(recs[order[a]], program_id));
            a = a + 1;
        }
        proof {
            assert forall|a: int, j: int|
                0 <= a < order@.len() && #[trigger] pda_waits_for(ks, order@[a] as int, j)
                    implies order@.take(a).contains(j as usize) by {
                let x = order@[a] as int;
                lemma_waits_for_earlier(ks, x, j);
                assert(preds@[x]@.contains(j as usize));
                let y = choose|y: int| 0 <= y < preds@[x]@.len() && preds@[x]@[y] == j as usize;
                assert(order@.take(a).contains(#[trigger] preds@[order@[a] as int]@[y]));
            }
            assert(pda_sequence(out@, accts, program_id@, order@));
            assert(pda_sequence(out@, registry.accounts@, program_id@, order@));
        }
        let r: Result<Vec<PdaInit>, SolifyError> = Ok(out);
        assert(r matches Ok(v) && pda_sequence(v@, registry.accounts@, program_id@, order@));
        r
    }
}

/// The first holder of a value held by position `i` lies at or before `i`.
proof fn lemma_waits_for_earlier_or_self(keys: Seq<Seq<Seq<char>>>, i: int, j: int, v: Seq<char>)
    requires
        0 <= i < keys.len(),
        keys[i].contains(v),
        first_holder(keys, v, j),
    ensures
        j <= i,
{
    if j > i {
        assert(keys[i].contains(v));
    }
}

proof fn lemma_first_holder_unique(keys: Seq<Seq<Seq<char>>>, v: Seq<char>, j: int, j2: int)
    requires
        first_holder(keys, v, j),
        first_holder(keys, v, j2),
    ensures
        j == j2,
{
    if j < j2 {
        assert(keys[j].contains(v));
    }
    if j2 < j {
        assert(keys[j2].contains(v));
    }
}

} // verus!
