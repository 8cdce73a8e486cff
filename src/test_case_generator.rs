//! Test cases for each instruction: a valid baseline, boundary values, and
//! invalid values drawn from each argument's type and constraints.
use vstd::prelude::*;
use crate::errors::SolifyError;
use crate::graph::{has_instruction, missing_entry, named_first, order_known};
use crate::idl::{IdlData, IdlField, IdlInstruction};
use crate::registry::names_of;
use crate::text::{concat2, concat3, decimal_of, decimal_text, str_eq};
use crate::types::{
    ArgumentConstraint, ArgumentInfo, ArgumentType, ExpectedOutcome, InstructionTestCases, TestArgumentValue,
    TestCase, TestCaseType, TestValueType,
};

verus! {

/// Generates test cases from instruction arguments.
pub struct TestCaseGenerator;

/// What one argument value of a case holds: valid with a description, or
/// invalid with a description and a reason.
pub struct ValueSpec {
    pub name: Seq<char>,
    pub description: Seq<char>,
    pub reason: Option<Seq<char>>,
}

/// What one test case holds.
pub struct CaseSpec {
    pub kind: TestCaseType,
    pub description: Seq<char>,
    pub values: Seq<ValueSpec>,
    /// `Some(changes)` for an expected success, `None` for a failure.
    pub changes: Option<Seq<Seq<char>>>,
    pub code: Option<Seq<char>>,
    pub message: Seq<char>,
}

pub open spec fn value_matches(v: TestArgumentValue, s: ValueSpec) -> bool {
    &&& v.argument_name@ == s.name
    &&& match v.value_type {
        TestValueType::Valid { description } => description@ == s.description && s.reason is None,
        TestValueType::Invalid { description, reason } => description@ == s.description && s.reason
            == Some(reason@),
    }
}

pub open spec fn case_matches(tc: TestCase, s: CaseSpec) -> bool {
    &&& tc.test_type == s.kind
    &&& tc.description@ == s.description
    &&& tc.argument_values@.len() == s.values.len()
    &&& forall|k: int| 0 <= k < s.values.len() ==> value_matches(#[trigger] tc.argument_values@[k], s.values[k])
    &&& match tc.expected_outcome {
        ExpectedOutcome::Success { state_changes } => s.changes == Some(names_of(state_changes@)),
        ExpectedOutcome::Failure { error_code, error_message } => {
            &&& s.changes is None
            &&& error_message@ == s.message
            &&& match error_code {
                Some(c) => s.code == Some(c@),
                None => s.code is None,
            }
        },
    }
}

pub open spec fn cases_match(tcs: Seq<TestCase>, ss: Seq<CaseSpec>) -> bool {
    tcs.len() == ss.len() && forall|k: int| 0 <= k < ss.len() ==> case_matches(#[trigger] tcs[k], ss[k])
}

/// A case about one argument.
pub open spec fn one_arg_case(
    kind: TestCaseType,
    description: Seq<char>,
    arg: Seq<char>,
    value: Seq<char>,
    reason: Option<Seq<char>>,
    changes: Option<Seq<Seq<char>>>,
    code: Option<Seq<char>>,
    message: Seq<char>,
) -> CaseSpec {
    CaseSpec {
        kind,
        description,
        values: seq![ValueSpec { name: arg, description: value, reason }],
        changes,
        code,
        message,
    }
}

pub open spec fn is_unsigned(t: ArgumentType) -> bool {
    t is U8 || t is U16 || t is U32 || t is U64 || t is U128
}

pub open spec fn is_signed(t: ArgumentType) -> bool {
    t is I8 || t is I16 || t is I32 || t is I64 || t is I128
}

/// The argument type that a type name gives: a fixed table of primitives;
/// any other name is a byte vector.
pub open spec fn type_named(t: ArgumentType, name: Seq<char>) -> bool {
    if name == "u8"@ {
        t is U8
    } else if name == "u16"@ {
        t is U16
    } else if name == "u32"@ {
        t is U32
    } else if name == "u64"@ {
        t is U64
    } else if name == "u128"@ {
        t is U128
    } else if name == "i8"@ {
        t is I8
    } else if name == "i16"@ {
        t is I16
    } else if name == "i32"@ {
        t is I32
    } else if name == "i64"@ {
        t is I64
    } else if name == "i128"@ {
        t is I128
    } else if name == "bool"@ {
        t is Bool
    } else if name == "string"@ {
        t matches ArgumentType::String { max_length } && max_length is None
    } else if name == "publicKey"@ {
        t is Pubkey
    } else {
        t matches ArgumentType::Vec { inner_type, max_length } && *inner_type is U8 && max_length is None
    }
}

/// The constraints that a type name gives: integers are at least 0 and
/// non-zero; strings have 1 to 100 characters; others have none.
pub open spec fn constraints_named(cs: Seq<ArgumentConstraint>, name: Seq<char>) -> bool {
    if name == "u8"@ || name == "u16"@ || name == "u32"@ || name == "u64"@ || name == "u128"@ || name == "i8"@
        || name == "i16"@ || name == "i32"@ || name == "i64"@ || name == "i128"@ {
        cs.len() == 2 && cs[0] == (ArgumentConstraint::Min { value: 0 }) && cs[1] == ArgumentConstraint::NonZero
    } else if name == "string"@ {
        cs.len() == 2 && cs[0] == (ArgumentConstraint::MinLength { value: 1 }) && cs[1]
            == (ArgumentConstraint::MaxLength { value: 100 })
    } else {
        cs.len() == 0
    }
}

/// `a` is the argument information of field `f`.
pub open spec fn argument_of(a: ArgumentInfo, f: IdlField) -> bool {
    &&& a.name@ == f.name@
    &&& type_named(a.arg_type, f.field_type@)
    &&& constraints_named(a.constraints@, f.field_type@)
    &&& !a.is_optional
}

/// The valid literal that the baseline case uses for a type.
pub open spec fn valid_literal(t: ArgumentType) -> Seq<char> {
    if is_unsigned(t) {
        "1000"@
    } else if is_signed(t) {
        "500"@
    } else if t is Bool {
        "true"@
    } else if t is String {
        "\"test_value\""@
    } else if t is Pubkey {
        "authority.publicKey"@
    } else {
        "/* valid value */"@
    }
}

/// The invalid case that breaking constraint `c` of argument `arg` gives, if any.
pub open spec fn violation_case(instr: Seq<char>, arg: Seq<char>, c: ArgumentConstraint) -> Option<CaseSpec> {
    match c {
        ArgumentConstraint::Min { value } => Some(
            one_arg_case(
                TestCaseType::NegativeBoundary,
                instr + " - "@ + arg + " below minimum"@,
                arg,
                decimal_of(value - 1),
                Some("Below minimum value of "@ + decimal_of(value as int)),
                None,
                Some("ConstraintViolation"@),
                arg + " must be at least "@ + decimal_of(value as int),
            ),
        ),
        ArgumentConstraint::Max { value } => Some(
            one_arg_case(
                TestCaseType::NegativeBoundary,
                instr + " - "@ + arg + " above maximum"@,
                arg,
                decimal_of(value + 1),
                Some("Above maximum value of "@ + decimal_of(value as int)),
                None,
                Some("ConstraintViolation"@),
                arg + " must be at most "@ + decimal_of(value as int),
            ),
        ),
        ArgumentConstraint::NonZero => Some(
            one_arg_case(
                TestCaseType::NegativeConstraint,
                instr + " - "@ + arg + " is zero"@,
                arg,
                "0"@,
                Some("Must be non-zero"@),
                None,
                Some("ZeroAmount"@),
                arg + " cannot be zero"@,
            ),
        ),
        _ => None,
    }
}

/// The invalid cases that breaking each constraint gives, in order.
pub open spec fn violation_cases(instr: Seq<char>, arg: Seq<char>, cs: Seq<ArgumentConstraint>) -> Seq<CaseSpec>
    decreases cs.len(),
{
    if cs.len() == 0 {
        seq![]
    } else {
        let rest = violation_cases(instr, arg, cs.drop_last());
        match violation_case(instr, arg, cs.last()) {
            Some(c) => rest.push(c),
            None => rest,
        }
    }
}

/// The invalid cases that an argument's type gives.
pub open spec fn type_cases(instr: Seq<char>, arg: Seq<char>, t: ArgumentType) -> Seq<CaseSpec> {
    if is_unsigned(t) || is_signed(t) {
        seq![
            one_arg_case(
                TestCaseType::NegativeOverflow,
                instr + " - "@ + arg + " overflow"@,
                arg,
                "u64::MAX"@,
                Some("Potential arithmetic overflow"@),
                None,
                Some("Overflow"@),
                "Arithmetic overflow"@,
            ),
        ] + if is_unsigned(t) {
            seq![
                one_arg_case(
                    TestCaseType::NegativeType,
                    instr + " - "@ + arg + " negative value"@,
                    arg,
                    "-1"@,
                    Some("Unsigned type cannot be negative"@),
                    None,
                    Some("InvalidType"@),
                    "Unsigned integer cannot be negative"@,
                ),
            ]
        } else {
            seq![]
        }
    } else if t is String {
        seq![
            one_arg_case(
                TestCaseType::NegativeNull,
                instr + " - "@ + arg + " empty string"@,
                arg,
                "\"\""@,
                Some("String cannot be empty"@),
                None,
                Some("EmptyString"@),
                "String cannot be empty"@,
            ),
            one_arg_case(
                TestCaseType::NegativeBoundary,
                instr + " - "@ + arg + " too long"@,
                arg,
                "\"a\".repeat(1000)"@,
                Some("Exceeds maximum length"@),
                None,
                Some("StringTooLong"@),
                "String exceeds maximum length"@,
            ),
        ]
    } else if t is Pubkey {
        seq![
            one_arg_case(
                TestCaseType::NegativeType,
                instr + " - "@ + arg + " invalid pubkey"@,
                arg,
                "Keypair.generate().publicKey"@,
                Some("Account not initialized"@),
                None,
                Some("AccountNotInitialized"@),
                "Account has not been initialized"@,
            ),
        ]
    } else {
        seq![]
    }
}

/// The invalid cases of one argument: its constraint violations, then its
/// type's cases.
pub open spec fn argument_negative_cases(instr: Seq<char>, a: ArgumentInfo) -> Seq<CaseSpec> {
    violation_cases(instr, a.name@, a.constraints@) + type_cases(instr, a.name@, a.arg_type)
}

fn text(s: &str) -> (r: String)
    ensures
        r@ == s@,
{
    String::from_str(s)
}

fn failure(code: &str, message: String) -> (r: ExpectedOutcome)
    ensures
        r matches ExpectedOutcome::Failure { error_code, error_message } && error_code matches Some(c) && c@
            == code@ && error_message@ == message@,
{
    ExpectedOutcome::Failure { error_code: Some(text(code)), error_message: message }
}

fn invalid_case(
    kind: TestCaseType,
    description: String,
    arg: &String,
    value: String,
    reason: String,
    outcome: ExpectedOutcome,
) -> (r: TestCase)
    ensures
        r.test_type == kind,
        r.description@ == description@,
        r.argument_values@.len() == 1,
        r.argument_values@[0].argument_name@ == arg@,
        r.argument_values@[0].value_type matches TestValueType::Invalid { description: d, reason: e } && d@
            == value@ && e@ == reason@,
        r.expected_outcome == outcome,
{
    let mut values: Vec<TestArgumentValue> = Vec::new();
    values.push(
        TestArgumentValue {
            argument_name: arg.clone(),
            value_type: TestValueType::Invalid { description: value, reason },
        },
    );
    TestCase { test_type: kind, description, argument_values: values, expected_outcome: outcome }
}

/// `instr - arg suffix`.
fn case_title(instr: &str, arg: &str, suffix: &str) -> (r: String)
    ensures
        r@ == instr@ + " - "@ + arg@ + suffix@,
{
    let mut s = concat3(instr, " - ", arg);
    s.append(suffix);
    s
}

impl TestCaseGenerator {
    /// The invalid case that breaking `constraint` of `argument` gives:
    /// one below a minimum, one above a maximum, zero for a non-zero
    /// constraint; `None` for the other constraints.
    pub fn create_constraint_violation_case(
        &self,
        instruction_name: &String,
        argument: &ArgumentInfo,
        constraint: &ArgumentConstraint,
    ) -> (r: Option<TestCase>)
        ensures
            match violation_case(instruction_name@, argument.name@, *constraint) {
                Some(c) => r matches Some(tc) && case_matches(tc, c),
                None => r is None,
            },
    {
        let instr = instruction_name.as_str();
        let arg = &argument.name;
        match constraint {
            ArgumentConstraint::Min { value } => {
                let v = *value as i128;
                let shown = decimal_text(v);
                let tc = invalid_case(
                    TestCaseType::NegativeBoundary,
                    case_title(instr, arg.as_str(), " below minimum"),
                    arg,
                    decimal_text(v - 1),
                    concat2("Below minimum value of ", shown.as_str()),
                    failure("ConstraintViolation", concat3(arg.as_str(), " must be at least ", shown.as_str())),
                );
                proof {
                    lemma_single_case(tc, violation_case(instruction_name@, argument.name@, *constraint)->Some_0);
                }
                Some(tc)
            },
            ArgumentConstraint::Max { value } => {
                let v = *value as i128;
                let shown = decimal_text(v);
                let tc = invalid_case(
                    TestCaseType::NegativeBoundary,
                    case_title(instr, arg.as_str(), " above maximum"),
                    arg,
                    decimal_text(v + 1),
                    concat2("Above maximum value of ", shown.as_str()),
                    failure("ConstraintViolation", concat3(arg.as_str(), " must be at most ", shown.as_str())),
                );
                proof {
                    lemma_single_case(tc, violation_case(instruction_name@, argument.name@, *constraint)->Some_0);
                }
                Some(tc)
            },
            ArgumentConstraint::NonZero => {
                let tc = invalid_case(
                    TestCaseType::NegativeConstraint,
                    case_title(instr, arg.as_str(), " is zero"),
                    arg,
                    text("0"),
                    text("Must be non-zero"),
                    failure("ZeroAmount", concat2(arg.as_str(), " cannot be zero")),
                );
                proof {
                    lemma_single_case(tc, violation_case(instruction_name@, argument.name@, *constraint)->Some_0);
                }
                Some(tc)
            },
            _ => None,
        }
    }
}

/// The cases of each argument, in order, then, when there are several
/// arguments, one case that makes them all invalid.
pub open spec fn negative_cases_of(instr: Seq<char>, args: Seq<ArgumentInfo>) -> Seq<CaseSpec> {
    all_argument_cases(instr, args) + if args.len() > 1 {
        seq![combined_case(instr, args)]
    } else {
        seq![]
    }
}

/// The invalid cases of each argument, argument by argument.
pub open spec fn all_argument_cases(instr: Seq<char>, args: Seq<ArgumentInfo>) -> Seq<CaseSpec>
    decreases args.len(),
{
    if args.len() == 0 {
        seq![]
    } else {
        all_argument_cases(instr, args.drop_last()) + argument_negative_cases(instr, args.last())
    }
}

/// The case that makes every argument invalid at once.
pub open spec fn combined_case(instr: Seq<char>, args: Seq<ArgumentInfo>) -> CaseSpec {
    CaseSpec {
        kind: TestCaseType::NegativeConstraint,
        description: instr + " - all arguments invalid"@,
        values: args.map_values(
            |a: ArgumentInfo|
                ValueSpec {
                    name: a.name@,
                    description: "invalid"@,
                    reason: Some("Multiple validation failures"@),
                },
        ),
        changes: None,
        code: None,
        message: "Multiple validation errors"@,
    }
}

/// The baseline case: every argument takes its type's valid literal.
pub open spec fn basic_case(instr: Seq<char>, args: Seq<ArgumentInfo>) -> CaseSpec {
    CaseSpec {
        kind: TestCaseType::Positive,
        description: instr + " - valid inputs"@,
        values: args.map_values(
            |a: ArgumentInfo| ValueSpec { name: a.name@, description: valid_literal(a.arg_type), reason: None },
        ),
        changes: Some(seq!["Account state updated successfully"@, "Instruction executed without errors"@]),
        code: None,
        message: seq![],
    }
}

/// The valid case at a minimum or maximum of an argument, if `c` is one.
pub open spec fn boundary_case(arg: Seq<char>, c: ArgumentConstraint) -> Option<CaseSpec> {
    match c {
        ArgumentConstraint::Min { value } => Some(
            CaseSpec {
                kind: TestCaseType::Positive,
                description: arg + " - minimum value"@,
                values: seq![ValueSpec { name: arg, description: decimal_of(value as int), reason: None }],
                changes: Some(seq!["Minimum value accepted"@]),
                code: None,
                message: seq![],
            },
        ),
        ArgumentConstraint::Max { value } => Some(
            CaseSpec {
                kind: TestCaseType::Positive,
                description: arg + " - maximum value"@,
                values: seq![ValueSpec { name: arg, description: decimal_of(value as int), reason: None }],
                changes: Some(seq!["Maximum value accepted"@]),
                code: None,
                message: seq![],
            },
        ),
        _ => None,
    }
}

/// The boundary cases of the constraints `cs`, in order.
pub open spec fn boundary_cases(arg: Seq<char>, cs: Seq<ArgumentConstraint>) -> Seq<CaseSpec>
    decreases cs.len(),
{
    if cs.len() == 0 {
        seq![]
    } else {
        let rest = boundary_cases(arg, cs.drop_last());
        match boundary_case(arg, cs.last()) {
            Some(c) => rest.push(c),
            None => rest,
        }
    }
}

/// The boundary cases of each argument, argument by argument.
pub open spec fn all_boundary_cases(args: Seq<ArgumentInfo>) -> Seq<CaseSpec>
    decreases args.len(),
{
    if args.len() == 0 {
        seq![]
    } else {
        all_boundary_cases(args.drop_last()) + boundary_cases(args.last().name@, args.last().constraints@)
    }
}

/// The valid cases: the baseline, then the boundary cases.
pub open spec fn positive_cases_of(instr: Seq<char>, args: Seq<ArgumentInfo>) -> Seq<CaseSpec> {
    seq![basic_case(instr, args)] + all_boundary_cases(args)
}

/// A case with one invalid value matches a one-argument failure spec with
/// the same parts.
proof fn lemma_single_case(tc: TestCase, s: CaseSpec)
    requires
        tc.test_type == s.kind,
        tc.description@ == s.description,
        s.values.len() == 1,
        tc.argument_values@.len() == 1,
        value_matches(tc.argument_values@[0], s.values[0]),
        s.changes is None,
        tc.expected_outcome matches ExpectedOutcome::Failure { error_code, error_message } && error_message@
            == s.message && (match error_code {
            Some(c) => s.code == Some(c@),
            None => s.code is None,
        }),
    ensures
        case_matches(tc, s),
{
}

proof fn lemma_cases_push(tcs: Seq<TestCase>, ss: Seq<CaseSpec>, tc: TestCase, c: CaseSpec)
    requires
        cases_match(tcs, ss),
        case_matches(tc, c),
    ensures
        cases_match(tcs.push(tc), ss.push(c)),
{
    assert forall|k: int| 0 <= k < ss.push(c).len() implies case_matches(#[trigger] tcs.push(tc)[k], ss.push(c)[k]) by {
        if k < ss.len() {
            assert(tcs.push(tc)[k] == tcs[k]);
        }
    }
}

/// Appends `more` to `out`, keeping the match with the specs.
fn append_cases(out: &mut Vec<TestCase>, more: Vec<TestCase>, Ghost(ss): Ghost<Seq<CaseSpec>>, Ghost(ms): Ghost<Seq<CaseSpec>>)
    requires
        cases_match(old(out)@, ss),
        cases_match(more@, ms),
    ensures
        cases_match(final(out)@, ss + ms),
{
    let mut more = more;
    let ghost start = more@;
    let n = more.len();
    let mut k: usize = 0;
    while k < n
        invariant
            n == start.len(),
            k <= n,
            more@ == start.subrange(k as int, n as int),
            cases_match(out@, ss + ms.take(k as int)),
            cases_match(start, ms),
        decreases n - k,
    {
        let tc = more.remove(0);
        proof {
            assert(tc == start[k as int]);
            assert(case_matches(start[k as int], ms[k as int]));
            lemma_cases_push(out@, ss + ms.take(k as int), tc, ms[k as int]);
            assert((ss + ms.take(k as int)).push(ms[k as int]) =~= ss + ms.take(k + 1));
            assert(more@ =~= start.subrange(k + 1, n as int));
        }
        out.push(tc);
        k = k + 1;
    }
    assert(ms.take(n as int) =~= ms);
}

/// One case of `kind` about one invalid value of `arg`.
fn fixed_case(
    kind: TestCaseType,
    instr: &str,
    arg: &String,
    suffix: &str,
    value: &str,
    reason: &str,
    code: &str,
    message: &str,
) -> (r: TestCase)
    ensures
        case_matches(
            r,
            one_arg_case(
                kind,
                instr@ + " - "@ + arg@ + suffix@,
                arg@,
                value@,
                Some(reason@),
                None,
                Some(code@),
                message@,
            ),
        ),
{
    let tc = invalid_case(kind, case_title(instr, arg.as_str(), suffix), arg, text(value), text(reason), failure(code, text(message)));
    proof {
        lemma_single_case(tc, one_arg_case(kind, instr@ + " - "@ + arg@ + suffix@, arg@, value@, Some(reason@), None, Some(code@), message@));
    }
    tc
}

fn is_unsigned_type(t: &ArgumentType) -> (r: bool)
    ensures
        r == is_unsigned(*t),
{
    match t {
        ArgumentType::U8 | ArgumentType::U16 | ArgumentType::U32 | ArgumentType::U64 | ArgumentType::U128 => true,
        _ => false,
    }
}

fn is_signed_type(t: &ArgumentType) -> (r: bool)
    ensures
        r == is_signed(*t),
{
    match t {
        ArgumentType::I8 | ArgumentType::I16 | ArgumentType::I32 | ArgumentType::I64 | ArgumentType::I128 => true,
        _ => false,
    }
}

impl TestCaseGenerator {
    /// The invalid cases of an integer argument: an overflowing value, and
    /// for an unsigned type a negative one.
    pub fn generate_numeric_negative_cases(&self, instruction_name: &String, argument: &ArgumentInfo) -> (r: Vec<TestCase>)
        requires
            is_unsigned(argument.arg_type) || is_signed(argument.arg_type),
        ensures
            cases_match(r@, type_cases(instruction_name@, argument.name@, argument.arg_type)),
    {
        let instr = instruction_name.as_str();
        let arg = &argument.name;
        let mut r: Vec<TestCase> = Vec::new();
        r.push(fixed_case(TestCaseType::NegativeOverflow, instr, arg, " overflow", "u64::MAX",
            "Potential arithmetic overflow", "Overflow", "Arithmetic overflow"));
        if is_unsigned_type(&argument.arg_type) {
            r.push(fixed_case(TestCaseType::NegativeType, instr, arg, " negative value", "-1",
                "Unsigned type cannot be negative", "InvalidType", "Unsigned integer cannot be negative"));
        }
        r
    }

    /// The invalid cases of a string argument: an empty string and an
    /// over-long one.
    pub fn generate_string_negative_cases(&self, instruction_name: &String, argument: &ArgumentInfo) -> (r: Vec<TestCase>)
        requires
            argument.arg_type is String,
        ensures
            cases_match(r@, type_cases(instruction_name@, argument.name@, argument.arg_type)),
    {
        let instr = instruction_name.as_str();
        let arg = &argument.name;
        let mut r: Vec<TestCase> = Vec::new();
        r.push(fixed_case(TestCaseType::NegativeNull, instr, arg, " empty string", "\"\"",
            "String cannot be empty", "EmptyString", "String cannot be empty"));
        r.push(fixed_case(TestCaseType::NegativeBoundary, instr, arg, " too long", "\"a\".repeat(1000)",
            "Exceeds maximum length", "StringTooLong", "String exceeds maximum length"));
        r
    }

    /// The invalid case of a public-key argument: a key of an account that
    /// does not exist.
    pub fn generate_pubkey_negative_cases(&self, instruction_name: &String, argument: &ArgumentInfo) -> (r: Vec<TestCase>)
        requires
            argument.arg_type is Pubkey,
        ensures
            cases_match(r@, type_cases(instruction_name@, argument.name@, argument.arg_type)),
    {
        let mut r: Vec<TestCase> = Vec::new();
        r.push(fixed_case(TestCaseType::NegativeType, instruction_name.as_str(), &argument.name, " invalid pubkey",
            "Keypair.generate().publicKey", "Account not initialized", "AccountNotInitialized",
            "Account has not been initialized"));
        r
    }

    /// The invalid cases that the type of `argument` gives: overflow for
    /// integers and a negative value for unsigned ones, an empty and an over-long
    /// string for strings, an uninitialized account for public keys.
    pub fn generate_type_negative_cases(&self, instruction_name: &String, argument: &ArgumentInfo) -> (r: Vec<TestCase>)
        ensures
            cases_match(r@, type_cases(instruction_name@, argument.name@, argument.arg_type)),
    {
        if is_unsigned_type(&argument.arg_type) || is_signed_type(&argument.arg_type) {
            self.generate_numeric_negative_cases(instruction_name, argument)
        } else if let ArgumentType::String { .. } = &argument.arg_type {
            self.generate_string_negative_cases(instruction_name, argument)
        } else if let ArgumentType::Pubkey = &argument.arg_type {
            self.generate_pubkey_negative_cases(instruction_name, argument)
        } else {
            Vec::new()
        }
    }

    /// The invalid cases of one argument: one per constraint it can break,
    /// then those of its type.
    pub fn generate_argument_negative_cases(&self, instruction_name: &String, argument: &ArgumentInfo) -> (r: Vec<TestCase>)
        ensures
            cases_match(r@, argument_negative_cases(instruction_name@, *argument)),
    {
        let mut r: Vec<TestCase> = Vec::new();
        let cs = &argument.constraints;
        let mut k: usize = 0;
        proof {
            assert(violation_cases(instruction_name@, argument.name@, cs@.take(0)) =~= seq![]);
        }
        while k < cs.len()
            invariant
                k <= cs@.len(),
                *cs == argument.constraints,
                cases_match(r@, violation_cases(instruction_name@, argument.name@, cs@.take(k as int))),
            decreases cs@.len() - k,
        {
            proof {
                assert(cs@.take(k + 1).drop_last() == cs@.take(k as int));
                assert(cs@.take(k + 1).last() == cs@[k as int]);
            }
            match self.create_constraint_violation_case(instruction_name, argument, &cs[k]) {
                Some(tc) => {
                    proof {
                        lemma_cases_push(r@, violation_cases(instruction_name@, argument.name@, cs@.take(k as int)), tc,
                            violation_case(instruction_name@, argument.name@, cs@[k as int])->Some_0);
                    }
                    r.push(tc);
                },
                None => {},
            }
            k = k + 1;
        }
        assert(cs@.take(cs@.len() as int) =~= cs@);
        let more = self.generate_type_negative_cases(instruction_name, argument);
        append_cases(&mut r, more, Ghost(violation_cases(instruction_name@, argument.name@, cs@)),
            Ghost(type_cases(instruction_name@, argument.name@, argument.arg_type)));
        r
    }
}

impl TestCaseGenerator {
    /// The case that makes every argument invalid at once.
    pub fn create_combined_negative_case(&self, instruction_name: &String, arguments: &Vec<ArgumentInfo>) -> (r: TestCase)
        ensures
            case_matches(r, combined_case(instruction_name@, arguments@)),
    {
        let mut values: Vec<TestArgumentValue> = Vec::new();
        let ghost spec = combined_case(instruction_name@, arguments@);
        let mut k: usize = 0;
        while k < arguments.len()
            invariant
                spec == combined_case(instruction_name@, arguments@),
                k <= arguments@.len(),
                values@.len() == k,
                forall|m: int| 0 <= m < k ==> value_matches(#[trigger] values@[m], spec.values[m]),
            decreases arguments@.len() - k,
        {
            values.push(
                TestArgumentValue {
                    argument_name: arguments[k].name.clone(),
                    value_type: TestValueType::Invalid { description: text("invalid"), reason: text("Multiple validation failures") },
                },
            );
            k = k + 1;
        }
        TestCase {
            test_type: TestCaseType::NegativeConstraint,
            description: concat2(instruction_name.as_str(), " - all arguments invalid"),
            argument_values: values,
            expected_outcome: ExpectedOutcome::Failure { error_code: None, error_message: text("Multiple validation errors") },
        }
    }

    /// The invalid cases of an instruction: those of each argument in
    /// order, then, with more than one argument, one case that makes them
    /// all invalid.
    pub fn generate_negative_cases(&self, instruction_name: &String, arguments: &Vec<ArgumentInfo>) -> (r: Vec<TestCase>)
        ensures
            cases_match(r@, negative_cases_of(instruction_name@, arguments@)),
    {
        let mut r: Vec<TestCase> = Vec::new();
        let mut k: usize = 0;
        proof {
            assert(all_argument_cases(instruction_name@, arguments@.take(0)) =~= seq![]);
        }
        while k < arguments.len()
            invariant
                k <= arguments@.len(),
                cases_match(r@, all_argument_cases(instruction_name@, arguments@.take(k as int))),
            decreases arguments@.len() - k,
        {
            proof {
                assert(arguments@.take(k + 1).drop_last() == arguments@.take(k as int));
                assert(arguments@.take(k + 1).last() == arguments@[k as int]);
            }
            let more = self.generate_argument_negative_cases(instruction_name, &arguments[k]);
            append_cases(&mut r, more, Ghost(all_argument_cases(instruction_name@, arguments@.take(k as int))),
                Ghost(argument_negative_cases(instruction_name@, arguments@[k as int])));
            k = k + 1;
        }
        assert(arguments@.take(arguments@.len() as int) =~= arguments@);
        if arguments.len() > 1 {
            let c = self.create_combined_negative_case(instruction_name, arguments);
            proof {
                lemma_cases_push(r@, all_argument_cases(instruction_name@, arguments@), c, combined_case(instruction_name@, arguments@));
            }
            r.push(c);
        } else {
            assert(all_argument_cases(instruction_name@, arguments@) + seq![] =~= all_argument_cases(instruction_name@, arguments@));
        }
        r
    }

    /// The baseline case: every argument takes its type's valid literal.
    pub fn create_basic_positive_case(&self, instruction_name: &String, arguments: &Vec<ArgumentInfo>) -> (r: TestCase)
        ensures
            case_matches(r, basic_case(instruction_name@, arguments@)),
    {
        let mut values: Vec<TestArgumentValue> = Vec::new();
        let ghost spec = basic_case(instruction_name@, arguments@);
        let mut k: usize = 0;
        while k < arguments.len()
            invariant
                spec == basic_case(instruction_name@, arguments@),
                k <= arguments@.len(),
                values@.len() == k,
                forall|m: int| 0 <= m < k ==> value_matches(#[trigger] values@[m], spec.values[m]),
            decreases arguments@.len() - k,
        {
            let t = &arguments[k].arg_type;
            let value = if is_unsigned_type(t) {
                text("1000")
            } else if is_signed_type(t) {
                text("500")
            } else if let ArgumentType::Bool = t {
                text("true")
            } else if let ArgumentType::String { .. } = t {
                text("\"test_value\"")
            } else if let ArgumentType::Pubkey = t {
                text("authority.publicKey")
            } else {
                text("/* valid value */")
            };
            values.push(
                TestArgumentValue { argument_name: arguments[k].name.clone(), value_type: TestValueType::Valid { description: value } },
            );
            k = k + 1;
        }
        let mut changes: Vec<String> = Vec::new();
        changes.push(text("Account state updated successfully"));
        changes.push(text("Instruction executed without errors"));
        proof {
            assert(names_of(changes@) =~= seq!["Account state updated successfully"@, "Instruction executed without errors"@]);
        }
        TestCase {
            test_type: TestCaseType::Positive,
            description: concat2(instruction_name.as_str(), " - valid inputs"),
            argument_values: values,
            expected_outcome: ExpectedOutcome::Success { state_changes: changes },
        }
    }

    /// The valid cases at each minimum and maximum of `argument`.
    pub fn generate_boundary_cases(&self, argument: &ArgumentInfo) -> (r: Vec<TestCase>)
        ensures
            cases_match(r@, boundary_cases(argument.name@, argument.constraints@)),
    {
        let mut r: Vec<TestCase> = Vec::new();
        let cs = &argument.constraints;
        let mut k: usize = 0;
        proof {
            assert(boundary_cases(argument.name@, cs@.take(0)) =~= seq![]);
        }
        while k < cs.len()
            invariant
                k <= cs@.len(),
                *cs == argument.constraints,
                cases_match(r@, boundary_cases(argument.name@, cs@.take(k as int))),
            decreases cs@.len() - k,
        {
            proof {
                assert(cs@.take(k + 1).drop_last() == cs@.take(k as int));
                assert(cs@.take(k + 1).last() == cs@[k as int]);
            }
            let found = match &cs[k] {
                ArgumentConstraint::Min { value } => Some((*value, true)),
                ArgumentConstraint::Max { value } => Some((*value, false)),
                _ => None,
            };
            if let Some((value, is_min)) = found {
                let mut values: Vec<TestArgumentValue> = Vec::new();
                values.push(
                    TestArgumentValue {
                        argument_name: argument.name.clone(),
                        value_type: TestValueType::Valid { description: decimal_text(value as i128) },
                    },
                );
                let mut changes: Vec<String> = Vec::new();
                changes.push(if is_min { text("Minimum value accepted") } else { text("Maximum value accepted") });
                let tc = TestCase {
                    test_type: TestCaseType::Positive,
                    description: if is_min {
                        concat2(argument.name.as_str(), " - minimum value")
                    } else {
                        concat2(argument.name.as_str(), " - maximum value")
                    },
                    argument_values: values,
                    expected_outcome: ExpectedOutcome::Success { state_changes: changes },
                };
                proof {
                    let c = boundary_case(argument.name@, cs@[k as int])->Some_0;
                    assert(names_of(changes@) =~= c.changes->Some_0);
                    assert(case_matches(tc, c));
                    lemma_cases_push(r@, boundary_cases(argument.name@, cs@.take(k as int)), tc, c);
                }
                r.push(tc);
            }
            k = k + 1;
        }
        assert(cs@.take(cs@.len() as int) =~= cs@);
        r
    }

    /// The valid cases of an instruction: the baseline, then the boundary
    /// cases of each argument in order.
    pub fn generate_positive_cases(&self, instruction_name: &String, arguments: &Vec<ArgumentInfo>) -> (r: Vec<TestCase>)
        ensures
            cases_match(r@, positive_cases_of(instruction_name@, arguments@)),
    {
        let mut r: Vec<TestCase> = Vec::new();
        let basic = self.create_basic_positive_case(instruction_name, arguments);
        proof {
            lemma_cases_push(r@, seq![], basic, basic_case(instruction_name@, arguments@));
            assert(seq![].push(basic_case(instruction_name@, arguments@)) =~= seq![basic_case(instruction_name@, arguments@)]);
            assert(seq![basic_case(instruction_name@, arguments@)] + all_boundary_cases(arguments@.take(0))
                =~= seq![basic_case(instruction_name@, arguments@)]);
        }
        r.push(basic);
        let mut k: usize = 0;
        while k < arguments.len()
            invariant
                k <= arguments@.len(),
                cases_match(r@, seq![basic_case(instruction_name@, arguments@)] + all_boundary_cases(arguments@.take(k as int))),
            decreases arguments@.len() - k,
        {
            proof {
                assert(arguments@.take(k + 1).drop_last() == arguments@.take(k as int));
                assert(arguments@.take(k + 1).last() == arguments@[k as int]);
            }
            let more = self.generate_boundary_cases(&arguments[k]);
            append_cases(&mut r, more,
                Ghost(seq![basic_case(instruction_name@, arguments@)] + all_boundary_cases(arguments@.take(k as int))),
                Ghost(boundary_cases(arguments@[k as int].name@, arguments@[k as int].constraints@)));
            proof {
                assert(seq![basic_case(instruction_name@, arguments@)] + all_boundary_cases(arguments@.take(k as int))
                    + boundary_cases(arguments@[k as int].name@, arguments@[k as int].constraints@)
                    =~= seq![basic_case(instruction_name@, arguments@)] + all_boundary_cases(arguments@.take(k + 1)));
            }
            k = k + 1;
        }
        assert(arguments@.take(arguments@.len() as int) =~= arguments@);
        r
    }
}

/// `t` is the test plan of instruction `ins`.
pub open spec fn instruction_cases_of(t: InstructionTestCases, ins: IdlInstruction) -> bool {
    &&& t.instruction_name@ == ins.name@
    &&& t.arguments@.len() == ins.args@.len()
    &&& forall|k: int| 0 <= k < ins.args@.len() ==> argument_of(#[trigger] t.arguments@[k], ins.args@[k])
    &&& cases_match(t.positive_cases@, positive_cases_of(ins.name@, t.arguments@))
    &&& cases_match(t.negative_cases@, negative_cases_of(ins.name@, t.arguments@))
}

/// `t` is the test plan of the first instruction named `name`.
pub open spec fn cases_for_entry(t: InstructionTestCases, instrs: Seq<IdlInstruction>, name: Seq<char>) -> bool {
    exists|k: int| #[trigger] named_first(instrs, name, k) && instruction_cases_of(t, instrs[k])
}

impl TestCaseGenerator {
    /// The argument type that a field's type name gives.
    pub fn parse_argument_type(&self, field: &IdlField) -> (r: ArgumentType)
        ensures
            type_named(r, field.field_type@),
    {
        let name = field.field_type.as_str();
        proof {
            reveal_strlit("u8");
            reveal_strlit("u16");
            reveal_strlit("u32");
            reveal_strlit("u64");
            reveal_strlit("u128");
            reveal_strlit("i8");
            reveal_strlit("i16");
            reveal_strlit("i32");
            reveal_strlit("i64");
            reveal_strlit("i128");
            reveal_strlit("bool");
            reveal_strlit("string");
            reveal_strlit("publicKey");
        }
        if str_eq(name, "u8") {
            ArgumentType::U8
        } else if str_eq(name, "u16") {
            ArgumentType::U16
        } else if str_eq(name, "u32") {
            ArgumentType::U32
        } else if str_eq(name, "u64") {
            ArgumentType::U64
        } else if str_eq(name, "u128") {
            ArgumentType::U128
        } else if str_eq(name, "i8") {
            ArgumentType::I8
        } else if str_eq(name, "i16") {
            ArgumentType::I16
        } else if str_eq(name, "i32") {
            ArgumentType::I32
        } else if str_eq(name, "i64") {
            ArgumentType::I64
        } else if str_eq(name, "i128") {
            ArgumentType::I128
        } else if str_eq(name, "bool") {
            ArgumentType::Bool
        } else if str_eq(name, "string") {
            ArgumentType::String { max_length: None }
        } else if str_eq(name, "publicKey") {
            ArgumentType::Pubkey
        } else {
            ArgumentType::Vec { inner_type: Box::new(ArgumentType::U8), max_length: None }
        }
    }

    /// The constraints that a field's type name gives.
    pub fn extract_constraints_from_docs(&self, field: &IdlField) -> (r: Vec<ArgumentConstraint>)
        ensures
            constraints_named(r@, field.field_type@),
    {
        let name = field.field_type.as_str();
        let mut r: Vec<ArgumentConstraint> = Vec::new();
        if str_eq(name, "u8") || str_eq(name, "u16") || str_eq(name, "u32") || str_eq(name, "u64") || str_eq(name, "u128")
            || str_eq(name, "i8") || str_eq(name, "i16") || str_eq(name, "i32") || str_eq(name, "i64") || str_eq(
            name,
            "i128",
        ) {
            r.push(ArgumentConstraint::Min { value: 0 });
            r.push(ArgumentConstraint::NonZero);
        } else if str_eq(name, "string") {
            r.push(ArgumentConstraint::MinLength { value: 1 });
            r.push(ArgumentConstraint::MaxLength { value: 100 });
        }
        r
    }

    /// The argument information of each field, in order.
    pub fn parse_arguments(&self, args: &Vec<IdlField>) -> (r: Vec<ArgumentInfo>)
        ensures
            r@.len() == args@.len(),
            forall|k: int| 0 <= k < args@.len() ==> argument_of(#[trigger] r@[k], args@[k]),
    {
        let mut r: Vec<ArgumentInfo> = Vec::new();
        let mut k: usize = 0;
        while k < args.len()
            invariant
                k <= args@.len(),
                r@.len() == k,
                forall|m: int| 0 <= m < k ==> argument_of(#[trigger] r@[m], args@[m]),
            decreases args@.len() - k,
        {
            let arg = &args[k];
            r.push(
                ArgumentInfo {
                    name: arg.name.clone(),
                    arg_type: self.parse_argument_type(arg),
                    constraints: self.extract_constraints_from_docs(arg),
                    is_optional: false,
                },
            );
            k = k + 1;
        }
        r
    }

    /// The test plan of one instruction: its arguments, its valid cases
    /// and its invalid cases.
    pub fn generate_instruction_test_cases(&self, instruction: &IdlInstruction) -> (r: InstructionTestCases)
        ensures
            instruction_cases_of(r, *instruction),
    {
        let arguments = self.parse_arguments(&instruction.args);
        let positive_cases = self.generate_positive_cases(&instruction.name, &arguments);
        let negative_cases = self.generate_negative_cases(&instruction.name, &arguments);
        InstructionTestCases {
            instruction_name: instruction.name.clone(),
            arguments,
            positive_cases,
            negative_cases,
        }
    }

    /// The test plan of each entry of the execution order, in order, each
    /// that of the first instruction of its name. Fails with
    /// `InvalidInstructionOrder` at the first entry that names no
    /// instruction.
    pub fn generate_test_cases(&self, idl_data: &IdlData, execution_order: &Vec<String>) -> (r: Result<
        Vec<InstructionTestCases>,
        SolifyError,
    >)
        ensures
            match r {
                Ok(v) => order_known(idl_data.instructions@, execution_order@) && v@.len() == execution_order@.len()
                    && forall|i: int|
                    0 <= i < v@.len() ==> #[trigger] cases_for_entry(v@[i], idl_data.instructions@, execution_order@[i]@),
                Err(SolifyError::InvalidInstructionOrder(name)) => missing_entry(
                    idl_data.instructions@,
                    execution_order@,
                    name@,
                ),
                Err(_) => false,
            },
    {
        let instrs = &idl_data.instructions;
        let mut all: Vec<InstructionTestCases> = Vec::new();
        let mut i: usize = 0;
        while i < execution_order.len()
            invariant
                instrs@ == idl_data.instructions@,
                i <= execution_order@.len(),
                all@.len() == i,
                forall|x: int| 0 <= x < i ==> has_instruction(instrs@, (#[trigger] execution_order@[x])@),
                forall|x: int| 0 <= x < i ==> #[trigger] cases_for_entry(all@[x], instrs@, execution_order@[x]@),
            decreases execution_order@.len() - i,
        {
            match crate::graph::instruction_index(instrs, &execution_order[i]) {
                None => {
                    let name = execution_order[i].clone();
                    proof {
                        assert(!has_instruction(instrs@, name@));
                        assert((execution_order@[i as int])@ == name@);
                        assert(missing_entry(instrs@, execution_order@, name@));
                    }
                    return Err(SolifyError::InvalidInstructionOrder(name));
                },
                Some(k) => {
                    let t = self.generate_instruction_test_cases(&instrs[k]);
                    let ghost old_all = all@;
                    all.push(t);
                    proof {
                        assert(has_instruction(instrs@, execution_order@[i as int]@));
                        assert forall|x: int| 0 <= x < i + 1 implies #[trigger] cases_for_entry(all@[x], instrs@, execution_order@[x]@) by {
                            if x < i {
                                assert(all@[x] == old_all[x]);
                            } else {
                                assert(named_first(instrs@, execution_order@[x]@, k as int));
                            }
                        }
                    }
                },
            }
            i = i + 1;
        }
        Ok(all)
    }
}

} // verus!
