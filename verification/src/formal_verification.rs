//! Fixed algebraic identities, put to the Z3 solver.
//!
//! The identities are those of the curve secp256k1: its group order `n`, the
//! scalar `lambda` of its endomorphism and its field prime `p`. Each
//! verification writes a query over bit vectors of 512 bits in the SMT-LIB
//! language, hands it to the solver and reads the answer. The width is
//! enough that no product of two numbers of 256 bits overflows.
//!
//! The queries go to the solver as text, because the term types of z3 cannot
//! be declared to Verus: their `Eq` rests on an impl bounded by a trait of
//! z3. As text, what is asked stands in the contracts word for word. A
//! solver that cannot read a query holds none of its formulas afterwards,
//! and the query is then reported as not taken.

use vstd::prelude::*;
use vstd::string::*;
use z3::{SatResult, Solver};
use crate::text::{decimal, decimal_string};

verus! {

/// Width of the bit vectors.
pub const BV_BITS: u32 = 512;

/// The group order of secp256k1.
pub const N_DEC: &'static str =
    "115792089237316195423570985008687907852837564279074904382605163141518161494337";

/// The scalar of the endomorphism of secp256k1.
pub const LAMBDA_DEC: &'static str =
    "37718080363155996902926221483475020450927657555482586988616620542887997980018";

/// The field prime of secp256k1.
pub const P_DEC: &'static str =
    "115792089237316195423570985008687907853269984665640564039457584007908834671663";

/// A solver of Z3. Nothing of it is visible here.
#[verifier::external_type_specification]
#[verifier::external_body]
pub struct ExSolver(Solver);

/// What the solver says of the formulas it holds.
#[derive(Clone, Copy, Debug, PartialEq, Eq, Structural)]
pub enum Satisfiability {
    /// No assignment satisfies them.
    Unsat,
    /// The solver gave up.
    Unknown,
    /// Some assignment satisfies them.
    Sat,
}

/// The outcome of one verification.
#[derive(Debug, Clone)]
pub struct VerificationResult {
    pub name: String,
    pub passed: bool,
    pub details: String,
}

/// Runs the verifications.
pub struct Z3Verifier;

/// No character of the text is the NUL character.
pub open spec fn no_nul(text: Seq<char>) -> bool {
    forall|i: int| 0 <= i < text.len() ==> text[i] != '\0'
}

/// None of the first `k` characters of the text is the NUL character.
pub open spec fn no_nul_below(text: Seq<char>, k: nat) -> bool
    decreases k,
{
    k == 0 || (text[k - 1] != '\0' && no_nul_below(text, (k - 1) as nat))
}

/// The numeral that `digits` write in decimal, as a bit vector of `BV_BITS`
/// bits: `(_ bv<digits> 512)`.
pub open spec fn numeral(digits: Seq<char>) -> Seq<char> {
    "(_ bv"@ + digits + " "@ + decimal(BV_BITS as nat) + ")"@
}

/// The application of the operator `op` to two terms: `(<op> <a> <b>)`.
pub open spec fn binary(op: Seq<char>, a: Seq<char>, b: Seq<char>) -> Seq<char> {
    "("@ + op + " "@ + a + " "@ + b + ")"@
}

/// The negation of a formula: `(not <a>)`.
pub open spec fn negation(a: Seq<char>) -> Seq<char> {
    "(not "@ + a + ")"@
}

/// The command that asserts a formula: `(assert <a>)` and a line break.
pub open spec fn assertion(a: Seq<char>) -> Seq<char> {
    "(assert "@ + a + ")\n"@
}

/// The command that declares the free bit vector `x`.
pub open spec fn declaration_of_x() -> Seq<char> {
    "(declare-const x (_ BitVec "@ + decimal(BV_BITS as nat) + "))\n"@
}

/// The term `x^2 + x + 1` reduced modulo `n`, with the square reduced
/// before the sum: `(bvurem (bvadd (bvadd (bvurem (bvmul x x) n) x) 1) n)`.
pub open spec fn lambda_polynomial(x: Seq<char>, n: Seq<char>) -> Seq<char> {
    let square = binary("bvurem"@, binary("bvmul"@, x, x), n);
    binary("bvurem"@, binary("bvadd"@, binary("bvadd"@, square, x), numeral(decimal(1))), n)
}

/// The query of the first verification: the polynomial of `lambda` is not
/// zero modulo `n`.
pub open spec fn lambda_polynomial_query() -> Seq<char> {
    assertion(
        negation(
            binary(
                "="@,
                lambda_polynomial(numeral(LAMBDA_DEC@), numeral(N_DEC@)),
                numeral(decimal(0)),
            ),
        ),
    )
}

/// The query of the second verification: some `x` below `n` and other than
/// zero is a root of the polynomial modulo `n` and equal to `lambda`.
pub open spec fn lambda_uniqueness_query() -> Seq<char> {
    let x = "x"@;
    let n = numeral(N_DEC@);
    let zero = numeral(decimal(0));
    declaration_of_x() + assertion(binary("bvult"@, x, n)) + assertion(
        negation(binary("="@, x, zero)),
    ) + assertion(binary("="@, lambda_polynomial(x, n), zero)) + assertion(
        binary("="@, x, numeral(LAMBDA_DEC@)),
    )
}

/// The query of the third verification: `p` is not 1 modulo 3, and
/// `27 * (7 * 7)` is zero.
pub open spec fn discriminant_query() -> Seq<char> {
    let seven = numeral(decimal(7));
    assertion(
        negation(
            binary(
                "="@,
                binary("bvurem"@, numeral(P_DEC@), numeral(decimal(3))),
                numeral(decimal(1)),
            ),
        ),
    ) + assertion(
        binary(
            "="@,
            binary("bvmul"@, numeral(decimal(27)), binary("bvmul"@, seven, seven)),
            numeral(decimal(0)),
        ),
    )
}

/// The name under which a verdict is reported.
pub open spec fn verdict_name(answer: Satisfiability) -> Seq<char> {
    match answer {
        Satisfiability::Unsat => "Unsat"@,
        Satisfiability::Unknown => "Unknown"@,
        Satisfiability::Sat => "Sat"@,
    }
}

/// The record of a verification that the solver answered: passed if the
/// answer is the expected one, and then with the details `confirmed`; else
/// with the answer and `refuted` as details.
pub open spec fn is_verdict_record(
    record: VerificationResult,
    name: Seq<char>,
    expected: Satisfiability,
    answer: Satisfiability,
    confirmed: Seq<char>,
    refuted: Seq<char>,
) -> bool {
    &&& record.name@ == name
    &&& record.passed == (answer == expected)
    &&& record.details@ == if answer == expected {
        confirmed
    } else {
        "Z3 resultado: "@ + verdict_name(answer) + refuted
    }
}

/// The record of a verification whose query the solver did not take.
pub open spec fn is_rejected_record(record: VerificationResult, name: Seq<char>) -> bool {
    &&& record.name@ == name
    &&& !record.passed
    &&& record.details@ == "Z3 no aceptó la consulta"@
}

/// The record of a verification after the solver was asked: that of the
/// answer, if the solver holds as many formulas as the query asserts; else
/// that of a query that the solver did not take.
pub open spec fn is_outcome_record(
    record: VerificationResult,
    name: Seq<char>,
    held: usize,
    assertions: usize,
    expected: Satisfiability,
    answer: Satisfiability,
    confirmed: Seq<char>,
    refuted: Seq<char>,
) -> bool {
    if held == assertions {
        is_verdict_record(record, name, expected, answer, confirmed, refuted)
    } else {
        is_rejected_record(record, name)
    }
}

/// The record is that of a query of `assertions` formulas that was put to
/// the solver: the record of `record_of_outcome` for some number of formulas
/// held and some answer.
pub open spec fn is_asked(
    record: VerificationResult,
    name: Seq<char>,
    assertions: usize,
    expected: Satisfiability,
    confirmed: Seq<char>,
    refuted: Seq<char>,
) -> bool {
    exists|held: usize, answer: Satisfiability|
        is_outcome_record(record, name, held, assertions, expected, answer, confirmed, refuted)
}

/// The record is one that `settle` can return for a verification of the
/// given name, expectation and details.
pub open spec fn is_settled(
    record: VerificationResult,
    name: Seq<char>,
    expected: Satisfiability,
    confirmed: Seq<char>,
    refuted: Seq<char>,
) -> bool {
    is_rejected_record(record, name) || exists|answer: Satisfiability|
        is_verdict_record(record, name, expected, answer, confirmed, refuted)
}

/// A text of which none of the first `k` characters is the NUL character,
/// and which has `k` characters, holds no NUL character.
pub proof fn lemma_no_nul_below(text: Seq<char>, k: nat)
    requires
        no_nul_below(text, k),
    ensures
        forall|i: int| 0 <= i < k ==> text[i] != '\0',
        k == text.len() ==> no_nul(text),
    decreases k,
{
    if k > 0 {
        lemma_no_nul_below(text, (k - 1) as nat);
    }
}

/// Two texts that hold no NUL character hold none when joined.
pub proof fn lemma_no_nul_joined(a: Seq<char>, b: Seq<char>)
    requires
        no_nul(a),
        no_nul(b),
    ensures
        no_nul(a + b),
{
    assert forall|i: int| 0 <= i < (a + b).len() implies (a + b)[i] != '\0' by {
        if i < a.len() {
            assert((a + b)[i] == a[i]);
        } else {
            assert((a + b)[i] == b[i - a.len()]);
        }
    }
}

/// A number in decimal holds no NUL character.
pub proof fn lemma_decimal_no_nul(v: nat)
    ensures
        no_nul(decimal(v)),
    decreases v,
{
    if v >= 10 {
        lemma_decimal_no_nul(v / 10);
    }
}

/// The three constants hold no NUL character.
pub proof fn lemma_constants_no_nul()
    ensures
        no_nul(N_DEC@),
        no_nul(LAMBDA_DEC@),
        no_nul(P_DEC@),
{
    reveal_strlit("115792089237316195423570985008687907852837564279074904382605163141518161494337");
    reveal_strlit("37718080363155996902926221483475020450927657555482586988616620542887997980018");
    reveal_strlit("115792089237316195423570985008687907853269984665640564039457584007908834671663");
    reveal_with_fuel(no_nul_below, 80);
    assert(no_nul_below(N_DEC@, 78));
    assert(no_nul_below(LAMBDA_DEC@, 77));
    assert(no_nul_below(P_DEC@, 78));
    lemma_no_nul_below(N_DEC@, 78);
    lemma_no_nul_below(LAMBDA_DEC@, 77);
    lemma_no_nul_below(P_DEC@, 78);
}

/// The words of the query language that the queries are made of hold no NUL
/// character.
proof fn lemma_words_no_nul()
    ensures
        no_nul("(_ bv"@),
        no_nul(" "@),
        no_nul(")"@),
        no_nul("("@),
        no_nul("(not "@),
        no_nul("(assert "@),
        no_nul(")\n"@),
        no_nul("(declare-const x (_ BitVec "@),
        no_nul("))\n"@),
        no_nul("x"@),
        no_nul("="@),
        no_nul("bvurem"@),
        no_nul("bvadd"@),
        no_nul("bvmul"@),
        no_nul("bvult"@),
{
    reveal_strlit("(_ bv");
    reveal_strlit(" ");
    reveal_strlit(")");
    reveal_strlit("(");
    reveal_strlit("(not ");
    reveal_strlit("(assert ");
    reveal_strlit(")\n");
    reveal_strlit("(declare-const x (_ BitVec ");
    reveal_strlit("))\n");
    reveal_strlit("x");
    reveal_strlit("=");
    reveal_strlit("bvurem");
    reveal_strlit("bvadd");
    reveal_strlit("bvmul");
    reveal_strlit("bvult");
    reveal_with_fuel(no_nul_below, 30);
    lemma_no_nul_below("(_ bv"@, 5);
    lemma_no_nul_below(" "@, 1);
    lemma_no_nul_below(")"@, 1);
    lemma_no_nul_below("("@, 1);
    lemma_no_nul_below("(not "@, 5);
    lemma_no_nul_below("(assert "@, 8);
    lemma_no_nul_below(")\n"@, 2);
    lemma_no_nul_below("(declare-const x (_ BitVec "@, 27);
    lemma_no_nul_below("))\n"@, 3);
    lemma_no_nul_below("x"@, 1);
    lemma_no_nul_below("="@, 1);
    lemma_no_nul_below("bvurem"@, 6);
    lemma_no_nul_below("bvadd"@, 5);
    lemma_no_nul_below("bvmul"@, 5);
    lemma_no_nul_below("bvult"@, 5);
}

/// A numeral holds no NUL character if its digits hold none.
pub proof fn lemma_numeral_no_nul(digits: Seq<char>)
    requires
        no_nul(digits),
    ensures
        no_nul(numeral(digits)),
{
    lemma_words_no_nul();
    lemma_decimal_no_nul(BV_BITS as nat);
    lemma_no_nul_joined("(_ bv"@, digits);
    lemma_no_nul_joined("(_ bv"@ + digits, " "@);
    lemma_no_nul_joined("(_ bv"@ + digits + " "@, decimal(BV_BITS as nat));
    lemma_no_nul_joined("(_ bv"@ + digits + " "@ + decimal(BV_BITS as nat), ")"@);
}

/// An application holds no NUL character if its parts hold none.
pub proof fn lemma_binary_no_nul(op: Seq<char>, a: Seq<char>, b: Seq<char>)
    requires
        no_nul(op),
        no_nul(a),
        no_nul(b),
    ensures
        no_nul(binary(op, a, b)),
{
    lemma_words_no_nul();
    lemma_no_nul_joined("("@, op);
    lemma_no_nul_joined("("@ + op, " "@);
    lemma_no_nul_joined("("@ + op + " "@, a);
    lemma_no_nul_joined("("@ + op + " "@ + a, " "@);
    lemma_no_nul_joined("("@ + op + " "@ + a + " "@, b);
    lemma_no_nul_joined("("@ + op + " "@ + a + " "@ + b, ")"@);
}

/// A negation, and the command that asserts a formula, hold no NUL character
/// if the formula holds none.
pub proof fn lemma_assertion_no_nul(a: Seq<char>)
    requires
        no_nul(a),
    ensures
        no_nul(negation(a)),
        no_nul(assertion(a)),
{
    lemma_words_no_nul();
    lemma_no_nul_joined("(not "@, a);
    lemma_no_nul_joined("(not "@ + a, ")"@);
    lemma_no_nul_joined("(assert "@, a);
    lemma_no_nul_joined("(assert "@ + a, ")\n"@);
}

/// The term of the polynomial holds no NUL character if its parts hold
/// none.
pub proof fn lemma_lambda_polynomial_no_nul(x: Seq<char>, n: Seq<char>)
    requires
        no_nul(x),
        no_nul(n),
    ensures
        no_nul(lambda_polynomial(x, n)),
{
    lemma_words_no_nul();
    lemma_decimal_no_nul(1);
    lemma_numeral_no_nul(decimal(1));
    let product = binary("bvmul"@, x, x);
    lemma_binary_no_nul("bvmul"@, x, x);
    let square = binary("bvurem"@, product, n);
    lemma_binary_no_nul("bvurem"@, product, n);
    let partial = binary("bvadd"@, square, x);
    lemma_binary_no_nul("bvadd"@, square, x);
    let sum = binary("bvadd"@, partial, numeral(decimal(1)));
    lemma_binary_no_nul("bvadd"@, partial, numeral(decimal(1)));
    lemma_binary_no_nul("bvurem"@, sum, n);
}

/// None of the three queries holds a NUL character: the solver is asked
/// each of them.
pub proof fn lemma_queries_hold_no_nul()
    ensures
        no_nul(lambda_polynomial_query()),
        no_nul(lambda_uniqueness_query()),
        no_nul(discriminant_query()),
{
    lemma_words_no_nul();
    lemma_constants_no_nul();
    let n = numeral(N_DEC@);
    let lambda = numeral(LAMBDA_DEC@);
    let p = numeral(P_DEC@);
    let zero = numeral(decimal(0));
    let one = numeral(decimal(1));
    let three = numeral(decimal(3));
    let seven = numeral(decimal(7));
    let twenty_seven = numeral(decimal(27));
    lemma_numeral_no_nul(N_DEC@);
    lemma_numeral_no_nul(LAMBDA_DEC@);
    lemma_numeral_no_nul(P_DEC@);
    lemma_decimal_no_nul(0);
    lemma_decimal_no_nul(1);
    lemma_decimal_no_nul(3);
    lemma_decimal_no_nul(7);
    lemma_decimal_no_nul(27);
    lemma_numeral_no_nul(decimal(0));
    lemma_numeral_no_nul(decimal(1));
    lemma_numeral_no_nul(decimal(3));
    lemma_numeral_no_nul(decimal(7));
    lemma_numeral_no_nul(decimal(27));
    // the polynomial of lambda
    lemma_lambda_polynomial_no_nul(lambda, n);
    lemma_binary_no_nul("="@, lambda_polynomial(lambda, n), zero);
    lemma_assertion_no_nul(binary("="@, lambda_polynomial(lambda, n), zero));
    lemma_assertion_no_nul(negation(binary("="@, lambda_polynomial(lambda, n), zero)));
    // lambda as a root
    let x = "x"@;
    lemma_decimal_no_nul(BV_BITS as nat);
    lemma_no_nul_joined("(declare-const x (_ BitVec "@, decimal(BV_BITS as nat));
    lemma_no_nul_joined("(declare-const x (_ BitVec "@ + decimal(BV_BITS as nat), "))\n"@);
    let first = assertion(binary("bvult"@, x, n));
    lemma_binary_no_nul("bvult"@, x, n);
    lemma_assertion_no_nul(binary("bvult"@, x, n));
    let second = assertion(negation(binary("="@, x, zero)));
    lemma_binary_no_nul("="@, x, zero);
    lemma_assertion_no_nul(binary("="@, x, zero));
    lemma_assertion_no_nul(negation(binary("="@, x, zero)));
    let third = assertion(binary("="@, lambda_polynomial(x, n), zero));
    lemma_lambda_polynomial_no_nul(x, n);
    lemma_binary_no_nul("="@, lambda_polynomial(x, n), zero);
    lemma_assertion_no_nul(binary("="@, lambda_polynomial(x, n), zero));
    let fourth = assertion(binary("="@, x, lambda));
    lemma_binary_no_nul("="@, x, lambda);
    lemma_assertion_no_nul(binary("="@, x, lambda));
    lemma_no_nul_joined(declaration_of_x(), first);
    lemma_no_nul_joined(declaration_of_x() + first, second);
    lemma_no_nul_joined(declaration_of_x() + first + second, third);
    lemma_no_nul_joined(declaration_of_x() + first + second + third, fourth);
    // the discriminant
    let remainder = binary("bvurem"@, p, three);
    lemma_binary_no_nul("bvurem"@, p, three);
    lemma_binary_no_nul("="@, remainder, one);
    lemma_assertion_no_nul(binary("="@, remainder, one));
    lemma_assertion_no_nul(negation(binary("="@, remainder, one)));
    let square = binary("bvmul"@, seven, seven);
    lemma_binary_no_nul("bvmul"@, seven, seven);
    let factor = binary("bvmul"@, twenty_seven, square);
    lemma_binary_no_nul("bvmul"@, twenty_seven, square);
    lemma_binary_no_nul("="@, factor, zero);
    lemma_assertion_no_nul(binary("="@, factor, zero));
    lemma_no_nul_joined(
        assertion(negation(binary("="@, remainder, one))),
        assertion(binary("="@, factor, zero)),
    );
}

/// `Solver::new` of z3: a solver that holds no formula.
#[verifier::external_body]
fn solver_new() -> Solver {
    Solver::new()
}

/// `Solver::from_string` of z3: the solver parses the text as commands of
/// SMT-LIB and takes the formulas they assert among those it holds. The call
/// panics on a NUL character in the text.
#[verifier::external_body]
fn solver_from_string(solver: &Solver, script: &str)
    requires
        no_nul(script@),
{
    solver.from_string(script)
}

/// `Solver::get_assertions` of z3, of which the length is taken: how many
/// formulas the solver holds.
#[verifier::external_body]
fn solver_assertion_count(solver: &Solver) -> usize {
    solver.get_assertions().len()
}

/// `Solver::check` of z3: what the solver says of the formulas it holds.
/// Nothing is claimed of the answer.
#[verifier::external_body]
fn solver_check(solver: &Solver) -> Satisfiability {
    match solver.check() {
        SatResult::Unsat => Satisfiability::Unsat,
        SatResult::Unknown => Satisfiability::Unknown,
        SatResult::Sat => Satisfiability::Sat,
    }
}

/// Whether no character of the text is the NUL character.
pub fn has_no_nul(text: &str) -> (r: bool)
    ensures
        r == no_nul(text@),
{
    let len = text.unicode_len();
    let mut i: usize = 0;
    while i < len
        invariant
            len == text@.len(),
            i <= len,
            forall|w: int| 0 <= w < i ==> text@[w] != '\0',
        decreases len - i,
    {
        if text.get_char(i) == '\0' {
            return false;
        }
        i = i + 1;
    }
    true
}

/// The numeral that `digits` write in decimal, as a bit vector.
pub fn numeral_text(digits: &str) -> (r: String)
    ensures
        r@ == numeral(digits@),
{
    let width = decimal_string(BV_BITS as u64);
    String::from_str("(_ bv").concat(digits).concat(" ").concat(width.as_str()).concat(")")
}

/// A small number as a bit vector.
pub fn small_numeral_text(value: u64) -> (r: String)
    ensures
        r@ == numeral(decimal(value as nat)),
{
    let digits = decimal_string(value);
    numeral_text(digits.as_str())
}

/// The application of the operator `op` to two terms.
pub fn binary_text(op: &str, a: &str, b: &str) -> (r: String)
    ensures
        r@ == binary(op@, a@, b@),
{
    String::from_str("(").concat(op).concat(" ").concat(a).concat(" ").concat(b).concat(")")
}

/// The negation of a formula.
pub fn negation_text(a: &str) -> (r: String)
    ensures
        r@ == negation(a@),
{
    String::from_str("(not ").concat(a).concat(")")
}

/// The command that asserts a formula.
pub fn assertion_text(a: &str) -> (r: String)
    ensures
        r@ == assertion(a@),
{
    String::from_str("(assert ").concat(a).concat(")\n")
}

/// The term `x^2 + x + 1` reduced modulo `n`.
pub fn lambda_polynomial_text(x: &str, n: &str) -> (r: String)
    ensures
        r@ == lambda_polynomial(x@, n@),
{
    let product = binary_text("bvmul", x, x);
    let square = binary_text("bvurem", product.as_str(), n);
    let partial = binary_text("bvadd", square.as_str(), x);
    let one = small_numeral_text(1);
    let sum = binary_text("bvadd", partial.as_str(), one.as_str());
    binary_text("bvurem", sum.as_str(), n)
}

/// The query of the first verification.
pub fn lambda_polynomial_script() -> (r: String)
    ensures
        r@ == lambda_polynomial_query(),
{
    let n = numeral_text(N_DEC);
    let lambda = numeral_text(LAMBDA_DEC);
    let zero = small_numeral_text(0);
    let sum = lambda_polynomial_text(lambda.as_str(), n.as_str());
    let is_zero = binary_text("=", sum.as_str(), zero.as_str());
    let differs = negation_text(is_zero.as_str());
    assertion_text(differs.as_str())
}

/// The query of the second verification.
pub fn lambda_uniqueness_script() -> (r: String)
    ensures
        r@ == lambda_uniqueness_query(),
{
    let n = numeral_text(N_DEC);
    let known_lambda = numeral_text(LAMBDA_DEC);
    let zero = small_numeral_text(0);
    let width = decimal_string(BV_BITS as u64);
    let declaration = String::from_str("(declare-const x (_ BitVec ").concat(
        width.as_str(),
    ).concat("))\n");
    let below = binary_text("bvult", "x", n.as_str());
    let is_zero = binary_text("=", "x", zero.as_str());
    let not_zero = negation_text(is_zero.as_str());
    let poly = lambda_polynomial_text("x", n.as_str());
    let is_root = binary_text("=", poly.as_str(), zero.as_str());
    let is_lambda = binary_text("=", "x", known_lambda.as_str());
    let first = assertion_text(below.as_str());
    let second = assertion_text(not_zero.as_str());
    let third = assertion_text(is_root.as_str());
    let fourth = assertion_text(is_lambda.as_str());
    declaration.concat(first.as_str()).concat(second.as_str()).concat(third.as_str()).concat(
        fourth.as_str(),
    )
}

/// The query of the third verification.
pub fn discriminant_script() -> (r: String)
    ensures
        r@ == discriminant_query(),
{
    let p = numeral_text(P_DEC);
    let three = small_numeral_text(3);
    let one = small_numeral_text(1);
    let zero = small_numeral_text(0);
    let seven = small_numeral_text(7);
    let twenty_seven = small_numeral_text(27);
    let p_mod_3 = binary_text("bvurem", p.as_str(), three.as_str());
    let is_one = binary_text("=", p_mod_3.as_str(), one.as_str());
    let not_one = negation_text(is_one.as_str());
    let b_sq = binary_text("bvmul", seven.as_str(), seven.as_str());
    let disc_factor = binary_text("bvmul", twenty_seven.as_str(), b_sq.as_str());
    let vanishes = binary_text("=", disc_factor.as_str(), zero.as_str());
    let first = assertion_text(not_one.as_str());
    let second = assertion_text(vanishes.as_str());
    first.concat(second.as_str())
}

/// The name under which a verdict is reported.
pub fn verdict_text(answer: Satisfiability) -> (r: &'static str)
    ensures
        r@ == verdict_name(answer),
{
    match answer {
        Satisfiability::Unsat => "Unsat",
        Satisfiability::Unknown => "Unknown",
        Satisfiability::Sat => "Sat",
    }
}

/// The record of a verification that the solver answered.
pub fn verdict_record(
    name: &str,
    expected: Satisfiability,
    answer: Satisfiability,
    confirmed: &str,
    refuted: &str,
) -> (r: VerificationResult)
    ensures
        is_verdict_record(r, name@, expected, answer, confirmed@, refuted@),
{
    let passed = answer == expected;
    let details = if passed {
        String::from_str(confirmed)
    } else {
        String::from_str("Z3 resultado: ").concat(verdict_text(answer)).concat(refuted)
    };
    VerificationResult { name: String::from_str(name), passed, details }
}

/// The record of a verification whose query the solver did not take.
pub fn rejected_record(name: &str) -> (r: VerificationResult)
    ensures
        is_rejected_record(r, name@),
{
    VerificationResult {
        name: String::from_str(name),
        passed: false,
        details: String::from_str("Z3 no aceptó la consulta"),
    }
}

/// The record of a verification after the solver was asked: `held` is the
/// number of formulas that the solver holds after it read the query, and
/// `answer` what it says of them. A solver that does not hold as many
/// formulas as the query asserts did not take the query.
pub fn record_of_outcome(
    name: &str,
    held: usize,
    assertions: usize,
    expected: Satisfiability,
    answer: Satisfiability,
    confirmed: &str,
    refuted: &str,
) -> (r: VerificationResult)
    ensures
        is_outcome_record(r, name@, held, assertions, expected, answer, confirmed@, refuted@),
        held != assertions ==> is_rejected_record(r, name@),
        held == assertions ==> is_verdict_record(
            r,
            name@,
            expected,
            answer,
            confirmed@,
            refuted@,
        ),
{
    if held != assertions {
        rejected_record(name)
    } else {
        verdict_record(name, expected, answer, confirmed, refuted)
    }
}

/// Puts a query of `assertions` formulas to a fresh solver and reports what
/// it says.
///
/// A query that holds a NUL character is rejected without a solver. Any
/// other is read by a fresh solver, and the record is that of
/// `record_of_outcome` for the number of formulas that the solver holds
/// then and for what it says of them.
pub fn settle(
    name: &str,
    script: &str,
    assertions: usize,
    expected: Satisfiability,
    confirmed: &str,
    refuted: &str,
) -> (r: VerificationResult)
    ensures
        !no_nul(script@) ==> is_rejected_record(r, name@),
        no_nul(script@) ==> is_asked(r, name@, assertions, expected, confirmed@, refuted@),
        is_settled(r, name@, expected, confirmed@, refuted@),
{
    if !has_no_nul(script) {
        return rejected_record(name);
    }
    let solver = solver_new();
    solver_from_string(&solver, script);
    let held = solver_assertion_count(&solver);
    let answer = solver_check(&solver);
    let r = record_of_outcome(name, held, assertions, expected, answer, confirmed, refuted);
    proof {
        assert(is_outcome_record(
            r,
            name@,
            held,
            assertions,
            expected,
            answer,
            confirmed@,
            refuted@,
        ));
        if held == assertions {
            assert(is_verdict_record(r, name@, expected, answer, confirmed@, refuted@));
        }
    }
    r
}

impl Z3Verifier {
    pub fn new() -> (r: Self)
        ensures
            r == Z3Verifier,
    {
        Z3Verifier
    }

    /// The three verifications, in the order: the polynomial of `lambda`,
    /// `lambda` as a root below `n`, the discriminant.
    pub fn run_all_verifications(&self) -> (r: Vec<VerificationResult>)
        ensures
            r@.len() == 3,
            is_asked(
                r@[0],
                "Polinomio característico λ (Z3/SMT)"@,
                1,
                Satisfiability::Unsat,
                "Z3 confirma: λ² + λ + 1 ≡ 0 (mod n) [UNSAT ⇒ válido]"@,
                " — propiedad NO verificada"@,
            ),
            is_settled(
                r@[0],
                "Polinomio característico λ (Z3/SMT)"@,
                Satisfiability::Unsat,
                "Z3 confirma: λ² + λ + 1 ≡ 0 (mod n) [UNSAT ⇒ válido]"@,
                " — propiedad NO verificada"@,
            ),
            is_asked(
                r@[1],
                "Unicidad de λ (Z3/SMT)"@,
                4,
                Satisfiability::Sat,
                "Z3 confirma: ∃x = λ tal que x²+x+1 ≡ 0 (mod n) [SAT ⇒ válido]"@,
                " — λ no satisface el polinomio"@,
            ),
            is_settled(
                r@[1],
                "Unicidad de λ (Z3/SMT)"@,
                Satisfiability::Sat,
                "Z3 confirma: ∃x = λ tal que x²+x+1 ≡ 0 (mod n) [SAT ⇒ válido]"@,
                " — λ no satisface el polinomio"@,
            ),
            is_asked(
                r@[2],
                "Discriminante D=-3 (Z3/SMT)"@,
                2,
                Satisfiability::Unsat,
                "Z3 confirma: p ≡ 1 (mod 3) ∧ Δ ≠ 0 [UNSAT ⇒ válido]"@,
                " — propiedad NO verificada"@,
            ),
            is_settled(
                r@[2],
                "Discriminante D=-3 (Z3/SMT)"@,
                Satisfiability::Unsat,
                "Z3 confirma: p ≡ 1 (mod 3) ∧ Δ ≠ 0 [UNSAT ⇒ válido]"@,
                " — propiedad NO verificada"@,
            ),
    {
        let first = self.verify_lambda_polynomial();
        let second = self.verify_lambda_uniqueness();
        let third = self.verify_discriminant();
        vec![first, second, third]
    }

    /// Verifies that `lambda^2 + lambda + 1` is zero modulo `n`: the solver is
    /// asked whether the sum can differ from zero, and the record passes if it
    /// answers that it cannot.
    pub fn verify_lambda_polynomial(&self) -> (r: VerificationResult)
        ensures
            is_asked(
                r,
                "Polinomio característico λ (Z3/SMT)"@,
                1,
                Satisfiability::Unsat,
                "Z3 confirma: λ² + λ + 1 ≡ 0 (mod n) [UNSAT ⇒ válido]"@,
                " — propiedad NO verificada"@,
            ),
            is_settled(
                r,
                "Polinomio característico λ (Z3/SMT)"@,
                Satisfiability::Unsat,
                "Z3 confirma: λ² + λ + 1 ≡ 0 (mod n) [UNSAT ⇒ válido]"@,
                " — propiedad NO verificada"@,
            ),
    {
        let script = lambda_polynomial_script();
        proof {
            lemma_queries_hold_no_nul();
        }
        settle(
            "Polinomio característico λ (Z3/SMT)",
            script.as_str(),
            1,
            Satisfiability::Unsat,
            "Z3 confirma: λ² + λ + 1 ≡ 0 (mod n) [UNSAT ⇒ válido]",
            " — propiedad NO verificada",
        )
    }

    /// Verifies that the known `lambda` is a root of `x^2 + x + 1` modulo `n`
    /// that lies above zero and below `n`: the solver is asked for such a
    /// root equal to `lambda`, and the record passes if it finds one.
    pub fn verify_lambda_uniqueness(&self) -> (r: VerificationResult)
        ensures
            is_asked(
                r,
                "Unicidad de λ (Z3/SMT)"@,
                4,
                Satisfiability::Sat,
                "Z3 confirma: ∃x = λ tal que x²+x+1 ≡ 0 (mod n) [SAT ⇒ válido]"@,
                " — λ no satisface el polinomio"@,
            ),
            is_settled(
                r,
                "Unicidad de λ (Z3/SMT)"@,
                Satisfiability::Sat,
                "Z3 confirma: ∃x = λ tal que x²+x+1 ≡ 0 (mod n) [SAT ⇒ válido]"@,
                " — λ no satisface el polinomio"@,
            ),
    {
        let script = lambda_uniqueness_script();
        proof {
            lemma_queries_hold_no_nul();
        }
        settle(
            "Unicidad de λ (Z3/SMT)",
            script.as_str(),
            4,
            Satisfiability::Sat,
            "Z3 confirma: ∃x = λ tal que x²+x+1 ≡ 0 (mod n) [SAT ⇒ válido]",
            " — λ no satisface el polinomio",
        )
    }

    /// Verifies what the discriminant -3 rests on: that `p` is 1 modulo 3, and
    /// that `27 * b^2` with `b = 7` is not zero. The solver is asked whether
    /// the first can fail while the second does, and the record passes if it
    /// answers that this cannot be.
    pub fn verify_discriminant(&self) -> (r: VerificationResult)
        ensures
            is_asked(
                r,
                "Discriminante D=-3 (Z3/SMT)"@,
                2,
                Satisfiability::Unsat,
                "Z3 confirma: p ≡ 1 (mod 3) ∧ Δ ≠ 0 [UNSAT ⇒ válido]"@,
                " — propiedad NO verificada"@,
            ),
            is_settled(
                r,
                "Discriminante D=-3 (Z3/SMT)"@,
                Satisfiability::Unsat,
                "Z3 confirma: p ≡ 1 (mod 3) ∧ Δ ≠ 0 [UNSAT ⇒ válido]"@,
                " — propiedad NO verificada"@,
            ),
    {
        let script = discriminant_script();
        proof {
            lemma_queries_hold_no_nul();
        }
        settle(
            "Discriminante D=-3 (Z3/SMT)",
            script.as_str(),
            2,
            Satisfiability::Unsat,
            "Z3 confirma: p ≡ 1 (mod 3) ∧ Δ ≠ 0 [UNSAT ⇒ válido]",
            " — propiedad NO verificada",
        )
    }
}

impl Default for Z3Verifier {
    fn default() -> (r: Self)
        ensures
            r == Z3Verifier,
    {
        Z3Verifier::new()
    }
}

} // verus!
