//! What formulas mean: the functions, the operators and the references of the language.

use crate::double::{at_most, difference, of_int, product, quotient, sum, Double};
use crate::evaluate::{
    addition, addition_rest, arguments, choice, evaluated, expr, factor, formula, relation,
    relation_rest, term, term_rest, CountsModel, Env, Spot,
};
use crate::formula::{tokens, Op, Token};
use crate::table::found;
use crate::text::lowered;
use vstd::prelude::*;

verus! {

/// A number that can be compared.
pub open spec fn is_number(x: Double) -> bool {
    !x.is_nan()
}

/// A call with two arguments, evaluated: its name stands at `at`, the arguments evaluate to
/// `a` and `b`, and `here` is the closing bracket.
pub open spec fn calls_two(
    env: Env,
    toks: Seq<Token>,
    at: Spot,
    name: Seq<char>,
    a: Double,
    b: Double,
    here: Spot,
) -> bool {
    &&& at.is_word(toks, name)
    &&& at.step().is_op(toks, Op::Open)
    &&& !at.step().step().is_op(toks, Op::Close)
    &&& arguments(env, toks, at.step().step()) == Some((seq![a, b], here))
    &&& here.is_op(toks, Op::Close)
}

proof fn lemma_function_names()
    ensures
        "d_ratio"@ != "min"@,
        "d_ratio"@ != "max"@,
        "d_ratio"@ != "if"@,
        "min"@ != "max"@,
        "min"@ != "if"@,
        "max"@ != "if"@,
{
    reveal_strlit("d_ratio");
    reveal_strlit("min");
    reveal_strlit("max");
    reveal_strlit("if");
    assert("d_ratio"@.len() == 7 && "min"@.len() == 3 && "max"@.len() == 3 && "if"@.len() == 2);
    assert("min"@[1] != "max"@[1]);
}

/// The `max` of two numbers in a formula is one of them, and at least each of them.
pub proof fn law_max_is_the_larger(
    env: Env,
    toks: Seq<Token>,
    at: Spot,
    a: Double,
    b: Double,
    here: Spot,
)
    requires
        calls_two(env, toks, at, "max"@, a, b, here),
        is_number(a),
        is_number(b),
    ensures
        factor(env, toks, at) matches Some((v, end)) && end == here.step() && (v == a || v == b)
            && at_most(a, v) && at_most(b, v),
{
    lemma_function_names();
}

/// The `min` of two numbers in a formula is one of them, and at most each of them.
pub proof fn law_min_is_the_smaller(
    env: Env,
    toks: Seq<Token>,
    at: Spot,
    a: Double,
    b: Double,
    here: Spot,
)
    requires
        calls_two(env, toks, at, "min"@, a, b, here),
        is_number(a),
        is_number(b),
    ensures
        factor(env, toks, at) matches Some((v, end)) && end == here.step() && (v == a || v == b)
            && at_most(v, a) && at_most(v, b),
{
    lemma_function_names();
}

/// `d_ratio` divides its first argument by its second; over zero it is zero.
pub proof fn law_d_ratio_divides(
    env: Env,
    toks: Seq<Token>,
    at: Spot,
    a: Double,
    b: Double,
    here: Spot,
)
    requires
        calls_two(env, toks, at, "d_ratio"@, a, b, here),
    ensures
        factor(env, toks, at) matches Some((v, end)) && end == here.step() && v == if !b.is_nan()
            && b.num() == 0 {
            of_int(0)
        } else {
            quotient(a, b)
        },
{
    lemma_function_names();
}

/// `if` with three arguments is its second where the first is not zero, else its third.
pub proof fn law_if_chooses(
    env: Env,
    toks: Seq<Token>,
    at: Spot,
    c: Double,
    a: Double,
    b: Double,
    here: Spot,
)
    requires
        at.is_word(toks, "if"@),
        at.step().is_op(toks, Op::Open),
        !at.step().step().is_op(toks, Op::Close),
        arguments(env, toks, at.step().step()) == Some((seq![c, a, b], here)),
        here.is_op(toks, Op::Close),
    ensures
        factor(env, toks, at) matches Some((v, end)) && end == here.step() && (c.num() != 0 ==> v
            == a) && (!c.is_nan() && c.num() == 0 ==> v == b),
{
    lemma_function_names();
}

/// Where a whole formula starts.
pub open spec fn beginning() -> Spot {
    Spot { pos: 0, depth: 1, asked: Seq::empty() }
}

/// The value of tokens that are a formula as a whole.
pub open spec fn value_of(env: Env, toks: Seq<Token>) -> Option<Double> {
    match expr(env, toks, beginning()) {
        Some((v, end)) => if end.pos == toks.len() && beginning().before(end) {
            Some(v)
        } else {
            None
        },
        None => None,
    }
}

/// A metric's value is that of its formula, whatever the case of the name it is asked by; a
/// name without a formula, and a formula that is no expression, has none.
pub proof fn law_a_metric_is_its_formula(env: Env, name: Seq<char>)
    ensures
        ({
            let value = match evaluated(env, name) {
                Some((v, asked)) => Some(v),
                None => None,
            };
            value == match found(env.metrics, lowered(name)) {
                Some(text) => match tokens(text) {
                    Some(toks) => value_of(env, toks),
                    None => None,
                },
                None => None,
            }
        }),
{
}

// ------------------------------------------------------------------ operands

/// A number stands here.
spec fn number_at(toks: Seq<Token>, at: Spot, x: Double) -> bool {
    at.pos < toks.len() && toks[at.pos as int] == Token::Num(x)
}

spec fn factor_op(toks: Seq<Token>, at: Spot) -> bool {
    at.is_op(toks, Op::Mul) || at.is_op(toks, Op::Div)
}

spec fn term_op(toks: Seq<Token>, at: Spot) -> bool {
    at.is_op(toks, Op::Add) || at.is_op(toks, Op::Sub)
}

/// Division as formulas have it: by zero it is zero.
pub open spec fn ratio_read(a: Double, b: Double) -> Double {
    if !b.is_nan() && b.num() == 0 {
        of_int(0)
    } else {
        quotient(a, b)
    }
}

proof fn lemma_end_of_term(env: Env, toks: Seq<Token>, v: Double, at: Spot)
    requires
        !factor_op(toks, at),
    ensures
        term_rest(env, toks, v, at) == Some((v, at)),
{
}

/// One factor more.
proof fn lemma_next_factor(env: Env, toks: Seq<Token>, v: Double, at: Spot, x: Double, next: Spot)
    requires
        factor_op(toks, at),
        factor(env, toks, at.step()) == Some((x, next)),
        at.step().before(next),
    ensures
        at.is_op(toks, Op::Mul) ==> term_rest(env, toks, v, at) == term_rest(
            env,
            toks,
            product(v, x),
            next,
        ),
        at.is_op(toks, Op::Div) ==> term_rest(env, toks, v, at) == term_rest(
            env,
            toks,
            ratio_read(v, x),
            next,
        ),
{
}

/// A term of one number.
proof fn lemma_number_term(env: Env, toks: Seq<Token>, at: Spot, x: Double)
    requires
        number_at(toks, at, x),
        !factor_op(toks, at.step()),
    ensures
        term(env, toks, at) == Some((x, at.step())),
        factor(env, toks, at) == Some((x, at.step())),
{
    lemma_end_of_term(env, toks, x, at.step());
}

proof fn lemma_end_of_sum(env: Env, toks: Seq<Token>, v: Double, at: Spot)
    requires
        !term_op(toks, at),
    ensures
        addition_rest(env, toks, v, at) == Some((v, at)),
{
}

/// One summand more.
proof fn lemma_next_term(env: Env, toks: Seq<Token>, v: Double, at: Spot, x: Double, next: Spot)
    requires
        term_op(toks, at),
        term(env, toks, at.step()) == Some((x, next)),
        at.step().before(next),
    ensures
        at.is_op(toks, Op::Add) ==> addition_rest(env, toks, v, at) == addition_rest(
            env,
            toks,
            sum(v, x),
            next,
        ),
        at.is_op(toks, Op::Sub) ==> addition_rest(env, toks, v, at) == addition_rest(
            env,
            toks,
            difference(v, x),
            next,
        ),
{
}

/// A sum that is a formula as a whole.
proof fn lemma_whole(env: Env, toks: Seq<Token>, at: Spot, v: Double, end: Spot)
    requires
        addition(env, toks, at) == Some((v, end)),
        at.before(end),
        end.pos == toks.len(),
    ensures
        expr(env, toks, at) == Some((v, end)),
{
    assert(relation_rest(env, toks, v, end) == Some((v, end)));
    assert(choice(env, toks, v, end) == Some((v, end)));
}

// ------------------------------------------------------------------ laws

/// Products bind tighter than sums, on either side.
pub proof fn law_products_bind_tighter(env: Env, a: Double, b: Double, c: Double)
    ensures
        value_of(
            env,
            seq![Token::Num(a), Token::Op(Op::Add), Token::Num(b), Token::Op(Op::Mul), Token::Num(c)],
        ) == Some(sum(a, product(b, c))),
        value_of(
            env,
            seq![Token::Num(a), Token::Op(Op::Mul), Token::Num(b), Token::Op(Op::Sub), Token::Num(c)],
        ) == Some(difference(product(a, b), c)),
        value_of(
            env,
            seq![Token::Num(a), Token::Op(Op::Sub), Token::Num(b), Token::Op(Op::Div), Token::Num(c)],
        ) == Some(difference(a, ratio_read(b, c))),
{
    lemma_sum_of_product(env, a, b, c, Op::Add, Op::Mul, sum(a, product(b, c)));
    lemma_sum_of_product(env, a, b, c, Op::Sub, Op::Div, difference(a, ratio_read(b, c)));
    lemma_product_and_rest(env, a, b, c);
}

proof fn lemma_sum_of_product(
    env: Env,
    a: Double,
    b: Double,
    c: Double,
    outer: Op,
    inner: Op,
    v: Double,
)
    requires
        outer == Op::Add && inner == Op::Mul && v == sum(a, product(b, c)) || outer == Op::Sub
            && inner == Op::Div && v == difference(a, ratio_read(b, c)),
    ensures
        value_of(
            env,
            seq![Token::Num(a), Token::Op(outer), Token::Num(b), Token::Op(inner), Token::Num(c)],
        ) == Some(v),
{
    let s = beginning();
    let (p1, p2) = (s.step(), s.step().step());
    let p5 = p2.step().step().step();
    let t = seq![
        Token::Num(a),
        Token::Op(outer),
        Token::Num(b),
        Token::Op(inner),
        Token::Num(c),
    ];
    let w = if inner == Op::Mul {
        product(b, c)
    } else {
        ratio_read(b, c)
    };
    lemma_number_term(env, t, s, a);
    lemma_product_term(env, t, p2, b, c);
    lemma_next_term(env, t, a, p1, w, p5);
    lemma_end_of_sum(env, t, v, p5);
    lemma_whole(env, t, s, v, p5);
}

proof fn lemma_product_and_rest(env: Env, a: Double, b: Double, c: Double)
    ensures
        value_of(
            env,
            seq![Token::Num(a), Token::Op(Op::Mul), Token::Num(b), Token::Op(Op::Sub), Token::Num(c)],
        ) == Some(difference(product(a, b), c)),
{
    let s = beginning();
    let p3 = s.step().step().step();
    let p5 = p3.step().step();
    let v = difference(product(a, b), c);
    let t = seq![
        Token::Num(a),
        Token::Op(Op::Mul),
        Token::Num(b),
        Token::Op(Op::Sub),
        Token::Num(c),
    ];
    lemma_product_term(env, t, s, a, b);
    lemma_number_term(env, t, p3.step(), c);
    lemma_next_term(env, t, product(a, b), p3, c, p5);
    lemma_end_of_sum(env, t, v, p5);
    lemma_whole(env, t, s, v, p5);
}

/// A term of two numbers.
proof fn lemma_product_term(env: Env, toks: Seq<Token>, at: Spot, x: Double, y: Double)
    requires
        number_at(toks, at, x),
        factor_op(toks, at.step()),
        number_at(toks, at.step().step(), y),
        !factor_op(toks, at.step().step().step()),
    ensures
        at.step().is_op(toks, Op::Mul) ==> term(env, toks, at) == Some(
            (product(x, y), at.step().step().step()),
        ),
        at.step().is_op(toks, Op::Div) ==> term(env, toks, at) == Some(
            (ratio_read(x, y), at.step().step().step()),
        ),
{
    let (k, end) = (at.step(), at.step().step().step());
    assert(factor(env, toks, at) == Some((x, k)));
    assert(factor(env, toks, k.step()) == Some((y, end)));
    lemma_next_factor(env, toks, x, k, y, end);
    lemma_end_of_term(env, toks, product(x, y), end);
    lemma_end_of_term(env, toks, ratio_read(x, y), end);
}

/// Operators of the same rank are applied from left to right.
pub proof fn law_left_to_right(env: Env, a: Double, b: Double, c: Double)
    ensures
        value_of(
            env,
            seq![Token::Num(a), Token::Op(Op::Sub), Token::Num(b), Token::Op(Op::Sub), Token::Num(c)],
        ) == Some(difference(difference(a, b), c)),
        value_of(
            env,
            seq![Token::Num(a), Token::Op(Op::Sub), Token::Num(b), Token::Op(Op::Add), Token::Num(c)],
        ) == Some(sum(difference(a, b), c)),
        value_of(
            env,
            seq![Token::Num(a), Token::Op(Op::Div), Token::Num(b), Token::Op(Op::Div), Token::Num(c)],
        ) == Some(ratio_read(ratio_read(a, b), c)),
        value_of(
            env,
            seq![Token::Num(a), Token::Op(Op::Div), Token::Num(b), Token::Op(Op::Mul), Token::Num(c)],
        ) == Some(product(ratio_read(a, b), c)),
{
    lemma_two_sums(env, a, b, c, Op::Sub, difference(difference(a, b), c));
    lemma_two_sums(env, a, b, c, Op::Add, sum(difference(a, b), c));
    lemma_two_products(env, a, b, c, Op::Div, ratio_read(ratio_read(a, b), c));
    lemma_two_products(env, a, b, c, Op::Mul, product(ratio_read(a, b), c));
}

proof fn lemma_two_sums(env: Env, a: Double, b: Double, c: Double, op: Op, v: Double)
    requires
        op == Op::Sub && v == difference(difference(a, b), c) || op == Op::Add && v == sum(
            difference(a, b),
            c,
        ),
    ensures
        value_of(
            env,
            seq![Token::Num(a), Token::Op(Op::Sub), Token::Num(b), Token::Op(op), Token::Num(c)],
        ) == Some(v),
{
    let s = beginning();
    let (p1, p2) = (s.step(), s.step().step());
    let (p3, p4) = (p2.step(), p2.step().step());
    let p5 = p4.step();
    let t = seq![Token::Num(a), Token::Op(Op::Sub), Token::Num(b), Token::Op(op), Token::Num(c)];
    lemma_number_term(env, t, s, a);
    lemma_number_term(env, t, p2, b);
    lemma_number_term(env, t, p4, c);
    lemma_next_term(env, t, a, p1, b, p3);
    lemma_next_term(env, t, difference(a, b), p3, c, p5);
    lemma_end_of_sum(env, t, v, p5);
    lemma_whole(env, t, s, v, p5);
}

proof fn lemma_two_products(env: Env, a: Double, b: Double, c: Double, op: Op, v: Double)
    requires
        op == Op::Div && v == ratio_read(ratio_read(a, b), c) || op == Op::Mul && v == product(
            ratio_read(a, b),
            c,
        ),
    ensures
        value_of(
            env,
            seq![Token::Num(a), Token::Op(Op::Div), Token::Num(b), Token::Op(op), Token::Num(c)],
        ) == Some(v),
{
    let s = beginning();
    let (p1, p2) = (s.step(), s.step().step());
    let (p3, p4) = (p2.step(), p2.step().step());
    let p5 = p4.step();
    let t = seq![Token::Num(a), Token::Op(Op::Div), Token::Num(b), Token::Op(op), Token::Num(c)];
    assert(factor(env, t, s) == Some((a, p1)));
    assert(factor(env, t, p2) == Some((b, p3)));
    assert(factor(env, t, p4) == Some((c, p5)));
    lemma_next_factor(env, t, a, p1, b, p3);
    lemma_next_factor(env, t, ratio_read(a, b), p3, c, p5);
    lemma_end_of_term(env, t, v, p5);
    assert(term(env, t, s) == Some((v, p5)));
    lemma_end_of_sum(env, t, v, p5);
    lemma_whole(env, t, s, v, p5);
}

/// Brackets come first: what stands in them is one operand, whatever operator is before or
/// behind them.
pub proof fn law_brackets_are_one_operand(
    env: Env,
    toks: Seq<Token>,
    at: Spot,
    v: Double,
    here: Spot,
)
    requires
        at.is_op(toks, Op::Open),
        expr(env, toks, at.step()) == Some((v, here)),
        here.is_op(toks, Op::Close),
    ensures
        factor(env, toks, at) == Some((v, here.step())),
{
}

/// A minus sign before an operand turns its sign.
pub proof fn law_minus_turns_the_sign(env: Env, toks: Seq<Token>, at: Spot, v: Double, here: Spot)
    requires
        at.is_op(toks, Op::Sub),
        factor(env, toks, at.step()) == Some((v, here)),
        !v.is_nan(),
    ensures
        factor(env, toks, at) matches Some((w, end)) && end == here && w.num() == -v.num()
            && w.is_finite() == v.is_finite(),
{
    crate::double::lemma_signed(!v.neg(), v.mag());
    crate::double::lemma_units_zero();
}

/// A comparison is 1 where it holds of the two sums, and 0 where it does not.
pub proof fn law_comparisons_are_one_or_zero(
    env: Env,
    toks: Seq<Token>,
    at: Spot,
    a: Double,
    here: Spot,
    b: Double,
    end: Spot,
)
    requires
        addition(env, toks, at) == Some((a, here)),
        at.before(here),
        addition(env, toks, here.step()) == Some((b, end)),
        !a.is_nan(),
        !b.is_nan(),
    ensures
        ({
            let v = match relation(env, toks, at) {
                Some((v, e)) => Some(v),
                None => None,
            };
            let told = |holds: bool|
                Some(
                    if holds {
                        of_int(1)
                    } else {
                        of_int(0)
                    },
                );
            &&& here.is_op(toks, Op::Less) ==> v == told(a.num() < b.num())
            &&& here.is_op(toks, Op::Greater) ==> v == told(a.num() > b.num())
            &&& here.is_op(toks, Op::AtMost) ==> v == told(a.num() <= b.num())
            &&& here.is_op(toks, Op::AtLeast) ==> v == told(a.num() >= b.num())
            &&& here.is_op(toks, Op::Equal) ==> v == told(a.num() == b.num())
            &&& here.is_op(toks, Op::Unequal) ==> v == told(a.num() != b.num())
        }),
{
}

/// `c ? a : b` is `a` where `c` is not zero, else `b`.
pub proof fn law_questions_choose(
    env: Env,
    toks: Seq<Token>,
    at: Spot,
    c: Double,
    q: Spot,
    a: Double,
    colon: Spot,
    b: Double,
    end: Spot,
)
    requires
        relation(env, toks, at) == Some((c, q)),
        at.before(q),
        q.is_op(toks, Op::Question),
        expr(env, toks, q.step()) == Some((a, colon)),
        q.step().before(colon),
        colon.is_op(toks, Op::Colon),
        expr(env, toks, colon.step()) == Some((b, end)),
        !c.is_nan(),
    ensures
        expr(env, toks, at) == Some(
            (
                if c.num() != 0 {
                    a
                } else {
                    b
                },
                end,
            ),
        ),
{
    assert(crate::evaluate::branches(env, toks, q.step(), Token::Op(Op::Colon)) == Some(
        (a, b, end),
    ));
    assert(choice(env, toks, c, q) is Some);
}

/// `a if c else b` is `a` where `c` is not zero, else `b`.
pub proof fn law_conditions_choose(
    env: Env,
    toks: Seq<Token>,
    at: Spot,
    a: Double,
    q: Spot,
    c: Double,
    otherwise: Spot,
    b: Double,
    end: Spot,
)
    requires
        relation(env, toks, at) == Some((a, q)),
        at.before(q),
        q.is_word(toks, "if"@),
        expr(env, toks, q.step()) == Some((c, otherwise)),
        q.step().before(otherwise),
        otherwise.is_word(toks, "else"@),
        expr(env, toks, otherwise.step()) == Some((b, end)),
        !c.is_nan(),
    ensures
        expr(env, toks, at) == Some(
            (
                if c.num() != 0 {
                    a
                } else {
                    b
                },
                end,
            ),
        ),
{
    assert(crate::evaluate::branches(env, toks, q.step(), Token::Ident("else"@)) == Some(
        (c, b, end),
    ));
    assert(choice(env, toks, a, q) is Some);
}

/// A name that no metric has is an event: it stands for the event's measured count, and is
/// a gap where the event was not measured.
pub proof fn law_events_stand_for_their_counts(
    env: Env,
    toks: Seq<Token>,
    at: Spot,
    name: Seq<char>,
    rows: Seq<(Seq<char>, Double)>,
)
    requires
        at.is_word(toks, name),
        !at.step().is_op(toks, Op::Open),
        found(env.metrics, name) is None,
        env.counts == CountsModel::Measured(rows),
    ensures
        match (factor(env, toks, at), found(rows, name)) {
            (Some((v, end)), Some(count)) => v == count && end.pos == at.pos + 1
                && end.asked.contains(name),
            (None, None) => true,
            _ => false,
        },
{
    let next = at.step();
    assert(next.asked.push(name).contains(name)) by {
        assert(next.asked.push(name)[next.asked.len() as int] == name);
    }
}

/// A name that a metric has stands for the metric's own formula.
pub proof fn law_metrics_stand_for_their_formulas(
    env: Env,
    toks: Seq<Token>,
    at: Spot,
    name: Seq<char>,
    text: Seq<char>,
)
    requires
        at.is_word(toks, name),
        !at.step().is_op(toks, Op::Open),
        found(env.metrics, name) == Some(text),
    ensures
        factor(env, toks, at) == formula(env, text, at.step()),
{
}

/// The constants of the host: `#smt_on` is 1 or 0, `#num_cpus` the CPUs that are online,
/// `#core_wide` 0. A constant that is not known is a gap.
pub proof fn law_constants_are_the_hosts(env: Env, toks: Seq<Token>, at: Spot, name: Seq<char>)
    requires
        at.pos < toks.len(),
        toks[at.pos as int] == Token::Sys(name),
    ensures
        ({
            let v = match factor(env, toks, at) {
                Some((v, e)) => Some(v),
                None => None,
            };
            &&& name == "smt_on"@ ==> v == Some(
                if env.host.smt_on {
                    of_int(1)
                } else {
                    of_int(0)
                },
            )
            &&& name == "num_cpus"@ || name == "num_cpus_online"@ ==> v == Some(
                of_int(env.host.cpus as int),
            )
            &&& name == "core_wide"@ ==> v == Some(of_int(0))
            &&& v is Some <==> name == "smt_on"@ || name == "num_cpus"@ || name
                == "num_cpus_online"@ || name == "core_wide"@
        }),
{
    lemma_constant_names();
}

proof fn lemma_constant_names()
    ensures
        "smt_on"@ != "num_cpus"@,
        "smt_on"@ != "num_cpus_online"@,
        "smt_on"@ != "core_wide"@,
        "num_cpus"@ != "core_wide"@,
        "num_cpus_online"@ != "core_wide"@,
{
    reveal_strlit("smt_on");
    reveal_strlit("num_cpus");
    reveal_strlit("num_cpus_online");
    reveal_strlit("core_wide");
    assert("smt_on"@.len() == 6 && "num_cpus"@.len() == 8);
    assert("num_cpus_online"@.len() == 15 && "core_wide"@.len() == 9);
}

/// References go no deeper than 64 formulas.
pub proof fn law_references_are_limited_in_depth(env: Env, text: Seq<char>, at: Spot)
    requires
        at.depth >= 64,
    ensures
        formula(env, text, at) is None,
{
}

/// Arguments are evaluated in the order in which they stand.
pub proof fn law_arguments_are_in_order(
    env: Env,
    toks: Seq<Token>,
    at: Spot,
    a: Double,
    comma: Spot,
    b: Double,
    end: Spot,
)
    requires
        expr(env, toks, at) == Some((a, comma)),
        at.before(comma),
        comma.is_op(toks, Op::Comma),
        expr(env, toks, comma.step()) == Some((b, end)),
        comma.step().before(end),
        !end.is_op(toks, Op::Comma),
    ensures
        arguments(env, toks, at) == Some((seq![a, b], end)),
{
    assert(arguments(env, toks, comma.step()) == Some((seq![b], end)));
    assert(seq![a] + seq![b] =~= seq![a, b]);
}

/// A call of any other function, or with another number of arguments, is a gap.
pub proof fn law_other_calls_are_a_gap(
    env: Env,
    toks: Seq<Token>,
    at: Spot,
    name: Seq<char>,
    args: Seq<Double>,
    here: Spot,
)
    requires
        at.is_word(toks, name),
        at.step().is_op(toks, Op::Open),
        !at.step().step().is_op(toks, Op::Close),
        arguments(env, toks, at.step().step()) == Some((args, here)),
        (name != "d_ratio"@ && name != "min"@ && name != "max"@ && name != "if"@) || (args.len() != 2
            && args.len() != 3) || (args.len() == 3 && name != "if"@) || (args.len() == 2 && name
            == "if"@),
    ensures
        factor(env, toks, at) is None,
{
    lemma_function_names();
}

/// An event is asked for once, however often a formula names it.
pub proof fn law_events_are_asked_for_once(env: Env, toks: Seq<Token>, at: Spot, name: Seq<char>)
    requires
        at.is_word(toks, name),
        !at.step().is_op(toks, Op::Open),
        found(env.metrics, name) is None,
    ensures
        factor(env, toks, at) matches Some((v, end)) ==> end.asked == if at.asked.contains(name) {
            at.asked
        } else {
            at.asked.push(name)
        },
{
}

} // verus!
