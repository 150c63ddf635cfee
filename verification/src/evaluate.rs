//! Evaluation of metric formulas over measured event counts.

use crate::double::{
    at_most, difference, greater_of, less, lesser_of, negated, of_int, product, quotient, sum,
    Double,
};
use crate::formula::{tokenize, tokens, tokens_of, Op, Tok, Token};
use crate::table::{found, lemma_viewed_found, viewed, Table};
use crate::text::{lower_text, lowered, same, strings};
use vstd::prelude::*;

verus! {

/// What is known of the host: whether cores run more than one thread, and how many
/// CPUs are online.
#[derive(Clone, Copy, Debug, PartialEq, Eq, Structural)]
pub struct Host {
    pub smt_on: bool,
    pub cpus: u64,
}

/// The counts that a formula reads.
pub enum Counts {
    /// The events that were measured; any other is a gap.
    Measured(Table<Double>),
    /// Every event reads as this number: what a formula references can be found out
    /// before anything is measured.
    Every(Double),
}

/// What a formula is evaluated against.
pub struct Scope<'a> {
    pub metrics: &'a Table<String>,
    pub host: Host,
    pub counts: &'a Counts,
}

// ------------------------------------------------------------------ model

/// What [`Counts`] are.
pub enum CountsModel {
    Measured(Seq<(Seq<char>, Double)>),
    Every(Double),
}

impl View for Counts {
    type V = CountsModel;

    open spec fn view(&self) -> CountsModel {
        match *self {
            Counts::Measured(t) => CountsModel::Measured(t@),
            Counts::Every(x) => CountsModel::Every(x),
        }
    }
}

/// What a [`Scope`] is.
pub struct Env {
    /// The formula of each metric.
    pub metrics: Seq<(Seq<char>, Seq<char>)>,
    pub host: Host,
    pub counts: CountsModel,
}

impl<'a> View for Scope<'a> {
    type V = Env;

    open spec fn view(&self) -> Env {
        Env { metrics: viewed(self.metrics@), host: self.host, counts: self.counts@ }
    }
}

/// The count of an event.
pub open spec fn count_of(counts: CountsModel, event: Seq<char>) -> Option<Double> {
    match counts {
        CountsModel::Measured(rows) => found(rows, event),
        CountsModel::Every(x) => Some(x),
    }
}

/// Where the evaluation stands: the next token, within how many formulas, one inside the
/// other, and the events asked for, each once, in order.
#[verifier::ext_equal]
pub struct Spot {
    pub pos: nat,
    pub depth: nat,
    pub asked: Seq<Seq<char>>,
}

/// A value and where the evaluation goes on; none for a gap.
pub type Outcome = Option<(Double, Spot)>;

/// The most formulas that stand one inside the other: past it, the references form a
/// cycle or are too deep.
pub const MAX_DEPTH: u32 = 64;

impl Spot {
    pub open spec fn step(self) -> Spot {
        Spot { pos: self.pos + 1, ..self }
    }

    pub open spec fn asking(self, event: Seq<char>) -> Spot {
        Spot {
            asked: if self.asked.contains(event) {
                self.asked
            } else {
                self.asked.push(event)
            },
            ..self
        }
    }

    /// How far it is to the end of the tokens.
    pub open spec fn left(self, toks: Seq<Token>) -> nat {
        if self.pos < toks.len() {
            (toks.len() - self.pos) as nat
        } else {
            0
        }
    }

    /// How many formulas may still be entered, one inside the other.
    pub open spec fn budget(self) -> nat {
        if self.depth <= MAX_DEPTH {
            (MAX_DEPTH + 1 - self.depth) as nat
        } else {
            0
        }
    }

    pub open spec fn is_op(self, toks: Seq<Token>, op: Op) -> bool {
        self.pos < toks.len() && toks[self.pos as int] == Token::Op(op)
    }

    /// The relation that stands here.
    pub open spec fn relation(self, toks: Seq<Token>) -> Option<Op> {
        if self.pos < toks.len() {
            match toks[self.pos as int] {
                Token::Op(op) => if is_relation(op) {
                    Some(op)
                } else {
                    None
                },
                _ => None,
            }
        } else {
            None
        }
    }

    pub open spec fn is_word(self, toks: Seq<Token>, word: Seq<char>) -> bool {
        self.pos < toks.len() && toks[self.pos as int] == Token::Ident(word)
    }

    /// Evaluation only goes forward, and comes back out of every formula that it enters.
    pub open spec fn before(self, later: Spot) -> bool {
        self.pos <= later.pos && self.depth == later.depth
    }
}

/// The outcome, which is never behind where it started.
pub open spec fn onward(at: Spot, r: Outcome) -> Outcome {
    match r {
        Some((v, next)) => if at.before(next) {
            r
        } else {
            None
        },
        None => None,
    }
}

pub open spec fn is_zero(x: Double) -> bool {
    !x.is_nan() && x.num() == 0
}

pub open spec fn is_relation(op: Op) -> bool {
    op == Op::Less || op == Op::Greater || op == Op::AtMost || op == Op::AtLeast || op == Op::Equal
        || op == Op::Unequal
}

/// A relation, as 1 or 0.
pub open spec fn relates(op: Op, l: Double, r: Double) -> Double {
    let same = !l.is_nan() && !r.is_nan() && l.num() == r.num();
    let holds = match op {
        Op::Less => less(l, r),
        Op::Greater => less(r, l),
        Op::AtMost => at_most(l, r),
        Op::AtLeast => at_most(r, l),
        Op::Equal => same,
        _ => !same,
    };
    if holds {
        of_int(1)
    } else {
        of_int(0)
    }
}

/// Division in formulas: by zero it is zero.
pub open spec fn ratio_or_zero(a: Double, b: Double) -> Double {
    if is_zero(b) {
        of_int(0)
    } else {
        quotient(a, b)
    }
}

/// The functions of the language.
pub open spec fn applied(name: Seq<char>, args: Seq<Double>) -> Option<Double> {
    if name == "d_ratio"@ && args.len() == 2 {
        Some(ratio_or_zero(args[0], args[1]))
    } else if name == "min"@ && args.len() == 2 {
        Some(lesser_of(args[0], args[1]))
    } else if name == "max"@ && args.len() == 2 {
        Some(greater_of(args[0], args[1]))
    } else if name == "if"@ && args.len() == 3 {
        Some(
            if is_zero(args[0]) {
                args[2]
            } else {
                args[1]
            },
        )
    } else {
        None
    }
}

/// The system constants that can be told from the host. Counting is per process, so
/// `core_wide` is 0; any other constant is a gap.
pub open spec fn system_constant(host: Host, name: Seq<char>) -> Option<Double> {
    if name == "smt_on"@ {
        Some(
            if host.smt_on {
                of_int(1)
            } else {
                of_int(0)
            },
        )
    } else if name == "num_cpus"@ || name == "num_cpus_online"@ {
        Some(of_int(host.cpus as int))
    } else if name == "core_wide"@ {
        Some(of_int(0))
    } else {
        None
    }
}

/// A formula entered from `at`: its value, with what was asked for by then.
pub open spec fn formula(env: Env, text: Seq<char>, at: Spot) -> Outcome
    decreases at.budget(), 0nat, 0nat,
{
    if at.depth + 1 > MAX_DEPTH {
        None
    } else {
        match tokens(text) {
            Some(toks) => {
                let start = Spot { pos: 0, depth: at.depth + 1, asked: at.asked };
                match expr(env, toks, start) {
                    Some((v, end)) => if end.pos == toks.len() && start.before(end) {
                        Some((v, Spot { pos: at.pos, depth: at.depth, ..end }))
                    } else {
                        None
                    },
                    None => None,
                }
            },
            None => None,
        }
    }
}

/// The lowest precedence: a relation, or a choice that begins with one.
pub open spec fn expr(env: Env, toks: Seq<Token>, at: Spot) -> Outcome
    decreases at.budget(), at.left(toks), 9nat,
{
    match onward(at, relation(env, toks, at)) {
        Some((v, here)) => choice(env, toks, v, here),
        None => None,
    }
}

/// What follows `v`: `v ? b : c`, `v if b else c`, or nothing.
pub open spec fn choice(env: Env, toks: Seq<Token>, v: Double, at: Spot) -> Outcome
    decreases at.budget(), at.left(toks), 8nat,
{
    if at.is_op(toks, Op::Question) {
        match branches(env, toks, at.step(), Token::Op(Op::Colon)) {
            Some((yes, no, end)) => Some(
                (
                    if is_zero(v) {
                        no
                    } else {
                        yes
                    },
                    end,
                ),
            ),
            None => None,
        }
    } else if at.is_word(toks, "if"@) {
        match branches(env, toks, at.step(), Token::Ident("else"@)) {
            Some((cond, other, end)) => Some(
                (
                    if is_zero(cond) {
                        other
                    } else {
                        v
                    },
                    end,
                ),
            ),
            None => None,
        }
    } else {
        Some((v, at))
    }
}

/// Two expressions with a token between them.
pub open spec fn branches(env: Env, toks: Seq<Token>, at: Spot, between: Token) -> Option<
    (Double, Double, Spot),
>
    decreases at.budget(), at.left(toks), 10nat,
{
    match onward(at, expr(env, toks, at)) {
        Some((first, here)) => if here.pos < toks.len() && toks[here.pos as int] == between {
            match expr(env, toks, here.step()) {
                Some((second, end)) => Some((first, second, end)),
                None => None,
            }
        } else {
            None
        },
        None => None,
    }
}

/// A relation between two sums, or one sum.
pub open spec fn relation(env: Env, toks: Seq<Token>, at: Spot) -> Outcome
    decreases at.budget(), at.left(toks), 7nat,
{
    match onward(at, addition(env, toks, at)) {
        Some((l, here)) => relation_rest(env, toks, l, here),
        None => None,
    }
}

/// The relation that follows `l`, or nothing.
pub open spec fn relation_rest(env: Env, toks: Seq<Token>, l: Double, at: Spot) -> Outcome
    decreases at.budget(), at.left(toks), 6nat,
{
    match at.relation(toks) {
        Some(op) => match addition(env, toks, at.step()) {
            Some((r, end)) => Some((relates(op, l, r), end)),
            None => None,
        },
        None => Some((l, at)),
    }
}

pub open spec fn addition(env: Env, toks: Seq<Token>, at: Spot) -> Outcome
    decreases at.budget(), at.left(toks), 6nat,
{
    match onward(at, term(env, toks, at)) {
        Some((v, here)) => addition_rest(env, toks, v, here),
        None => None,
    }
}

/// The summands that follow `v`.
pub open spec fn addition_rest(env: Env, toks: Seq<Token>, v: Double, at: Spot) -> Outcome
    decreases at.budget(), at.left(toks), 5nat,
{
    if at.is_op(toks, Op::Add) || at.is_op(toks, Op::Sub) {
        match onward(at.step(), term(env, toks, at.step())) {
            Some((r, here)) => addition_rest(
                env,
                toks,
                if at.is_op(toks, Op::Add) {
                    sum(v, r)
                } else {
                    difference(v, r)
                },
                here,
            ),
            None => None,
        }
    } else {
        Some((v, at))
    }
}

pub open spec fn term(env: Env, toks: Seq<Token>, at: Spot) -> Outcome
    decreases at.budget(), at.left(toks), 4nat,
{
    match onward(at, factor(env, toks, at)) {
        Some((v, here)) => term_rest(env, toks, v, here),
        None => None,
    }
}

/// The factors that follow `v`.
pub open spec fn term_rest(env: Env, toks: Seq<Token>, v: Double, at: Spot) -> Outcome
    decreases at.budget(), at.left(toks), 3nat,
{
    if at.is_op(toks, Op::Mul) || at.is_op(toks, Op::Div) {
        match onward(at.step(), factor(env, toks, at.step())) {
            Some((r, here)) => term_rest(
                env,
                toks,
                if at.is_op(toks, Op::Mul) {
                    product(v, r)
                } else {
                    ratio_or_zero(v, r)
                },
                here,
            ),
            None => None,
        }
    } else {
        Some((v, at))
    }
}

/// A number, a constant, an expression in brackets, a negated factor, a call, another
/// metric or an event.
pub open spec fn factor(env: Env, toks: Seq<Token>, at: Spot) -> Outcome
    decreases at.budget(), at.left(toks), 2nat,
{
    if at.pos >= toks.len() {
        None
    } else {
        match toks[at.pos as int] {
            Token::Num(x) => Some((x, at.step())),
            Token::Sys(name) => match system_constant(env.host, name) {
                Some(x) => Some((x, at.step())),
                None => None,
            },
            Token::Op(Op::Open) => match expr(env, toks, at.step()) {
                Some((v, here)) => if here.is_op(toks, Op::Close) {
                    Some((v, here.step()))
                } else {
                    None
                },
                None => None,
            },
            Token::Op(Op::Sub) => match factor(env, toks, at.step()) {
                Some((v, here)) => Some((negated(v), here)),
                None => None,
            },
            Token::Ident(name) => {
                let next = at.step();
                if next.is_op(toks, Op::Open) {
                    let first = next.step();
                    match if first.is_op(toks, Op::Close) {
                        Some((Seq::empty(), first))
                    } else {
                        arguments(env, toks, first)
                    } {
                        Some((args, here)) => if here.is_op(toks, Op::Close) {
                            match applied(name, args) {
                                Some(v) => Some((v, here.step())),
                                None => None,
                            }
                        } else {
                            None
                        },
                        None => None,
                    }
                } else {
                    match found(env.metrics, name) {
                        Some(text) => formula(env, text, next),
                        None => match count_of(env.counts, name) {
                            Some(x) => Some((x, next.asking(name))),
                            None => None,
                        },
                    }
                }
            },
            _ => None,
        }
    }
}

/// Expressions separated by commas.
pub open spec fn arguments(env: Env, toks: Seq<Token>, at: Spot) -> Option<
    (Seq<Double>, Spot),
>
    decreases at.budget(), at.left(toks), 11nat,
{
    match onward(at, expr(env, toks, at)) {
        Some((v, here)) => if here.is_op(toks, Op::Comma) {
            match arguments(env, toks, here.step()) {
                Some((rest, end)) => Some((seq![v] + rest, end)),
                None => None,
            }
        } else {
            Some((seq![v], here))
        },
        None => None,
    }
}


// ------------------------------------------------------------------ evaluation

/// Where the evaluation stands.
struct At {
    pos: usize,
    depth: u32,
    asked: Vec<String>,
}

impl View for At {
    type V = Spot;

    closed spec fn view(&self) -> Spot {
        Spot { pos: self.pos as nat, depth: self.depth as nat, asked: strings(self.asked@) }
    }
}

spec fn outcome_of(r: Option<(Double, At)>) -> Outcome {
    match r {
        Some((v, at)) => Some((v, at@)),
        None => None,
    }
}

impl Spot {
    spec fn reaches(self, r: Option<(Double, At)>, len: nat) -> bool {
        r matches Some((v, next)) ==> next.wf() && next.pos <= len && self.before(next@)
    }
}

impl At {
    spec fn wf(&self) -> bool {
        self.depth <= MAX_DEPTH
    }

    fn step(self, toks: &Vec<Tok>) -> (r: At)
        requires
            self.pos < toks@.len(),
        ensures
            r@ == self@.step(),
            r.depth == self.depth,
    {
        let n: usize = toks.len();
        assert(self.pos < n);
        At { pos: self.pos + 1, depth: self.depth, asked: self.asked }
    }

    fn relation(&self, toks: &Vec<Tok>) -> (r: Option<Op>)
        ensures
            r == self@.relation(tokens_of(toks@)),
    {
        if self.pos < toks.len() {
            match &toks[self.pos] {
                Tok::Op(op) => {
                    let o: Op = *op;
                    if o == Op::Less || o == Op::Greater || o == Op::AtMost || o == Op::AtLeast
                        || o == Op::Equal || o == Op::Unequal {
                        Some(o)
                    } else {
                        None
                    }
                },
                _ => None,
            }
        } else {
            None
        }
    }

    fn is_op(&self, toks: &Vec<Tok>, op: Op) -> (r: bool)
        ensures
            r == self@.is_op(tokens_of(toks@), op),
    {
        if self.pos < toks.len() {
            match &toks[self.pos] {
                Tok::Op(o) => *o == op,
                _ => false,
            }
        } else {
            false
        }
    }

    fn is_word(&self, toks: &Vec<Tok>, word: &str) -> (r: bool)
        ensures
            r == self@.is_word(tokens_of(toks@), word@),
    {
        if self.pos < toks.len() {
            match &toks[self.pos] {
                Tok::Ident(name) => same(name.as_str(), word),
                _ => false,
            }
        } else {
            false
        }
    }

    fn asking(self, event: &str) -> (r: At)
        ensures
            r@ == self@.asking(event@),
            r.depth == self.depth,
            r.pos == self.pos,
    {
        let mut asked: Vec<String> = self.asked;
        let ghost before = strings(asked@);
        let mut i: usize = 0;
        while i < asked.len()
            invariant
                i <= asked.len(),
                before == strings(asked@),
                before == self@.asked,
                forall|j: int| 0 <= j < i ==> before[j] != event@,
            decreases asked.len() - i,
        {
            if same(asked[i].as_str(), event) {
                assert(before[i as int] == event@);
                assert(before.contains(event@));
                return At { pos: self.pos, depth: self.depth, asked };
            }
            i += 1;
        }
        asked.push(event.to_string());
        assert(strings(asked@) =~= before.push(event@));
        At { pos: self.pos, depth: self.depth, asked }
    }
}

fn zero(x: Double) -> (r: bool)
    ensures
        r == is_zero(x),
{
    proof {
        crate::double::lemma_whole_exact(0);
        assert(0 * crate::double::one_unit() == 0);
    }
    x.same(Double::from_u64(0))
}

fn truth(b: bool) -> (r: Double)
    ensures
        r == if b {
            of_int(1)
        } else {
            of_int(0)
        },
{
    if b {
        Double::from_u64(1)
    } else {
        Double::from_u64(0)
    }
}

fn relate(op: Op, l: Double, r: Double) -> (x: Double)
    ensures
        x == relates(op, l, r),
{
    truth(
        match op {
            Op::Less => l.lt(r),
            Op::Greater => r.lt(l),
            Op::AtMost => l.le(r),
            Op::AtLeast => r.le(l),
            Op::Equal => l.same(r),
            _ => !l.same(r),
        },
    )
}

fn divide(a: Double, b: Double) -> (r: Double)
    ensures
        r == ratio_or_zero(a, b),
{
    if zero(b) {
        Double::from_u64(0)
    } else {
        a.over(b)
    }
}

/// The functions of the language; any other is a gap.
pub fn apply_fn(name: &str, args: &Vec<Double>) -> (r: Option<Double>)
    ensures
        r == applied(name@, args@),
{
    let n: usize = args.len();
    if same(name, "d_ratio") && n == 2 {
        Some(divide(args[0], args[1]))
    } else if same(name, "min") && n == 2 {
        Some(args[0].min(args[1]))
    } else if same(name, "max") && n == 2 {
        Some(args[0].max(args[1]))
    } else if same(name, "if") && n == 3 {
        Some(
            if zero(args[0]) {
                args[2]
            } else {
                args[1]
            },
        )
    } else {
        None
    }
}

/// The system constants that can be told from the host; any other is a gap.
pub fn sys_const(host: Host, name: &str) -> (r: Option<Double>)
    ensures
        r == system_constant(host, name@),
{
    if same(name, "smt_on") {
        Some(truth(host.smt_on))
    } else if same(name, "num_cpus") || same(name, "num_cpus_online") {
        Some(Double::from_u64(host.cpus))
    } else if same(name, "core_wide") {
        Some(Double::from_u64(0))
    } else {
        None
    }
}

fn read_count(counts: &Counts, event: &str) -> (r: Option<Double>)
    ensures
        r == count_of(counts@, event@),
{
    match counts {
        Counts::Measured(t) => match t.get(event) {
            Some(x) => Some(*x),
            None => None,
        },
        Counts::Every(x) => Some(*x),
    }
}

fn eval_expr(scope: &Scope, text: &str, at: At) -> (r: Option<(Double, At)>)
    requires
        at.wf(),
    ensures
        outcome_of(r) == formula(scope@, text@, at@),
        r matches Some((v, next)) ==> next.wf() && next.pos == at.pos && at@.before(next@),
    decreases at@.budget(), 0nat, 0nat,
{
    if at.depth + 1 > MAX_DEPTH {
        return None; // a cycle of metric references, or too deep
    }
    match tokenize(text) {
        None => None,
        Some(toks) => {
            let pos: usize = at.pos;
            let depth: u32 = at.depth;
            let start: At = At { pos: 0, depth: at.depth + 1, asked: at.asked };
            match parse_expr(scope, &toks, start) {
                Some((v, end)) => {
                    if end.pos == toks.len() {
                        Some((v, At { pos, depth, asked: end.asked }))
                    } else {
                        None // trailing tokens
                    }
                },
                None => None,
            }
        },
    }
}

fn parse_expr(scope: &Scope, toks: &Vec<Tok>, at: At) -> (r: Option<(Double, At)>)
    requires
        at.wf(),
        at.pos <= toks@.len(),
    ensures
        outcome_of(r) == expr(scope@, tokens_of(toks@), at@),
        at@.reaches(r, toks@.len() as nat),
    decreases at@.budget(), at@.left(tokens_of(toks@)), 9nat,
{
    match parse_relation(scope, toks, at) {
        None => None,
        Some((v, here)) => parse_choice(scope, toks, v, here),
    }
}

fn parse_choice(scope: &Scope, toks: &Vec<Tok>, v: Double, at: At) -> (r: Option<(Double, At)>)
    requires
        at.wf(),
        at.pos <= toks@.len(),
    ensures
        outcome_of(r) == choice(scope@, tokens_of(toks@), v, at@),
        at@.reaches(r, toks@.len() as nat),
    decreases at@.budget(), at@.left(tokens_of(toks@)), 8nat,
{
    if at.is_op(toks, Op::Question) {
        match parse_branches(scope, toks, at.step(toks), Between::Colon) {
            None => None,
            Some((yes, no, end)) => Some(
                (
                    if zero(v) {
                        no
                    } else {
                        yes
                    },
                    end,
                ),
            ),
        }
    } else if at.is_word(toks, "if") {
        match parse_branches(scope, toks, at.step(toks), Between::Else) {
            None => None,
            Some((cond, other, end)) => Some(
                (
                    if zero(cond) {
                        other
                    } else {
                        v
                    },
                    end,
                ),
            ),
        }
    } else {
        Some((v, at))
    }
}

/// What stands between the branches of a choice.
#[derive(Clone, Copy)]
enum Between {
    Colon,
    Else,
}

impl Between {
    spec fn token(self) -> Token {
        match self {
            Between::Colon => Token::Op(Op::Colon),
            Between::Else => Token::Ident("else"@),
        }
    }
}

fn parse_branches(scope: &Scope, toks: &Vec<Tok>, at: At, between: Between) -> (r: Option<
    (Double, Double, At),
>)
    requires
        at.wf(),
        at.pos <= toks@.len(),
    ensures
        match r {
            Some((a, b, next)) => branches(scope@, tokens_of(toks@), at@, between.token()) == Some(
                (a, b, next@),
            ) && next.wf() && next.pos <= toks@.len() && at@.before(next@),
            None => branches(scope@, tokens_of(toks@), at@, between.token()) is None,
        },
    decreases at@.budget(), at@.left(tokens_of(toks@)), 10nat,
{
    match parse_expr(scope, toks, at) {
        None => None,
        Some((first, here)) => {
            let there: bool = match between {
                Between::Colon => here.is_op(toks, Op::Colon),
                Between::Else => here.is_word(toks, "else"),
            };
            if !there {
                return None;
            }
            match parse_expr(scope, toks, here.step(toks)) {
                None => None,
                Some((second, end)) => Some((first, second, end)),
            }
        },
    }
}

fn parse_relation(scope: &Scope, toks: &Vec<Tok>, at: At) -> (r: Option<(Double, At)>)
    requires
        at.wf(),
        at.pos <= toks@.len(),
    ensures
        outcome_of(r) == relation(scope@, tokens_of(toks@), at@),
        at@.reaches(r, toks@.len() as nat),
    decreases at@.budget(), at@.left(tokens_of(toks@)), 7nat,
{
    match parse_addition(scope, toks, at) {
        None => None,
        Some((l, here)) => {
            match here.relation(toks) {
                None => Some((l, here)),
                Some(op) => {
                    match parse_addition(scope, toks, here.step(toks)) {
                        None => None,
                        Some((r, end)) => Some((relate(op, l, r), end)),
                    }
                },
            }
        },
    }
}

fn parse_addition(scope: &Scope, toks: &Vec<Tok>, at: At) -> (r: Option<(Double, At)>)
    requires
        at.wf(),
        at.pos <= toks@.len(),
    ensures
        outcome_of(r) == addition(scope@, tokens_of(toks@), at@),
        at@.reaches(r, toks@.len() as nat),
    decreases at@.budget(), at@.left(tokens_of(toks@)), 6nat,
{
    match parse_term(scope, toks, at) {
        None => None,
        Some((v, here)) => parse_addition_rest(scope, toks, v, here),
    }
}

fn parse_addition_rest(scope: &Scope, toks: &Vec<Tok>, v: Double, at: At) -> (r: Option<(Double, At)>)
    requires
        at.wf(),
        at.pos <= toks@.len(),
    ensures
        outcome_of(r) == addition_rest(scope@, tokens_of(toks@), v, at@),
        at@.reaches(r, toks@.len() as nat),
    decreases at@.budget(), at@.left(tokens_of(toks@)), 5nat,
{
    let plus: bool = at.is_op(toks, Op::Add);
    if plus || at.is_op(toks, Op::Sub) {
        match parse_term(scope, toks, at.step(toks)) {
            None => None,
            Some((r, here)) => {
                let next: Double = if plus {
                    v.plus(r)
                } else {
                    v.minus(r)
                };
                parse_addition_rest(scope, toks, next, here)
            },
        }
    } else {
        Some((v, at))
    }
}

fn parse_term(scope: &Scope, toks: &Vec<Tok>, at: At) -> (r: Option<(Double, At)>)
    requires
        at.wf(),
        at.pos <= toks@.len(),
    ensures
        outcome_of(r) == term(scope@, tokens_of(toks@), at@),
        at@.reaches(r, toks@.len() as nat),
    decreases at@.budget(), at@.left(tokens_of(toks@)), 4nat,
{
    match parse_factor(scope, toks, at) {
        None => None,
        Some((v, here)) => parse_term_rest(scope, toks, v, here),
    }
}

fn parse_term_rest(scope: &Scope, toks: &Vec<Tok>, v: Double, at: At) -> (r: Option<(Double, At)>)
    requires
        at.wf(),
        at.pos <= toks@.len(),
    ensures
        outcome_of(r) == term_rest(scope@, tokens_of(toks@), v, at@),
        at@.reaches(r, toks@.len() as nat),
    decreases at@.budget(), at@.left(tokens_of(toks@)), 3nat,
{
    let times: bool = at.is_op(toks, Op::Mul);
    if times || at.is_op(toks, Op::Div) {
        match parse_factor(scope, toks, at.step(toks)) {
            None => None,
            Some((r, here)) => {
                let next: Double = if times {
                    v.times(r)
                } else {
                    divide(v, r)
                };
                parse_term_rest(scope, toks, next, here)
            },
        }
    } else {
        Some((v, at))
    }
}

fn parse_factor(scope: &Scope, toks: &Vec<Tok>, at: At) -> (r: Option<(Double, At)>)
    requires
        at.wf(),
        at.pos <= toks@.len(),
    ensures
        outcome_of(r) == factor(scope@, tokens_of(toks@), at@),
        at@.reaches(r, toks@.len() as nat),
    decreases at@.budget(), at@.left(tokens_of(toks@)), 2nat,
{
    if at.pos >= toks.len() {
        return None;
    }
    match &toks[at.pos] {
        Tok::Num(x) => Some((*x, at.step(toks))),
        Tok::Sys(name) => match sys_const(scope.host, name.as_str()) {
            Some(x) => Some((x, at.step(toks))),
            None => None,
        },
        Tok::Op(Op::Open) => match parse_expr(scope, toks, at.step(toks)) {
            Some((v, here)) => {
                if here.is_op(toks, Op::Close) {
                    Some((v, here.step(toks)))
                } else {
                    None
                }
            },
            None => None,
        },
        Tok::Op(Op::Sub) => match parse_factor(scope, toks, at.step(toks)) {
            Some((v, here)) => Some((v.negate(), here)),
            None => None,
        },
        Tok::Ident(name) => {
            let next: At = at.step(toks);
            if next.is_op(toks, Op::Open) {
                return parse_call(scope, toks, name.as_str(), next.step(toks));
            }
            proof {
                lemma_viewed_found(scope.metrics@, name@);
            }
            match scope.metrics.get(name.as_str()) {
                Some(text) => eval_expr(scope, text.as_str(), next),
                None => match read_count(scope.counts, name.as_str()) {
                    Some(x) => Some((x, next.asking(name.as_str()))),
                    None => None,
                },
            }
        },
        _ => None,
    }
}

/// What a call is, behind its opening bracket.
spec fn call(env: Env, toks: Seq<Token>, name: Seq<char>, at: Spot) -> Outcome {
    match if at.is_op(toks, Op::Close) {
        Some((Seq::empty(), at))
    } else {
        arguments(env, toks, at)
    } {
        Some((args, here)) => if here.is_op(toks, Op::Close) {
            match applied(name, args) {
                Some(v) => Some((v, here.step())),
                None => None,
            }
        } else {
            None
        },
        None => None,
    }
}

fn parse_call(scope: &Scope, toks: &Vec<Tok>, name: &str, at: At) -> (r: Option<(Double, At)>)
    requires
        at.wf(),
        at.pos <= toks@.len(),
    ensures
        outcome_of(r) == call(scope@, tokens_of(toks@), name@, at@),
        at@.reaches(r, toks@.len() as nat),
    decreases at@.budget(), at@.left(tokens_of(toks@)), 12nat,
{
    let found_args: Option<(Vec<Double>, At)> = if at.is_op(toks, Op::Close) {
        Some((Vec::new(), at))
    } else {
        parse_arguments(scope, toks, at)
    };
    match found_args {
        None => None,
        Some((args, here)) => {
            if !here.is_op(toks, Op::Close) {
                return None;
            }
            match apply_fn(name, &args) {
                Some(v) => Some((v, here.step(toks))),
                None => None,
            }
        },
    }
}

fn parse_arguments(scope: &Scope, toks: &Vec<Tok>, at: At) -> (r: Option<(Vec<Double>, At)>)
    requires
        at.wf(),
        at.pos <= toks@.len(),
    ensures
        match r {
            Some((args, next)) => arguments(scope@, tokens_of(toks@), at@) == Some((args@, next@))
                && next.wf() && next.pos <= toks@.len() && at@.before(next@),
            None => arguments(scope@, tokens_of(toks@), at@) is None,
        },
    decreases at@.budget(), at@.left(tokens_of(toks@)), 11nat,
{
    match parse_expr(scope, toks, at) {
        None => None,
        Some((v, here)) => {
            if here.is_op(toks, Op::Comma) {
                match parse_arguments(scope, toks, here.step(toks)) {
                    None => None,
                    Some((rest, end)) => {
                        let mut args: Vec<Double> = rest;
                        let ghost before = args@;
                        args.insert(0, v);
                        assert(args@ =~= seq![v] + before);
                        Some((args, end))
                    },
                }
            } else {
                let args: Vec<Double> = vec![v];
                assert(args@ =~= seq![v]);
                Some((args, here))
            }
        },
    }
}


/// A metric's value, and the events that it asked for.
pub open spec fn evaluated(env: Env, name: Seq<char>) -> Option<(Double, Seq<Seq<char>>)> {
    match found(env.metrics, lowered(name)) {
        Some(text) => match formula(env, text, Spot { pos: 0, depth: 0, asked: Seq::empty() }) {
            Some((v, end)) => Some((v, end.asked)),
            None => None,
        },
        None => None,
    }
}

/// Evaluates a metric, and lists the events that it asked for.
pub fn evaluate(scope: &Scope, name: &str) -> (r: Option<(Double, Vec<String>)>)
    ensures
        match r {
            Some((v, asked)) => evaluated(scope@, name@) == Some((v, strings(asked@))),
            None => evaluated(scope@, name@) is None,
        },
{
    let key: String = lower_text(name);
    proof {
        lemma_viewed_found(scope.metrics@, key@);
    }
    match scope.metrics.get(key.as_str()) {
        None => None,
        Some(text) => {
            let at: At = At { pos: 0, depth: 0, asked: Vec::new() };
            assert(strings(at.asked@) =~= Seq::empty());
            match eval_expr(scope, text.as_str(), at) {
                Some((v, end)) => Some((v, end.asked)),
                None => None,
            }
        },
    }
}

// ------------------------------------------------------------------ laws

/// Every event of the list has a count.
#[verifier::opaque]
pub open spec fn all_counted(counts: CountsModel, events: Seq<Seq<char>>) -> bool {
    forall|i: int| 0 <= i < events.len() ==> count_of(counts, #[trigger] events[i]) is Some
}

/// What was asked for before is still among what was asked for, and an event that was
/// added has a count.
#[verifier::opaque]
spec fn asks_on(counts: CountsModel, asked: Seq<Seq<char>>, next: Seq<Seq<char>>) -> bool {
    &&& forall|e: Seq<char>| #[trigger] asked.contains(e) ==> next.contains(e)
    &&& forall|e: Seq<char>| #[trigger]
        next.contains(e) ==> asked.contains(e) || count_of(counts, e) is Some
}

proof fn lemma_asks_nothing(counts: CountsModel, asked: Seq<Seq<char>>)
    ensures
        asks_on(counts, asked, asked),
{
    reveal(asks_on);
}

proof fn lemma_asks_more(counts: CountsModel, a: Seq<Seq<char>>, b: Seq<Seq<char>>, c: Seq<Seq<char>>)
    requires
        asks_on(counts, a, b),
        asks_on(counts, b, c),
    ensures
        asks_on(counts, a, c),
{
    reveal(asks_on);
}

proof fn lemma_asking(counts: CountsModel, at: Spot, event: Seq<char>)
    requires
        count_of(counts, event) is Some,
    ensures
        asks_on(counts, at.asked, at.asking(event).asked),
        at.asking(event).asked.contains(event),
{
    reveal(asks_on);
    let next = at.asking(event);
    if !at.asked.contains(event) {
        assert(next.asked[at.asked.len() as int] == event);
        assert forall|e: Seq<char>| #[trigger] at.asked.contains(e) implies next.asked.contains(
            e,
        ) by {
            let i = choose|i: int| 0 <= i < at.asked.len() && at.asked[i] == e;
            assert(next.asked[i] == e);
        }
        assert forall|e: Seq<char>| #[trigger] next.asked.contains(e) implies at.asked.contains(e)
            || count_of(counts, e) is Some by {
            let i = choose|i: int| 0 <= i < next.asked.len() && next.asked[i] == e;
            if i < at.asked.len() {
                assert(at.asked[i] == e);
            }
        }
    }
}

proof fn asks_formula(env: Env, text: Seq<char>, at: Spot)
    ensures
        formula(env, text, at) matches Some((x, next)) ==> asks_on(env.counts, at.asked, next.asked),
    decreases at.budget(), 0nat, 0nat,
{
    if at.depth + 1 <= MAX_DEPTH && tokens(text) is Some {
        let start = Spot { pos: 0, depth: at.depth + 1, asked: at.asked };
        asks_expr(env, tokens(text)->0, start);
    }
}

proof fn asks_expr(env: Env, toks: Seq<Token>, at: Spot)
    ensures
        expr(env, toks, at) matches Some((x, next)) ==> asks_on(
            env.counts,
            at.asked,
            next.asked,
        ),
    decreases at.budget(), at.left(toks), 9nat,
{
    asks_relation(env, toks, at);
    if let Some((v, here)) = onward(at, relation(env, toks, at)) {
        asks_choice(env, toks, v, here);
        if let Some((x, end)) = choice(env, toks, v, here) {
            lemma_asks_more(env.counts, at.asked, here.asked, end.asked);
        }
    }
}

proof fn asks_choice(env: Env, toks: Seq<Token>, v: Double, at: Spot)
    ensures
        choice(env, toks, v, at) matches Some((x, next)) ==> asks_on(
            env.counts,
            at.asked,
            next.asked,
        ),
    decreases at.budget(), at.left(toks), 8nat,
{
    lemma_asks_nothing(env.counts, at.asked);
    if at.is_op(toks, Op::Question) {
        asks_branches(env, toks, at.step(), Token::Op(Op::Colon));
    } else if at.is_word(toks, "if"@) {
        asks_branches(env, toks, at.step(), Token::Ident("else"@));
    }
}

proof fn asks_branches(env: Env, toks: Seq<Token>, at: Spot, between: Token)
    ensures
        branches(env, toks, at, between) matches Some((a, b, next)) ==> asks_on(
            env.counts,
            at.asked,
            next.asked,
        ),
    decreases at.budget(), at.left(toks), 10nat,
{
    asks_expr(env, toks, at);
    if let Some((first, here)) = onward(at, expr(env, toks, at)) {
        if here.pos < toks.len() && toks[here.pos as int] == between {
            asks_expr(env, toks, here.step());
            if let Some((x, end)) = expr(env, toks, here.step()) {
                lemma_asks_more(env.counts, at.asked, here.asked, end.asked);
            }
        }
    }
}

proof fn asks_relation(env: Env, toks: Seq<Token>, at: Spot)
    ensures
        relation(env, toks, at) matches Some((x, next)) ==> asks_on(
            env.counts,
            at.asked,
            next.asked,
        ),
    decreases at.budget(), at.left(toks), 7nat,
{
    asks_addition(env, toks, at);
    if let Some((l, here)) = onward(at, addition(env, toks, at)) {
        asks_relation_rest(env, toks, l, here);
        if let Some((x, end)) = relation_rest(env, toks, l, here) {
            lemma_asks_more(env.counts, at.asked, here.asked, end.asked);
        }
    }
}

proof fn asks_relation_rest(env: Env, toks: Seq<Token>, l: Double, at: Spot)
    ensures
        relation_rest(env, toks, l, at) matches Some((x, next)) ==> asks_on(
            env.counts,
            at.asked,
            next.asked,
        ),
    decreases at.budget(), at.left(toks), 6nat,
{
    lemma_asks_nothing(env.counts, at.asked);
    if at.relation(toks) is Some {
        asks_addition(env, toks, at.step());
    }
}

proof fn asks_addition(env: Env, toks: Seq<Token>, at: Spot)
    ensures
        addition(env, toks, at) matches Some((x, next)) ==> asks_on(
            env.counts,
            at.asked,
            next.asked,
        ),
    decreases at.budget(), at.left(toks), 6nat,
{
    asks_term(env, toks, at);
    if let Some((v, here)) = onward(at, term(env, toks, at)) {
        asks_addition_rest(env, toks, v, here);
        if let Some((x, end)) = addition_rest(env, toks, v, here) {
            lemma_asks_more(env.counts, at.asked, here.asked, end.asked);
        }
    }
}

proof fn asks_addition_rest(env: Env, toks: Seq<Token>, v: Double, at: Spot)
    ensures
        addition_rest(env, toks, v, at) matches Some((x, next)) ==> asks_on(
            env.counts,
            at.asked,
            next.asked,
        ),
    decreases at.budget(), at.left(toks), 5nat,
{
    lemma_asks_nothing(env.counts, at.asked);
    if at.is_op(toks, Op::Add) || at.is_op(toks, Op::Sub) {
        asks_term(env, toks, at.step());
        if let Some((r, here)) = onward(at.step(), term(env, toks, at.step())) {
            let v2 = if at.is_op(toks, Op::Add) {
                sum(v, r)
            } else {
                difference(v, r)
            };
            asks_addition_rest(env, toks, v2, here);
            if let Some((x, end)) = addition_rest(env, toks, v2, here) {
                lemma_asks_more(env.counts, at.asked, here.asked, end.asked);
            }
        }
    }
}

proof fn asks_term(env: Env, toks: Seq<Token>, at: Spot)
    ensures
        term(env, toks, at) matches Some((x, next)) ==> asks_on(
            env.counts,
            at.asked,
            next.asked,
        ),
    decreases at.budget(), at.left(toks), 4nat,
{
    asks_factor(env, toks, at);
    if let Some((v, here)) = onward(at, factor(env, toks, at)) {
        asks_term_rest(env, toks, v, here);
        if let Some((x, end)) = term_rest(env, toks, v, here) {
            lemma_asks_more(env.counts, at.asked, here.asked, end.asked);
        }
    }
}

proof fn asks_term_rest(env: Env, toks: Seq<Token>, v: Double, at: Spot)
    ensures
        term_rest(env, toks, v, at) matches Some((x, next)) ==> asks_on(
            env.counts,
            at.asked,
            next.asked,
        ),
    decreases at.budget(), at.left(toks), 3nat,
{
    lemma_asks_nothing(env.counts, at.asked);
    if at.is_op(toks, Op::Mul) || at.is_op(toks, Op::Div) {
        asks_factor(env, toks, at.step());
        if let Some((r, here)) = onward(at.step(), factor(env, toks, at.step())) {
            let v2 = if at.is_op(toks, Op::Mul) {
                product(v, r)
            } else {
                ratio_or_zero(v, r)
            };
            asks_term_rest(env, toks, v2, here);
            if let Some((x, end)) = term_rest(env, toks, v2, here) {
                lemma_asks_more(env.counts, at.asked, here.asked, end.asked);
            }
        }
    }
}

proof fn asks_factor(env: Env, toks: Seq<Token>, at: Spot)
    ensures
        factor(env, toks, at) matches Some((x, next)) ==> asks_on(
            env.counts,
            at.asked,
            next.asked,
        ),
    decreases at.budget(), at.left(toks), 2nat,
{
    lemma_asks_nothing(env.counts, at.asked);
    if at.pos < toks.len() {
        match toks[at.pos as int] {
            Token::Op(Op::Open) => asks_expr(env, toks, at.step()),
            Token::Op(Op::Sub) => asks_factor(env, toks, at.step()),
            Token::Ident(name) => {
                let next = at.step();
                if next.is_op(toks, Op::Open) {
                    if !next.step().is_op(toks, Op::Close) {
                        asks_arguments(env, toks, next.step());
                    }
                } else {
                    match found(env.metrics, name) {
                        Some(text) => asks_formula(env, text, next),
                        None => {
                            if count_of(env.counts, name) is Some {
                                lemma_asking(env.counts, next, name);
                            }
                        },
                    }
                }
            },
            _ => {},
        }
    }
}

proof fn asks_arguments(env: Env, toks: Seq<Token>, at: Spot)
    ensures
        arguments(env, toks, at) matches Some((x, next)) ==> asks_on(
            env.counts,
            at.asked,
            next.asked,
        ),
    decreases at.budget(), at.left(toks), 11nat,
{
    asks_expr(env, toks, at);
    if let Some((v, here)) = onward(at, expr(env, toks, at)) {
        if here.is_op(toks, Op::Comma) {
            asks_arguments(env, toks, here.step());
            if let Some((x, end)) = arguments(env, toks, here.step()) {
                lemma_asks_more(env.counts, at.asked, here.asked, end.asked);
            }
        }
    }
}

/// Evaluations against two sets of counts agree on where they go, if each event that
/// the first asks for has a count in the second.
spec fn follows(a: Option<Spot>, b: Option<Spot>, counts: CountsModel) -> bool {
    a matches Some(next) ==> (all_counted(counts, next.asked) ==> b == a)
}

spec fn end_of(r: Outcome) -> Option<Spot> {
    match r {
        Some((v, at)) => Some(at),
        None => None,
    }
}

spec fn end_of_branches(r: Option<(Double, Double, Spot)>) -> Option<Spot> {
    match r {
        Some((a, b, at)) => Some(at),
        None => None,
    }
}

spec fn end_of_arguments(r: Option<(Seq<Double>, Spot)>) -> Option<(nat, Spot)> {
    match r {
        Some((args, at)) => Some((args.len(), at)),
        None => None,
    }
}

/// What was asked for on the way was asked for at the end.
proof fn lemma_counted_on_the_way(a: CountsModel, b: CountsModel, at: Spot, next: Spot)
    requires
        asks_on(a, at.asked, next.asked),
        all_counted(b, next.asked),
    ensures
        all_counted(b, at.asked),
{
    reveal(asks_on);
    reveal(all_counted);
    assert forall|i: int| 0 <= i < at.asked.len() implies count_of(b, #[trigger] at.asked[i])
        is Some by {
        let e = at.asked[i];
        assert(at.asked.contains(e));
        let j = choose|j: int| 0 <= j < next.asked.len() && next.asked[j] == e;
        assert(count_of(b, next.asked[j]) is Some);
    }
}

proof fn follows_formula(a: Env, b: Env, text: Seq<char>, at: Spot)
    requires
        a.metrics == b.metrics,
        a.host == b.host,
    ensures
        follows(end_of(formula(a, text, at)), end_of(formula(b, text, at)), b.counts),
    decreases at.budget(), 0nat, 0nat,
{
    if at.depth + 1 <= MAX_DEPTH && tokens(text) is Some {
        let start = Spot { pos: 0, depth: at.depth + 1, asked: at.asked };
        follows_expr(a, b, tokens(text)->0, start);
    }
}

proof fn follows_expr(a: Env, b: Env, toks: Seq<Token>, at: Spot)
    requires
        a.metrics == b.metrics,
        a.host == b.host,
    ensures
        follows(end_of(expr(a, toks, at)), end_of(expr(b, toks, at)), b.counts),
    decreases at.budget(), at.left(toks), 9nat,
{
    follows_relation(a, b, toks, at);
    if let Some((v, here)) = onward(at, relation(a, toks, at)) {
        asks_choice(a, toks, v, here);
        if let Some((x, next)) = choice(a, toks, v, here) {
            if all_counted(b.counts, next.asked) {
                lemma_counted_on_the_way(a.counts, b.counts, here, next);
            }
        }
        if let Some((w, there)) = onward(at, relation(b, toks, at)) {
            follows_choice(a, b, toks, v, w, here);
        }
    }
}

proof fn follows_choice(a: Env, b: Env, toks: Seq<Token>, v: Double, w: Double, at: Spot)
    requires
        a.metrics == b.metrics,
        a.host == b.host,
    ensures
        follows(
            end_of(choice(a, toks, v, at)),
            end_of(choice(b, toks, w, at)),
            b.counts,
        ),
    decreases at.budget(), at.left(toks), 8nat,
{
    if at.is_op(toks, Op::Question) {
        follows_branches(a, b, toks, at.step(), Token::Op(Op::Colon));
    } else if at.is_word(toks, "if"@) {
        follows_branches(a, b, toks, at.step(), Token::Ident("else"@));
    }
}

proof fn follows_branches(a: Env, b: Env, toks: Seq<Token>, at: Spot, between: Token)
    requires
        a.metrics == b.metrics,
        a.host == b.host,
    ensures
        follows(
            end_of_branches(branches(a, toks, at, between)),
            end_of_branches(branches(b, toks, at, between)),
            b.counts,
        ),
    decreases at.budget(), at.left(toks), 10nat,
{
    follows_expr(a, b, toks, at);
    if let Some((first, here)) = onward(at, expr(a, toks, at)) {
        if here.pos < toks.len() && toks[here.pos as int] == between {
            asks_expr(a, toks, here.step());
            if let Some((x, next)) = expr(a, toks, here.step()) {
                if all_counted(b.counts, next.asked) {
                    lemma_counted_on_the_way(a.counts, b.counts, here.step(), next);
                }
            }
            follows_expr(a, b, toks, here.step());
        }
    }
}

proof fn follows_relation(a: Env, b: Env, toks: Seq<Token>, at: Spot)
    requires
        a.metrics == b.metrics,
        a.host == b.host,
    ensures
        follows(end_of(relation(a, toks, at)), end_of(relation(b, toks, at)), b.counts),
    decreases at.budget(), at.left(toks), 7nat,
{
    follows_addition(a, b, toks, at);
    if let Some((l, here)) = onward(at, addition(a, toks, at)) {
        asks_relation_rest(a, toks, l, here);
        if let Some((x, next)) = relation_rest(a, toks, l, here) {
            if all_counted(b.counts, next.asked) {
                lemma_counted_on_the_way(a.counts, b.counts, here, next);
            }
        }
        if let Some((m, there)) = onward(at, addition(b, toks, at)) {
            follows_relation_rest(a, b, toks, l, m, here);
        }
    }
}

proof fn follows_relation_rest(a: Env, b: Env, toks: Seq<Token>, l: Double, m: Double, at: Spot)
    requires
        a.metrics == b.metrics,
        a.host == b.host,
    ensures
        follows(
            end_of(relation_rest(a, toks, l, at)),
            end_of(relation_rest(b, toks, m, at)),
            b.counts,
        ),
    decreases at.budget(), at.left(toks), 6nat,
{
    if at.relation(toks) is Some {
        follows_addition(a, b, toks, at.step());
    }
}

proof fn follows_addition(a: Env, b: Env, toks: Seq<Token>, at: Spot)
    requires
        a.metrics == b.metrics,
        a.host == b.host,
    ensures
        follows(end_of(addition(a, toks, at)), end_of(addition(b, toks, at)), b.counts),
    decreases at.budget(), at.left(toks), 6nat,
{
    follows_term(a, b, toks, at);
    if let Some((v, here)) = onward(at, term(a, toks, at)) {
        asks_addition_rest(a, toks, v, here);
        if let Some((x, next)) = addition_rest(a, toks, v, here) {
            if all_counted(b.counts, next.asked) {
                lemma_counted_on_the_way(a.counts, b.counts, here, next);
            }
        }
        if let Some((w, there)) = onward(at, term(b, toks, at)) {
            follows_addition_rest(a, b, toks, v, w, here);
        }
    }
}

proof fn follows_addition_rest(a: Env, b: Env, toks: Seq<Token>, v: Double, w: Double, at: Spot)
    requires
        a.metrics == b.metrics,
        a.host == b.host,
    ensures
        follows(
            end_of(addition_rest(a, toks, v, at)),
            end_of(addition_rest(b, toks, w, at)),
            b.counts,
        ),
    decreases at.budget(), at.left(toks), 5nat,
{
    if at.is_op(toks, Op::Add) || at.is_op(toks, Op::Sub) {
        let add = at.is_op(toks, Op::Add);
        follows_term(a, b, toks, at.step());
        if let Some((r, here)) = onward(at.step(), term(a, toks, at.step())) {
            let v2 = if add {
                sum(v, r)
            } else {
                difference(v, r)
            };
            asks_addition_rest(a, toks, v2, here);
            if let Some((x, next)) = addition_rest(a, toks, v2, here) {
                if all_counted(b.counts, next.asked) {
                    lemma_counted_on_the_way(a.counts, b.counts, here, next);
                }
            }
            if let Some((q, there)) = onward(at.step(), term(b, toks, at.step())) {
                let w2 = if add {
                    sum(w, q)
                } else {
                    difference(w, q)
                };
                follows_addition_rest(a, b, toks, v2, w2, here);
            }
        }
    }
}

proof fn follows_term(a: Env, b: Env, toks: Seq<Token>, at: Spot)
    requires
        a.metrics == b.metrics,
        a.host == b.host,
    ensures
        follows(end_of(term(a, toks, at)), end_of(term(b, toks, at)), b.counts),
    decreases at.budget(), at.left(toks), 4nat,
{
    follows_factor(a, b, toks, at);
    if let Some((v, here)) = onward(at, factor(a, toks, at)) {
        asks_term_rest(a, toks, v, here);
        if let Some((x, next)) = term_rest(a, toks, v, here) {
            if all_counted(b.counts, next.asked) {
                lemma_counted_on_the_way(a.counts, b.counts, here, next);
            }
        }
        if let Some((w, there)) = onward(at, factor(b, toks, at)) {
            follows_term_rest(a, b, toks, v, w, here);
        }
    }
}

proof fn follows_term_rest(a: Env, b: Env, toks: Seq<Token>, v: Double, w: Double, at: Spot)
    requires
        a.metrics == b.metrics,
        a.host == b.host,
    ensures
        follows(
            end_of(term_rest(a, toks, v, at)),
            end_of(term_rest(b, toks, w, at)),
            b.counts,
        ),
    decreases at.budget(), at.left(toks), 3nat,
{
    if at.is_op(toks, Op::Mul) || at.is_op(toks, Op::Div) {
        let mul = at.is_op(toks, Op::Mul);
        follows_factor(a, b, toks, at.step());
        if let Some((r, here)) = onward(at.step(), factor(a, toks, at.step())) {
            let v2 = if mul {
                product(v, r)
            } else {
                ratio_or_zero(v, r)
            };
            asks_term_rest(a, toks, v2, here);
            if let Some((x, next)) = term_rest(a, toks, v2, here) {
                if all_counted(b.counts, next.asked) {
                    lemma_counted_on_the_way(a.counts, b.counts, here, next);
                }
            }
            if let Some((q, there)) = onward(at.step(), factor(b, toks, at.step())) {
                let w2 = if mul {
                    product(w, q)
                } else {
                    ratio_or_zero(w, q)
                };
                follows_term_rest(a, b, toks, v2, w2, here);
            }
        }
    }
}

proof fn follows_factor(a: Env, b: Env, toks: Seq<Token>, at: Spot)
    requires
        a.metrics == b.metrics,
        a.host == b.host,
    ensures
        follows(end_of(factor(a, toks, at)), end_of(factor(b, toks, at)), b.counts),
    decreases at.budget(), at.left(toks), 2nat,
{
    if at.pos < toks.len() {
        match toks[at.pos as int] {
            Token::Op(Op::Open) => follows_expr(a, b, toks, at.step()),
            Token::Op(Op::Sub) => follows_factor(a, b, toks, at.step()),
            Token::Ident(name) => {
                let next = at.step();
                if next.is_op(toks, Op::Open) {
                    if !next.step().is_op(toks, Op::Close) {
                        follows_arguments(a, b, toks, next.step());
                    }
                } else {
                    match found(a.metrics, name) {
                        Some(text) => follows_formula(a, b, text, next),
                        None => {
                            if count_of(a.counts, name) is Some {
                                lemma_asking(a.counts, next, name);
                                reveal(all_counted);
                                let asked = next.asking(name).asked;
                                let j = choose|j: int| 0 <= j < asked.len() && asked[j] == name;
                                assert(all_counted(b.counts, asked) ==> count_of(
                                    b.counts,
                                    asked[j],
                                ) is Some);
                            }
                        },
                    }
                }
            },
            _ => {},
        }
    }
}

proof fn follows_arguments(a: Env, b: Env, toks: Seq<Token>, at: Spot)
    requires
        a.metrics == b.metrics,
        a.host == b.host,
    ensures
        end_of_arguments(arguments(a, toks, at)) matches Some((n, next)) ==> (all_counted(
            b.counts,
            next.asked,
        ) ==> end_of_arguments(arguments(b, toks, at)) == end_of_arguments(
            arguments(a, toks, at),
        )),
    decreases at.budget(), at.left(toks), 11nat,
{
    follows_expr(a, b, toks, at);
    if let Some((v, here)) = onward(at, expr(a, toks, at)) {
        if here.is_op(toks, Op::Comma) {
            asks_arguments(a, toks, here.step());
            if let Some((x, next)) = arguments(a, toks, here.step()) {
                if all_counted(b.counts, next.asked) {
                    lemma_counted_on_the_way(a.counts, b.counts, here.step(), next);
                }
            }
            follows_arguments(a, b, toks, here.step());
        }
    }
}

/// No count is made up: each event that went into a value was measured.
pub proof fn law_counts_are_measured(env: Env, name: Seq<char>)
    ensures
        evaluated(env, name) matches Some((v, asked)) ==> all_counted(env.counts, asked),
{
    let at = Spot { pos: 0, depth: 0, asked: Seq::empty() };
    if let Some(text) = found(env.metrics, lowered(name)) {
        asks_formula(env, text, at);
        if let Some((v, end)) = formula(env, text, at) {
            reveal(asks_on);
            reveal(all_counted);
            assert forall|i: int| 0 <= i < end.asked.len() implies count_of(
                env.counts,
                #[trigger] end.asked[i],
            ) is Some by {
                assert(end.asked.contains(end.asked[i]));
            }
        }
    }
}

/// A metric that can be evaluated at all has a value as soon as the events that it
/// references are measured, and it asks for no others.
pub proof fn law_references_suffice(trial: Env, env: Env, name: Seq<char>)
    requires
        trial.metrics == env.metrics,
        trial.host == env.host,
        evaluated(trial, name) matches Some((v, asked)) && all_counted(env.counts, asked),
    ensures
        evaluated(env, name) matches Some((v, asked)) && Some(asked) == match evaluated(
            trial,
            name,
        ) {
            Some((w, same)) => Some(same),
            None => None,
        },
{
    let at = Spot { pos: 0, depth: 0, asked: Seq::empty() };
    let text = found(env.metrics, lowered(name))->0;
    follows_formula(trial, env, text, at);
}

/// What an evaluation enters it comes back out of: references side by side are no deeper
/// than one of them.
pub proof fn law_depth_is_left_as_it_was(env: Env, text: Seq<char>, at: Spot)
    ensures
        formula(env, text, at) matches Some((v, end)) ==> end.depth == at.depth && end.pos
            == at.pos,
{
}

} // verus!
