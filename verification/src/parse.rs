//! The expression builder: a shift-reduce parser that consumes tokens one
//! at a time, keeping a working stack plus one token of lookahead, and
//! repeatedly reduces the longest matching suffix of the stack into a
//! single expression node.

use crate::error::ParseError;
use crate::eval::Exp;
use crate::eval::ExpModel;
use crate::eval::Keep;
use crate::eval::KeepModel;
use crate::eval::Op;
use crate::eval::OpModel;
use crate::eval::Operation;
use crate::eval::Roll;
use crate::eval::RollModel;
use crate::tokenize::skip_spaces;
use crate::tokenize::spec_next;
use crate::tokenize::spec_next_pos;
use crate::tokenize::spec_next_token;
use crate::tokenize::Token;
use crate::tokenize::TokenModel;
use crate::tokenize::Tokenizer;
use vstd::prelude::*;

verus! {

/// The models of a stack of tokens, in order.
pub open spec fn models(s: Seq<Token>) -> Seq<TokenModel>
    decreases s.len(),
{
    if s.len() == 0 {
        Seq::empty()
    } else {
        models(s.drop_last()).push(s.last().model())
    }
}

pub proof fn lemma_models_index(s: Seq<Token>)
    ensures
        models(s).len() == s.len(),
        forall|i: int| 0 <= i < s.len() ==> models(s)[i] == (#[trigger] s[i]).model(),
    decreases s.len(),
{
    if s.len() > 0 {
        lemma_models_index(s.drop_last());
        assert forall|i: int| 0 <= i < s.len() implies models(s)[i] == (#[trigger] s[i]).model() by {
            if i < s.len() - 1 {
                assert(s[i] == s.drop_last()[i]);
                assert(models(s)[i] == models(s.drop_last())[i]);
            } else {
                assert(s[i] == s.last());
            }
        }
    }
}

/// The precedence of the held lookahead token; an empty lookahead never
/// defers a reduction.
pub open spec fn lookahead_precedence(look: Option<TokenModel>) -> u32 {
    match look {
        Some(t) => t.spec_precedence(),
        None => 0,
    }
}

/// A fresh binary operator node.
pub open spec fn binary_model(op: Operation, a: ExpModel, b: ExpModel) -> ExpModel {
    ExpModel::Op(OpModel { operation: op, arguments: seq![a, b] })
}

/// What the suffix of the stack starting at `split` reduces to, if
/// anything, under the held lookahead. The rules, in matching priority:
/// a lone number becomes a constant; parentheses around an expression
/// erase; an operator between two expressions merges into an existing
/// operator node of the same operator (keeping chains flat) or forms a
/// fresh binary node, but only when the lookahead does not bind tighter;
/// `d` before an expression becomes a one-die roll; an expression before a
/// roll becomes that roll's dice count; a keep marker after a roll sets
/// its keep rule.
pub open spec fn spec_reduced(
    stack: Seq<TokenModel>,
    look: Option<TokenModel>,
    split: int,
) -> Option<ExpModel>
    recommends
        0 <= split < stack.len(),
{
    let sfx = stack.skip(split);
    if sfx.len() == 1 {
        match sfx[0] {
            TokenModel::Number(n) => Some(ExpModel::Const(n)),
            _ => None,
        }
    } else if sfx.len() == 2 {
        match (sfx[0], sfx[1]) {
            (TokenModel::Die, TokenModel::Expression(sides)) => Some(
                ExpModel::Roll(
                    Box::new(
                        RollModel { dice: ExpModel::Const(1), sides, keep: KeepModel::All },
                    ),
                ),
            ),
            (TokenModel::Expression(dice), TokenModel::Expression(ExpModel::Roll(r))) => Some(
                ExpModel::Roll(Box::new(RollModel { dice, sides: r.sides, keep: r.keep })),
            ),
            _ => None,
        }
    } else if sfx.len() == 3 {
        match (sfx[0], sfx[1], sfx[2]) {
            (TokenModel::OpenParen, TokenModel::Expression(e), TokenModel::CloseParen) => Some(e),
            (
                TokenModel::Expression(lhs),
                TokenModel::Operation(op),
                TokenModel::Expression(ExpModel::Op(rhs)),
            ) => {
                if op.spec_precedence() < lookahead_precedence(look) {
                    None
                } else if op == rhs.operation {
                    Some(
                        ExpModel::Op(
                            OpModel { operation: op, arguments: seq![lhs] + rhs.arguments },
                        ),
                    )
                } else {
                    Some(binary_model(op, lhs, ExpModel::Op(rhs)))
                }
            },
            (
                TokenModel::Expression(ExpModel::Op(lhs)),
                TokenModel::Operation(op),
                TokenModel::Expression(rhs),
            ) => {
                if op.spec_precedence() < lookahead_precedence(look) {
                    None
                } else if lhs.operation == op {
                    Some(
                        ExpModel::Op(
                            OpModel { operation: op, arguments: lhs.arguments.push(rhs) },
                        ),
                    )
                } else {
                    Some(binary_model(op, ExpModel::Op(lhs), rhs))
                }
            },
            (
                TokenModel::Expression(a),
                TokenModel::Operation(op),
                TokenModel::Expression(b),
            ) => {
                if op.spec_precedence() < lookahead_precedence(look) {
                    None
                } else {
                    Some(binary_model(op, a, b))
                }
            },
            (
                TokenModel::Expression(ExpModel::Roll(r)),
                TokenModel::KeepHighest,
                TokenModel::Expression(n),
            ) => Some(
                ExpModel::Roll(
                    Box::new(
                        RollModel {
                            dice: r.dice,
                            sides: r.sides,
                            keep: KeepModel::Highest(Box::new(n)),
                        },
                    ),
                ),
            ),
            (
                TokenModel::Expression(ExpModel::Roll(r)),
                TokenModel::KeepLowest,
                TokenModel::Expression(n),
            ) => Some(
                ExpModel::Roll(
                    Box::new(
                        RollModel {
                            dice: r.dice,
                            sides: r.sides,
                            keep: KeepModel::Lowest(Box::new(n)),
                        },
                    ),
                ),
            ),
            _ => None,
        }
    } else {
        None
    }
}

/// The rightmost reducible split at or below `split`, with what it reduces
/// to: the scan tries the shortest suffix first and restarts from the
/// stack's end after every successful reduction.
pub open spec fn spec_reduce_once(
    stack: Seq<TokenModel>,
    look: Option<TokenModel>,
    split: int,
) -> Option<(int, ExpModel)>
    decreases split + 1,
{
    if split < 0 {
        None
    } else {
        match spec_reduced(stack, look, split) {
            Some(e) => Some((split, e)),
            None => spec_reduce_once(stack, look, split - 1),
        }
    }
}

/// How many stack items are not yet expressions; reductions never increase
/// this, and it strictly falls whenever a lone number is reduced.
pub open spec fn non_expr_count(s: Seq<TokenModel>) -> nat
    decreases s.len(),
{
    if s.len() == 0 {
        0
    } else {
        non_expr_count(s.drop_last()) + (if s.last() is Expression {
            0nat
        } else {
            1nat
        })
    }
}

pub proof fn lemma_non_expr_count_split(s: Seq<TokenModel>, k: int)
    requires
        0 <= k <= s.len(),
    ensures
        non_expr_count(s) == non_expr_count(s.take(k)) + non_expr_count(s.skip(k)),
    decreases s.len(),
{
    if k == s.len() {
        assert(s.take(k) =~= s);
        assert(s.skip(k) =~= Seq::empty());
    } else {
        lemma_non_expr_count_split(s.drop_last(), k);
        assert(s.take(k) =~= s.drop_last().take(k));
        assert(s.skip(k) =~= s.drop_last().skip(k).push(s.last()));
        assert(non_expr_count(s.skip(k)) == non_expr_count(s.drop_last().skip(k)) + (
        if s.last() is Expression {
            0nat
        } else {
            1nat
        })) by {
            assert(s.skip(k).drop_last() =~= s.drop_last().skip(k));
            assert(s.skip(k).last() == s.last());
        }
    }
}

/// The stack after applying one successful reduction at `split`.
pub open spec fn reduced_stack(stack: Seq<TokenModel>, split: int, e: ExpModel) -> Seq<
    TokenModel,
> {
    stack.take(split).push(TokenModel::Expression(e))
}

pub proof fn lemma_reduce_once_bounds(
    stack: Seq<TokenModel>,
    look: Option<TokenModel>,
    split: int,
)
    ensures
        match spec_reduce_once(stack, look, split) {
            Some((sp, e)) => 0 <= sp <= split && spec_reduced(stack, look, sp) == Some(e),
            None => true,
        },
    decreases split + 1,
{
    if split >= 0 && spec_reduced(stack, look, split) is None {
        lemma_reduce_once_bounds(stack, look, split - 1);
    }
}

/// A successful reduction strictly shrinks the pair (count of
/// non-expression items, stack length) in lexicographic order.
pub proof fn lemma_reduce_step_measure(stack: Seq<TokenModel>, look: Option<TokenModel>)
    requires
        spec_reduce_once(stack, look, stack.len() - 1) is Some,
    ensures
        ({
            let (split, e) = spec_reduce_once(stack, look, stack.len() - 1)->Some_0;
            let next = reduced_stack(stack, split, e);
            non_expr_count(next) < non_expr_count(stack) || (non_expr_count(next)
                == non_expr_count(stack) && next.len() < stack.len())
        }),
{
    let (split, e) = spec_reduce_once(stack, look, stack.len() - 1)->Some_0;
    lemma_reduce_once_bounds(stack, look, stack.len() - 1);
    let sfx = stack.skip(split);
    let next = reduced_stack(stack, split, e);
    lemma_non_expr_count_split(stack, split);
    assert(non_expr_count(next) == non_expr_count(stack.take(split))) by {
        assert(next.drop_last() =~= stack.take(split));
    }
    if sfx.len() == 1 {
        assert(sfx[0] is Number);
        assert(non_expr_count(sfx) == 1) by {
            assert(sfx.drop_last() =~= Seq::empty());
            assert(sfx.last() == sfx[0]);
        }
    } else {
        assert(sfx.len() >= 2);
        assert(next.len() < stack.len());
    }
}

/// The stack after reducing to fixpoint: reductions are applied, rightmost
/// match first, until no rule fires.
pub open spec fn spec_reduce_fix(stack: Seq<TokenModel>, look: Option<TokenModel>) -> Seq<
    TokenModel,
>
    decreases non_expr_count(stack), stack.len(),
    via spec_reduce_fix_decreases
{
    match spec_reduce_once(stack, look, stack.len() - 1) {
        Some((split, e)) => spec_reduce_fix(reduced_stack(stack, split, e), look),
        None => stack,
    }
}

#[via_fn]
proof fn spec_reduce_fix_decreases(stack: Seq<TokenModel>, look: Option<TokenModel>) {
    if spec_reduce_once(stack, look, stack.len() - 1) is Some {
        lemma_reduce_step_measure(stack, look);
    }
}

/// Shifting a token: the held lookahead (if any) moves onto the stack and
/// the new token becomes the lookahead.
pub open spec fn spec_push(
    stack: Seq<TokenModel>,
    look: Option<TokenModel>,
    t: TokenModel,
) -> (Seq<TokenModel>, Option<TokenModel>) {
    match look {
        Some(l) => (stack.push(l), Some(t)),
        None => (stack, Some(t)),
    }
}

/// What the builder yields once the token stream is exhausted: the stack
/// must hold exactly one item, and that item must be an expression.
pub open spec fn spec_build(stack: Seq<TokenModel>) -> Result<ExpModel, ParseError> {
    if stack.len() != 1 {
        Err(ParseError::Unreduced)
    } else {
        match stack[0] {
            TokenModel::Expression(e) => Ok(e),
            _ => Err(ParseError::NotAnExpression),
        }
    }
}

/// Run the whole pipeline from position `pos`: draw tokens one at a time,
/// shift each and reduce to fixpoint, until the stream is exhausted (the
/// final state) or a lexical error stops everything.
pub open spec fn spec_run(
    s: Seq<char>,
    pos: int,
    eof: bool,
    stack: Seq<TokenModel>,
    look: Option<TokenModel>,
) -> Result<(Seq<TokenModel>, Option<TokenModel>), ParseError>
    decreases
            s.len() - pos,
            (if eof {
                0int
            } else {
                1int
            }),
    via spec_run_decreases
{
    match spec_next(s, pos, eof) {
        None => Ok((stack, look)),
        Some(Err(e)) => Err(e),
        Some(Ok(t)) => {
            let (stack1, look1) = spec_push(stack, look, t);
            let stack2 = spec_reduce_fix(stack1, look1);
            spec_run(
                s,
                spec_next_pos(s, pos),
                eof || skip_spaces(s, pos) >= s.len(),
                stack2,
                look1,
            )
        },
    }
}

#[via_fn]
proof fn spec_run_decreases(
    s: Seq<char>,
    pos: int,
    eof: bool,
    stack: Seq<TokenModel>,
    look: Option<TokenModel>,
) {
    lemma_next_pos_advances(s, pos);
}

/// While input remains, one `next` call advances the position strictly;
/// with only whitespace left, the position stops at the skip point.
pub proof fn lemma_next_pos_advances(s: Seq<char>, pos: int)
    ensures
        skip_spaces(s, pos) < s.len() && spec_next_token(s, skip_spaces(s, pos)) is Ok
            ==> spec_next_pos(s, pos) > pos,
        spec_next_pos(s, pos) >= pos,
        pos <= s.len() ==> spec_next_pos(s, pos) <= s.len(),
{
    lemma_skip_spaces_bounds(s, pos);
    let p = skip_spaces(s, pos);
    if 0 <= p < s.len() {
        lemma_nonspace_at_skip(s, pos);
        lemma_next_token_bounds(s, p);
    }
}

proof fn lemma_skip_spaces_bounds(s: Seq<char>, i: int)
    ensures
        skip_spaces(s, i) >= i,
        i <= s.len() ==> skip_spaces(s, i) <= s.len(),
        skip_spaces(s, skip_spaces(s, i)) == skip_spaces(s, i),
    decreases s.len() - i,
{
    if 0 <= i < s.len() && crate::tokenize::is_space(s[i]) {
        lemma_skip_spaces_bounds(s, i + 1);
    }
}

proof fn lemma_scan_number_bounds(s: Seq<char>, i: int)
    ensures
        crate::tokenize::scan_number_end(s, i) >= i,
        i <= s.len() ==> crate::tokenize::scan_number_end(s, i) <= s.len(),
    decreases s.len() - i,
{
    if 0 <= i < s.len() && crate::tokenize::is_digit(s[i]) {
        lemma_scan_number_bounds(s, i + 1);
    }
}

/// At a non-whitespace position, a successful token scan moves strictly
/// forward and never past the end of the input.
proof fn lemma_next_token_bounds(s: Seq<char>, i: int)
    requires
        0 <= i < s.len(),
        !crate::tokenize::is_space(s[i]),
    ensures
        match spec_next_token(s, i) {
            Ok((_, j)) => i < j <= s.len(),
            Err(_) => true,
        },
{
    if crate::tokenize::is_digit(s[i]) {
        lemma_scan_number_bounds(s, i + 1);
    }
    if s[i] == '-' && i + 1 < s.len() && crate::tokenize::is_digit(s[i + 1]) {
        lemma_scan_number_bounds(s, i + 2);
    }
}

/// The character at the skip point is not whitespace.
proof fn lemma_nonspace_at_skip(s: Seq<char>, i: int)
    requires
        0 <= skip_spaces(s, i) < s.len(),
    ensures
        !crate::tokenize::is_space(s[skip_spaces(s, i)]),
    decreases s.len() - i,
{
    if 0 <= i < s.len() && crate::tokenize::is_space(s[i]) {
        lemma_nonspace_at_skip(s, i + 1);
    } else {
        if 0 <= i < s.len() {
            assert(skip_spaces(s, i) == i);
        }
    }
}

/// What parsing an input yields: the final builder state collapsed to a
/// single expression, or the first error on the way there.
pub open spec fn spec_parse(s: Seq<char>) -> Result<ExpModel, ParseError> {
    match spec_run(s, 0, false, Seq::empty(), None) {
        Ok((stack, _)) => spec_build(stack),
        Err(e) => Err(e),
    }
}

/// The token scanner never yields a partial expression: those only arise
/// from reductions.
proof fn lemma_next_token_not_expression(s: Seq<char>, i: int)
    ensures
        match spec_next_token(s, i) {
            Ok((t, _)) => !(t is Expression),
            Err(_) => true,
        },
    decreases s.len() - i,
{
    if 0 <= i < s.len() && crate::tokenize::is_space(s[i]) {
        lemma_next_token_not_expression(s, i + 1);
    }
}

/// Parse a dice-notation input into an expression tree: lex and shift one
/// token at a time, reduce to fixpoint after every shift, and require
/// exactly one expression at the end.
pub fn parse(input: &str) -> (r: Result<Exp, ParseError>)
    ensures
        match spec_parse(input@) {
            Ok(em) => r matches Ok(e) && e.model() == em && e.wf(),
            Err(pe) => (r matches Err(q) && q == pe),
        },
{
    let ghost s = input@;
    let mut tokens = Tokenizer::new(input);
    let mut exp_builder = ExpBuilder::default();
    proof {
        assert(exp_builder.stack_model() =~= Seq::<TokenModel>::empty());
    }
    loop
        invariant
            tokens.spec_input() == s,
            s == input@,
            0 <= tokens.spec_position() <= s.len(),
            exp_builder.inv(),
            spec_run(s, 0, false, Seq::empty(), None) == spec_run(
                s,
                tokens.spec_position(),
                tokens.spec_passed_eof(),
                exp_builder.stack_model(),
                exp_builder.look_model(),
            ),
        ensures
            exp_builder.inv(),
            spec_run(s, 0, false, Seq::empty(), None) == Result::<
                (Seq<TokenModel>, Option<TokenModel>),
                ParseError,
            >::Ok((exp_builder.stack_model(), exp_builder.look_model())),
        decreases
                s.len() - tokens.spec_position(),
                (if tokens.spec_passed_eof() {
                    0int
                } else {
                    1int
                }),
    {
        let ghost pre_pos = tokens.spec_position();
        let ghost pre_eof = tokens.spec_passed_eof();
        let next = tokens.next();
        match next {
            None => {
                proof {
                    assert(spec_run(s, pre_pos, pre_eof, exp_builder.stack_model(),
                    exp_builder.look_model()) == Result::<
                        (Seq<TokenModel>, Option<TokenModel>),
                        ParseError,
                    >::Ok((exp_builder.stack_model(), exp_builder.look_model())));
                }
                break ;
            },
            Some(Err(e)) => {
                proof {
                    assert(spec_run(s, pre_pos, pre_eof, exp_builder.stack_model(),
                    exp_builder.look_model()) == Result::<
                        (Seq<TokenModel>, Option<TokenModel>),
                        ParseError,
                    >::Err(e));
                }
                return Err(e);
            },
            Some(Ok(token)) => {
                let ghost t = token.model();
                let ghost stack0 = exp_builder.stack_model();
                let ghost look0 = exp_builder.look_model();
                proof {
                    lemma_next_token_not_expression(s, skip_spaces(s, pre_pos));
                    lemma_spec_next_token_skip_agree(s, pre_pos);
                    if token is Expression {
                        assert(t is Expression);
                        assert(false);
                    }
                    assert(token_wf(token));
                }
                exp_builder.push(token);
                let ghost stack1 = exp_builder.stack_model();
                let ghost look1 = exp_builder.look_model();
                proof {
                    assert((stack1, look1) == spec_push(stack0, look0, t));
                }
                loop
                    invariant
                        exp_builder.inv(),
                        exp_builder.look_model() == look1,
                        spec_reduce_fix(stack1, look1) == spec_reduce_fix(
                            exp_builder.stack_model(),
                            look1,
                        ),
                    ensures
                        exp_builder.inv(),
                        exp_builder.look_model() == look1,
                        exp_builder.stack_model() == spec_reduce_fix(stack1, look1),
                    decreases
                            non_expr_count(exp_builder.stack_model()),
                            exp_builder.stack_model().len(),
                {
                    let ghost cur = exp_builder.stack_model();
                    if !exp_builder.reduce() {
                        proof {
                            assert(spec_reduce_fix(cur, look1) == cur);
                        }
                        break ;
                    }
                    proof {
                        lemma_reduce_step_measure(cur, look1);
                        assert(spec_reduce_fix(cur, look1) == spec_reduce_fix(
                            exp_builder.stack_model(),
                            look1,
                        ));
                    }
                }
                proof {
                    assert(spec_run(s, pre_pos, pre_eof, stack0, look0) == spec_run(
                        s,
                        tokens.spec_position(),
                        tokens.spec_passed_eof(),
                        exp_builder.stack_model(),
                        exp_builder.look_model(),
                    ));
                    lemma_next_pos_advances(s, pre_pos);
                }
            },
        }
    }
    exp_builder.build()
}

/// The position the tokenizer reports after a scan agrees with the spec
/// scan started before the whitespace.
proof fn lemma_spec_next_token_skip_agree(s: Seq<char>, i: int)
    ensures
        spec_next_token(s, i) == spec_next_token(s, skip_spaces(s, i)),
    decreases s.len() - i,
{
    if 0 <= i < s.len() && crate::tokenize::is_space(s[i]) {
        lemma_spec_next_token_skip_agree(s, i + 1);
    }
}

/// A token the builder may hold: partial expressions must be well-formed.
pub open spec fn token_wf(t: Token) -> bool {
    match t {
        Token::Expression(e) => e.wf(),
        _ => true,
    }
}

/// The expression builder: a growing stack of shifted tokens and partial
/// expressions, plus one token of lookahead whose precedence gates the
/// arithmetic reductions.
#[derive(Debug)]
pub struct ExpBuilder {
    lookahead: Option<Token>,
    tokens: Vec<Token>,
}

impl ExpBuilder {
    /// The models of the stack items, bottom first.
    pub closed spec fn stack_model(&self) -> Seq<TokenModel> {
        models(self.tokens@)
    }

    /// The model of the held lookahead token.
    pub closed spec fn look_model(&self) -> Option<TokenModel> {
        match self.lookahead {
            Some(t) => Some(t.model()),
            None => None,
        }
    }

    /// Every partial expression on the stack or in the lookahead is
    /// well-formed.
    pub closed spec fn inv(&self) -> bool {
        &&& forall|i: int| 0 <= i < self.tokens@.len() ==> token_wf(#[trigger] self.tokens@[i])
        &&& match self.lookahead {
            Some(t) => token_wf(t),
            None => true,
        }
    }
}

impl Default for ExpBuilder {
    /// A builder with an empty stack and no lookahead.
    fn default() -> (b: ExpBuilder)
        ensures
            b.inv(),
            b.stack_model() == Seq::<TokenModel>::empty(),
            b.look_model() is None,
    {
        ExpBuilder { lookahead: None, tokens: Vec::new() }
    }
}

impl ExpBuilder {
    /// Shift: the held lookahead (if any) moves onto the stack, and the
    /// new token becomes the lookahead.
    pub fn push(&mut self, token: Token)
        requires
            old(self).inv(),
            token_wf(token),
        ensures
            final(self).inv(),
            (final(self).stack_model(), final(self).look_model()) == spec_push(
                old(self).stack_model(),
                old(self).look_model(),
                token.model(),
            ),
    {
        let prev = self.lookahead.take();
        self.lookahead = Some(token);
        match prev {
            Some(t) => {
                let ghost pre = self.tokens@;
                self.tokens.push(t);
                proof {
                    assert(self.tokens@.drop_last() =~= pre);
                    assert(models(self.tokens@) == models(pre).push(t.model()));
                    assert forall|i: int| 0 <= i < self.tokens@.len() implies token_wf(
                        #[trigger] self.tokens@[i],
                    ) by {
                        if i < self.tokens@.len() - 1 {
                            assert(self.tokens@[i] == pre[i]);
                        }
                    }
                }
            },
            None => {},
        }
    }

    fn lookahead_prec(&self) -> (p: u32)
        ensures
            p == lookahead_precedence(self.look_model()),
    {
        match &self.lookahead {
            Some(t) => t.precedence(),
            None => 0,
        }
    }

    /// Try the one reduction rule whose pattern fits the stack suffix
    /// starting at `split`, if any; on a match the suffix is replaced by a
    /// single expression token.
    fn try_reduce_at(&mut self, split: usize) -> (r: bool)
        requires
            old(self).inv(),
            split < old(self).stack_model().len(),
        ensures
            final(self).inv(),
            final(self).look_model() == old(self).look_model(),
            r == (spec_reduced(old(self).stack_model(), old(self).look_model(), split as int)
                is Some),
            r ==> final(self).stack_model() == reduced_stack(
                old(self).stack_model(),
                split as int,
                spec_reduced(old(self).stack_model(), old(self).look_model(), split as int)
                    ->Some_0,
            ),
            !r ==> final(self).stack_model() == old(self).stack_model(),
    {
        proof {
            lemma_models_index(self.tokens@);
        }
        let ghost m0 = self.stack_model();
        let ghost lk = self.look_model();
        let ghost sfx = m0.skip(split as int);
        let n = self.tokens.len();
        let sfx_len = n - split;
        proof {
            assert(sfx.len() == sfx_len);
            assert forall|k: int| 0 <= k < sfx.len() implies sfx[k] == (
            #[trigger] self.tokens@[split + k]).model() by {
                assert(sfx[k] == m0[split + k]);
            }
        }
        let lp = self.lookahead_prec();
        if sfx_len == 1 {
            let t0 = self.tokens.pop().unwrap();
            proof {
                assert(t0 == old(self).tokens@[split as int]);
                assert(sfx[0] == t0.model());
            }
            match t0 {
                Token::Number(num) => {
                    let ghost pre = self.tokens@;
                    self.tokens.push(Token::Expression(Exp::Const(num)));
                    proof {
                        let em = ExpModel::Const(num as int);
                        assert(spec_reduced(m0, lk, split as int) == Some(em));
                        lemma_models_index(self.tokens@);
                        assert(self.stack_model() =~= reduced_stack(m0, split as int, em)) by {
                            assert forall|i: int| 0 <= i < split implies self.stack_model()[i]
                                == m0.take(split as int)[i] by {
                                assert(self.tokens@[i] == old(self).tokens@[i]);
                            }
                        }
                        assert forall|i: int| 0 <= i < self.tokens@.len() implies token_wf(
                            #[trigger] self.tokens@[i],
                        ) by {
                            if i < split {
                                assert(self.tokens@[i] == old(self).tokens@[i]);
                            }
                        }
                    }
                    true
                },
                other => {
                    self.tokens.push(other);
                    proof {
                        assert(self.tokens@ =~= old(self).tokens@);
                        assert(spec_reduced(m0, lk, split as int) is None);
                    }
                    false
                },
            }
        } else if sfx_len == 2 {
            let t1 = self.tokens.pop().unwrap();
            let t0 = self.tokens.pop().unwrap();
            proof {
                assert(t0 == old(self).tokens@[split as int]);
                assert(t1 == old(self).tokens@[split + 1]);
                assert(sfx[0] == t0.model());
                assert(sfx[1] == t1.model());
            }
            match (t0, t1) {
                (Token::Die, Token::Expression(sides)) => {
                    let ghost gsides = sides;
                    let e = Exp::roll(Roll::simple(Exp::Const(1), sides));
                    self.tokens.push(Token::Expression(e));
                    proof {
                        let em = ExpModel::Roll(
                            Box::new(
                                RollModel {
                                    dice: ExpModel::Const(1),
                                    sides: gsides.model(),
                                    keep: KeepModel::All,
                                },
                            ),
                        );
                        assert(spec_reduced(m0, lk, split as int) == Some(em));
                        assert(Exp::Const(1i32).model() == ExpModel::Const(1));
                        assert((Keep::All).model() == KeepModel::All);
                        assert(e.model() == em);
                        assert(Exp::Const(1i32).wf());
                        assert((Keep::All).wf());
                        assert(gsides.wf());
                        assert(e.wf());
                        lemma_models_index(self.tokens@);
                        assert(self.stack_model() =~= reduced_stack(m0, split as int, em)) by {
                            assert forall|i: int| 0 <= i < split implies self.stack_model()[i]
                                == m0.take(split as int)[i] by {
                                assert(self.tokens@[i] == old(self).tokens@[i]);
                            }
                        }
                        assert forall|i: int| 0 <= i < self.tokens@.len() implies token_wf(
                            #[trigger] self.tokens@[i],
                        ) by {
                            if i < split {
                                assert(self.tokens@[i] == old(self).tokens@[i]);
                            }
                        }
                    }
                    true
                },
                (Token::Expression(dice), Token::Expression(Exp::Roll(roll_box))) => {
                    let ghost gdice = dice;
                    let rl = *roll_box;
                    let ghost grl = rl;
                    let e = Exp::Roll(Box::new(Roll { dice, sides: rl.sides, keep: rl.keep }));
                    self.tokens.push(Token::Expression(e));
                    proof {
                        assert(sfx[0] == TokenModel::Expression(gdice.model()));
                        assert(sfx[1] == TokenModel::Expression(
                            ExpModel::Roll(
                                Box::new(
                                    RollModel {
                                        dice: grl.dice.model(),
                                        sides: grl.sides.model(),
                                        keep: grl.keep.model(),
                                    },
                                ),
                            ),
                        ));
                        let em = spec_reduced(m0, lk, split as int)->Some_0;
                        assert(em == ExpModel::Roll(
                            Box::new(
                                RollModel {
                                    dice: gdice.model(),
                                    sides: grl.sides.model(),
                                    keep: grl.keep.model(),
                                },
                            ),
                        ));
                        assert(e.model() == em);
                        assert(e.wf());
                        lemma_models_index(self.tokens@);
                        assert(self.stack_model() =~= reduced_stack(m0, split as int, em)) by {
                            assert forall|i: int| 0 <= i < split implies self.stack_model()[i]
                                == m0.take(split as int)[i] by {
                                assert(self.tokens@[i] == old(self).tokens@[i]);
                            }
                        }
                        assert forall|i: int| 0 <= i < self.tokens@.len() implies token_wf(
                            #[trigger] self.tokens@[i],
                        ) by {
                            if i < split {
                                assert(self.tokens@[i] == old(self).tokens@[i]);
                            }
                        }
                    }
                    true
                },
                (a, b) => {
                    self.tokens.push(a);
                    self.tokens.push(b);
                    proof {
                        assert(self.tokens@ =~= old(self).tokens@);
                        assert(spec_reduced(m0, lk, split as int) is None);
                    }
                    false
                },
            }
        } else if sfx_len == 3 {
            let t2 = self.tokens.pop().unwrap();
            let t1 = self.tokens.pop().unwrap();
            let t0 = self.tokens.pop().unwrap();
            proof {
                assert(t0 == old(self).tokens@[split as int]);
                assert(t1 == old(self).tokens@[split + 1]);
                assert(t2 == old(self).tokens@[split + 2]);
                assert(sfx[0] == t0.model());
                assert(sfx[1] == t1.model());
                assert(sfx[2] == t2.model());
            }
            match (t0, t1, t2) {
                (Token::OpenParen, Token::Expression(e), Token::CloseParen) => {
                    self.tokens.push(Token::Expression(e));
                    proof {
                        let ghost em = spec_reduced(m0, lk, split as int)->Some_0;
                        assert(e.model() == em);
                        self.finish_reduce_proof(old(self), split as int, m0, lk);
                    }
                    true
                },
                (Token::Expression(lhs), Token::Operation(op), Token::Expression(
                    Exp::Op(mut rhs),
                )) => {
                    if op.precedence() < lp {
                        self.tokens.push(Token::Expression(lhs));
                        self.tokens.push(Token::Operation(op));
                        self.tokens.push(Token::Expression(Exp::Op(rhs)));
                        proof {
                            assert(self.tokens@ =~= old(self).tokens@);
                            assert(spec_reduced(m0, lk, split as int) is None);
                        }
                        false
                    } else if op == rhs.operation {
                        let ghost old_args = rhs.arguments@;
                        rhs.push_front(lhs);
                        let e = Exp::Op(rhs);
                        self.tokens.push(Token::Expression(e));
                        proof {
                            let ghost em = spec_reduced(m0, lk, split as int)->Some_0;
                            crate::eval::lemma_model_seq_index(old_args);
                            crate::eval::lemma_model_seq_index(old_args.insert(0, lhs));
                            old_args.insert_ensures(0, lhs);
                            assert(Exp::model_seq(old_args.insert(0, lhs)) =~= seq![lhs.model()]
                                + Exp::model_seq(old_args)) by {
                                assert forall|i: int|
                                    0 <= i < old_args.len() + 1 implies Exp::model_seq(
                                    old_args.insert(0, lhs),
                                )[i] == (seq![lhs.model()] + Exp::model_seq(old_args))[i] by {
                                    if i == 0 {
                                        assert(old_args.insert(0, lhs)[0] == lhs);
                                    } else {
                                        assert(old_args.insert(0, lhs)[i] == old_args[i - 1]);
                                    }
                                }
                            }
                            assert(e.model() == em);
                            crate::eval::lemma_exp_all_wf_equiv(old_args);
                            crate::eval::lemma_exp_all_wf_equiv(old_args.insert(0, lhs));
                            assert(e.wf());
                            self.finish_reduce_proof(old(self), split as int, m0, lk);
                        }
                        true
                    } else {
                        let ghost ga = lhs;
                        let ghost gb = Exp::Op(rhs);
                        let e = op.to_exp(lhs, Exp::Op(rhs));
                        self.tokens.push(Token::Expression(e));
                        proof {
                            let ghost em = spec_reduced(m0, lk, split as int)->Some_0;
                            crate::eval::lemma_model_seq_index(seq![ga, gb]);
                            assert(Exp::model_seq(seq![ga, gb]) =~= seq![ga.model(), gb.model()]);
                            assert(e.model() == em);
                            crate::eval::lemma_exp_all_wf_equiv(seq![ga, gb]);
                            assert(e.wf());
                            self.finish_reduce_proof(old(self), split as int, m0, lk);
                        }
                        true
                    }
                },
                (Token::Expression(Exp::Op(mut lhs)), Token::Operation(op), Token::Expression(
                    rhs,
                )) => {
                    if op.precedence() < lp {
                        self.tokens.push(Token::Expression(Exp::Op(lhs)));
                        self.tokens.push(Token::Operation(op));
                        self.tokens.push(Token::Expression(rhs));
                        proof {
                            assert(self.tokens@ =~= old(self).tokens@);
                            assert(spec_reduced(m0, lk, split as int) is None);
                        }
                        false
                    } else if lhs.operation == op {
                        let ghost old_args = lhs.arguments@;
                        lhs.push_back(rhs);
                        let e = Exp::Op(lhs);
                        self.tokens.push(Token::Expression(e));
                        proof {
                            let ghost em = spec_reduced(m0, lk, split as int)->Some_0;
                            crate::eval::lemma_model_seq_index(old_args);
                            crate::eval::lemma_model_seq_index(old_args.push(rhs));
                            assert(Exp::model_seq(old_args.push(rhs)) =~= Exp::model_seq(old_args)
                                .push(rhs.model())) by {
                                assert forall|i: int|
                                    0 <= i < old_args.len() + 1 implies Exp::model_seq(
                                    old_args.push(rhs),
                                )[i] == Exp::model_seq(old_args).push(rhs.model())[i] by {
                                    if i < old_args.len() {
                                        assert(old_args.push(rhs)[i] == old_args[i]);
                                    } else {
                                        assert(old_args.push(rhs)[i] == rhs);
                                    }
                                }
                            }
                            assert(e.model() == em);
                            crate::eval::lemma_exp_all_wf_equiv(old_args);
                            crate::eval::lemma_exp_all_wf_equiv(old_args.push(rhs));
                            assert(e.wf());
                            self.finish_reduce_proof(old(self), split as int, m0, lk);
                        }
                        true
                    } else {
                        let ghost ga = Exp::Op(lhs);
                        let ghost gb = rhs;
                        let e = op.to_exp(Exp::Op(lhs), rhs);
                        self.tokens.push(Token::Expression(e));
                        proof {
                            let ghost em = spec_reduced(m0, lk, split as int)->Some_0;
                            crate::eval::lemma_model_seq_index(seq![ga, gb]);
                            assert(Exp::model_seq(seq![ga, gb]) =~= seq![ga.model(), gb.model()]);
                            assert(e.model() == em);
                            crate::eval::lemma_exp_all_wf_equiv(seq![ga, gb]);
                            assert(e.wf());
                            self.finish_reduce_proof(old(self), split as int, m0, lk);
                        }
                        true
                    }
                },
                (Token::Expression(a), Token::Operation(op), Token::Expression(b)) => {
                    if op.precedence() < lp {
                        self.tokens.push(Token::Expression(a));
                        self.tokens.push(Token::Operation(op));
                        self.tokens.push(Token::Expression(b));
                        proof {
                            assert(self.tokens@ =~= old(self).tokens@);
                            assert(spec_reduced(m0, lk, split as int) is None);
                        }
                        false
                    } else {
                        let ghost ga = a;
                        let ghost gb = b;
                        let e = op.to_exp(a, b);
                        self.tokens.push(Token::Expression(e));
                        proof {
                            let ghost em = spec_reduced(m0, lk, split as int)->Some_0;
                            crate::eval::lemma_model_seq_index(seq![ga, gb]);
                            assert(Exp::model_seq(seq![ga, gb]) =~= seq![ga.model(), gb.model()]);
                            assert(e.model() == em);
                            crate::eval::lemma_exp_all_wf_equiv(seq![ga, gb]);
                            assert(e.wf());
                            self.finish_reduce_proof(old(self), split as int, m0, lk);
                        }
                        true
                    }
                },
                (Token::Expression(Exp::Roll(roll_box)), Token::KeepHighest, Token::Expression(
                    nexp,
                )) => {
                    let ghost gn = nexp;
                    let rl = *roll_box;
                    let ghost grl = rl;
                    let e = Exp::Roll(
                        Box::new(
                            Roll { dice: rl.dice, sides: rl.sides, keep: Keep::Highest(nexp) },
                        ),
                    );
                    self.tokens.push(Token::Expression(e));
                    proof {
                        assert(sfx[0] == TokenModel::Expression(
                            ExpModel::Roll(
                                Box::new(
                                    RollModel {
                                        dice: grl.dice.model(),
                                        sides: grl.sides.model(),
                                        keep: grl.keep.model(),
                                    },
                                ),
                            ),
                        ));
                        let ghost em = spec_reduced(m0, lk, split as int)->Some_0;
                        assert((Keep::Highest(gn)).model() == KeepModel::Highest(
                            Box::new(gn.model()),
                        ));
                        assert(e.model() == em);
                        assert(gn.wf());
                        assert((Keep::Highest(gn)).wf());
                        assert(grl.dice.wf() && grl.sides.wf());
                        assert(e.wf());
                        self.finish_reduce_proof(old(self), split as int, m0, lk);
                    }
                    true
                },
                (Token::Expression(Exp::Roll(roll_box)), Token::KeepLowest, Token::Expression(
                    nexp,
                )) => {
                    let ghost gn = nexp;
                    let rl = *roll_box;
                    let ghost grl = rl;
                    let e = Exp::Roll(
                        Box::new(
                            Roll { dice: rl.dice, sides: rl.sides, keep: Keep::Lowest(nexp) },
                        ),
                    );
                    self.tokens.push(Token::Expression(e));
                    proof {
                        assert(sfx[0] == TokenModel::Expression(
                            ExpModel::Roll(
                                Box::new(
                                    RollModel {
                                        dice: grl.dice.model(),
                                        sides: grl.sides.model(),
                                        keep: grl.keep.model(),
                                    },
                                ),
                            ),
                        ));
                        let ghost em = spec_reduced(m0, lk, split as int)->Some_0;
                        assert((Keep::Lowest(gn)).model() == KeepModel::Lowest(
                            Box::new(gn.model()),
                        ));
                        assert(e.model() == em);
                        assert(gn.wf());
                        assert((Keep::Lowest(gn)).wf());
                        assert(grl.dice.wf() && grl.sides.wf());
                        assert(e.wf());
                        self.finish_reduce_proof(old(self), split as int, m0, lk);
                    }
                    true
                },
                (a, b, c) => {
                    self.tokens.push(a);
                    self.tokens.push(b);
                    self.tokens.push(c);
                    proof {
                        assert(self.tokens@ =~= old(self).tokens@);
                        assert(spec_reduced(m0, lk, split as int) is None);
                    }
                    false
                },
            }
        } else {
            proof {
                assert(spec_reduced(m0, lk, split as int) is None);
            }
            false
        }
    }

    /// After a successful reduction at `split` has pushed the new
    /// expression token, the stack model is the reduced stack and the
    /// invariant holds.
    proof fn finish_reduce_proof(
        &self,
        prev: &Self,
        split: int,
        m0: Seq<TokenModel>,
        lk: Option<TokenModel>,
    )
        requires
            prev.inv(),
            m0 == prev.stack_model(),
            0 <= split < prev.tokens@.len(),
            self.tokens@.len() == split + 1,
            forall|i: int| 0 <= i < split ==> self.tokens@[i] == prev.tokens@[i],
            self.tokens@.last() matches Token::Expression(e) && e.wf(),
            spec_reduced(m0, lk, split) == Some(
                self.tokens@.last()->Expression_0.model(),
            ),
        ensures
            self.stack_model() == reduced_stack(m0, split, spec_reduced(m0, lk, split)->Some_0),
            forall|i: int| 0 <= i < self.tokens@.len() ==> token_wf(#[trigger] self.tokens@[i]),
    {
        lemma_models_index(prev.tokens@);
        lemma_models_index(self.tokens@);
        let target = reduced_stack(m0, split, spec_reduced(m0, lk, split)->Some_0);
        assert(self.stack_model().len() == split + 1);
        assert(target.len() == split + 1);
        assert forall|i: int| 0 <= i < split + 1 implies self.stack_model()[i] == target[i] by {
            if i < split {
                assert(self.tokens@[i] == prev.tokens@[i]);
                assert(self.stack_model()[i] == self.tokens@[i].model());
                assert(m0[i] == prev.tokens@[i].model());
                assert(target[i] == m0.take(split)[i]);
            } else {
                assert(self.stack_model()[i] == self.tokens@.last().model());
            }
        }
        assert(self.stack_model() =~= target);
        assert forall|i: int| 0 <= i < self.tokens@.len() implies token_wf(
            #[trigger] self.tokens@[i],
        ) by {
            if i < split {
                assert(self.tokens@[i] == prev.tokens@[i]);
            } else {
                assert(self.tokens@[i] == self.tokens@.last());
            }
        }
    }

    /// One reduction pass: scan the stack from its end for a suffix that a
    /// rule matches, apply the first (rightmost) match, and report whether
    /// anything fired.
    pub fn reduce(&mut self) -> (r: bool)
        requires
            old(self).inv(),
        ensures
            final(self).inv(),
            final(self).look_model() == old(self).look_model(),
            ({
                let step = spec_reduce_once(
                    old(self).stack_model(),
                    old(self).look_model(),
                    old(self).stack_model().len() - 1,
                );
                &&& r == (step is Some)
                &&& (r ==> final(self).stack_model() == reduced_stack(
                    old(self).stack_model(),
                    step->Some_0.0,
                    step->Some_0.1,
                ))
                &&& (!r ==> final(self).stack_model() == old(self).stack_model())
            }),
    {
        proof {
            lemma_models_index(self.tokens@);
        }
        let ghost m0 = self.stack_model();
        let ghost lk = self.look_model();
        let mut split = self.tokens.len();
        while split > 0
            invariant
                old(self).inv(),
                self.inv(),
                split <= self.tokens@.len(),
                m0 == old(self).stack_model(),
                lk == old(self).look_model(),
                self.stack_model() == m0,
                self.look_model() == lk,
                self.tokens@.len() == m0.len(),
                spec_reduce_once(m0, lk, m0.len() - 1) == spec_reduce_once(m0, lk, split - 1),
            decreases split,
        {
            split = split - 1;
            if self.try_reduce_at(split) {
                proof {
                    assert(spec_reduce_once(m0, lk, split as int) == Some(
                        (split as int, spec_reduced(m0, lk, split as int)->Some_0),
                    ));
                }
                return true;
            }
            proof {
                lemma_models_index(self.tokens@);
            }
        }
        false
    }

    /// Collapse the final builder state: exactly one stack item must be
    /// left, and it must be an expression.
    pub fn build(&mut self) -> (r: Result<Exp, ParseError>)
        requires
            old(self).inv(),
        ensures
            match spec_build(old(self).stack_model()) {
                Ok(em) => r matches Ok(e) && e.model() == em && e.wf(),
                Err(pe) => (r matches Err(q) && q == pe),
            },
    {
        proof {
            lemma_models_index(self.tokens@);
        }
        if self.tokens.len() != 1 {
            return Err(ParseError::Unreduced);
        }
        match self.tokens.pop() {
            Some(Token::Expression(exp)) => Ok(exp),
            _ => Err(ParseError::NotAnExpression),
        }
    }
}

} // verus!
