//! Turns the tokens of an infix expression into postfix (reverse Polish) order.
use crate::script8::lexer::{tokens_view, Token, TokenView};
use vstd::prelude::*;
use vstd::multiset::Multiset;

verus! {

/// Whether a token is an operator binding at least as tightly as `p`.
pub open spec fn binds_at_least(t: TokenView, p: u8) -> bool {
    t matches TokenView::Operator(_, q) && q >= p
}

/// Moves to the output, top first, the operators on top of the stack that bind
/// at least as tightly as `p`; stops at anything else.
pub open spec fn pop_binding(out: Seq<TokenView>, ops: Seq<TokenView>, p: u8) -> (Seq<TokenView>, Seq<TokenView>)
    decreases ops.len(),
{
    if ops.len() > 0 && binds_at_least(ops.last(), p) {
        pop_binding(out.push(ops.last()), ops.drop_last(), p)
    } else {
        (out, ops)
    }
}

/// Moves to the output, top first, what lies on the stack above the topmost
/// opening parenthesis, and drops that parenthesis.
pub open spec fn pop_to_open(out: Seq<TokenView>, ops: Seq<TokenView>) -> (Seq<TokenView>, Seq<TokenView>)
    decreases ops.len(),
{
    if ops.len() == 0 {
        (out, ops)
    } else if ops.last() is OpenParen {
        (out, ops.drop_last())
    } else {
        pop_to_open(out.push(ops.last()), ops.drop_last())
    }
}

/// One step of the shunting-yard algorithm: the output and operator stack after reading `t`.
pub open spec fn step(out: Seq<TokenView>, ops: Seq<TokenView>, t: TokenView) -> (Seq<TokenView>, Seq<TokenView>) {
    match t {
        TokenView::Operator(_, p) => {
            let (o, s) = pop_binding(out, ops, p);
            (o, s.push(t))
        },
        TokenView::NumericLiteral(_) => (out.push(t), ops),
        TokenView::OpenParen => (out, ops.push(t)),
        TokenView::CloseParen => pop_to_open(out, ops),
        _ => (out, ops),
    }
}

/// The output once the whole stack, top first, has been moved to it.
pub open spec fn flush(out: Seq<TokenView>, ops: Seq<TokenView>) -> Seq<TokenView>
    decreases ops.len(),
{
    if ops.len() == 0 {
        out
    } else {
        flush(out.push(ops.last()), ops.drop_last())
    }
}

/// The output after reading all of `ts`, starting from `out` and `ops`, and flushing.
pub open spec fn shunt(ts: Seq<TokenView>, out: Seq<TokenView>, ops: Seq<TokenView>) -> Seq<TokenView>
    decreases ts.len(),
{
    if ts.len() == 0 {
        flush(out, ops)
    } else {
        let (o, s) = step(out, ops, ts[0]);
        shunt(ts.drop_first(), o, s)
    }
}

/// The postfix form of the tokens `ts`.
pub open spec fn to_postfix(ts: Seq<TokenView>) -> Seq<TokenView> {
    shunt(ts, Seq::empty(), Seq::empty())
}

/// The number of opening parentheses in `s`.
pub open spec fn count_open(s: Seq<TokenView>) -> nat
    decreases s.len(),
{
    if s.len() == 0 {
        0
    } else {
        count_open(s.drop_last()) + if s.last() is OpenParen {
            1nat
        } else {
            0nat
        }
    }
}

/// Whether, with `depth` parentheses open before it, every closing parenthesis
/// of `ts` finds an open one to match.
pub open spec fn closable(ts: Seq<TokenView>, depth: nat) -> bool
    decreases ts.len(),
{
    if ts.len() == 0 {
        true
    } else {
        match ts[0] {
            TokenView::OpenParen => closable(ts.drop_first(), depth + 1),
            TokenView::CloseParen => depth > 0 && closable(ts.drop_first(), (depth - 1) as nat),
            _ => closable(ts.drop_first(), depth),
        }
    }
}

/// Every closing parenthesis of `ts` closes an earlier opening one.
pub open spec fn parens_closable(ts: Seq<TokenView>) -> bool {
    closable(ts, 0)
}

proof fn lemma_count_open_push(s: Seq<TokenView>, t: TokenView)
    ensures
        count_open(s.push(t)) == count_open(s) + if t is OpenParen {
            1nat
        } else {
            0nat
        },
{
    assert(s.push(t).drop_last() =~= s);
}

proof fn lemma_pop_binding_keeps_open(out: Seq<TokenView>, ops: Seq<TokenView>, p: u8)
    ensures
        count_open(pop_binding(out, ops, p).1) == count_open(ops),
    decreases ops.len(),
{
    if ops.len() > 0 && binds_at_least(ops.last(), p) {
        lemma_pop_binding_keeps_open(out.push(ops.last()), ops.drop_last(), p);
    }
}

proof fn lemma_pop_to_open_count(out: Seq<TokenView>, ops: Seq<TokenView>)
    requires
        count_open(ops) > 0,
    ensures
        count_open(pop_to_open(out, ops).1) + 1 == count_open(ops),
    decreases ops.len(),
{
    if ops.len() > 0 && !(ops.last() is OpenParen) {
        lemma_pop_to_open_count(out.push(ops.last()), ops.drop_last());
    }
}

/// After a step, the parentheses left open on the stack are those the rest of the input expects.
proof fn lemma_step_depth(out: Seq<TokenView>, ops: Seq<TokenView>, ts: Seq<TokenView>)
    requires
        ts.len() > 0,
        closable(ts, count_open(ops)),
    ensures
        closable(ts.drop_first(), count_open(step(out, ops, ts[0]).1)),
{
    let t = ts[0];
    match t {
        TokenView::Operator(_, p) => {
            lemma_pop_binding_keeps_open(out, ops, p);
            lemma_count_open_push(pop_binding(out, ops, p).1, t);
        },
        TokenView::OpenParen => {
            lemma_count_open_push(ops, t);
        },
        TokenView::CloseParen => {
            lemma_pop_to_open_count(out, ops);
        },
        _ => {},
    }
}

/// The precedence of an operator token.
fn precedence(t: &Token) -> (r: Option<u8>)
    ensures
        r matches Some(p) ==> t@ matches TokenView::Operator(_, q) && q == p,
        r is None ==> !(t@ is Operator),
{
    match t {
        Token::Operator(_, p) => Some(*p),
        _ => None,
    }
}

fn is_open_paren(t: &Token) -> (r: bool)
    ensures
        r == (t@ is OpenParen),
{
    match t {
        Token::OpenParen => true,
        _ => false,
    }
}

proof fn lemma_view_push(v: Seq<Box<Token>>, t: Box<Token>)
    ensures
        tokens_view(v.push(t)) == tokens_view(v).push(t@),
{
    assert(tokens_view(v.push(t)) =~= tokens_view(v).push(t@));
}

proof fn lemma_view_drop_last(v: Seq<Box<Token>>)
    requires
        v.len() > 0,
    ensures
        tokens_view(v.drop_last()) == tokens_view(v).drop_last(),
        tokens_view(v).last() == v.last()@,
{
    assert(tokens_view(v.drop_last()) =~= tokens_view(v).drop_last());
}

/// Converts an infix expression into postfix (reverse Polish) order with the
/// shunting-yard algorithm.
///
/// Numeric literals go straight to the output. An operator first moves to the
/// output the stacked operators that bind at least as tightly, then is stacked.
/// An opening parenthesis is stacked; a closing one moves to the output what
/// was stacked after the matching opening parenthesis and drops both. Other
/// tokens are left out. At the end the remaining stack goes to the output, top
/// first.
pub fn compute(tokens: Vec<Box<Token>>) -> (output: Vec<Box<Token>>)
    requires
        parens_closable(tokens_view(tokens@)),
    ensures
        tokens_view(output@) == to_postfix(tokens_view(tokens@)),
{
    let ghost ts = tokens_view(tokens@);
    let mut output: Vec<Box<Token>> = Vec::new();
    let mut operators: Vec<Box<Token>> = Vec::new();
    assert(ts.skip(0) =~= ts);
    assert(tokens_view(output@) =~= Seq::<TokenView>::empty());
    assert(tokens_view(operators@) =~= Seq::<TokenView>::empty());

    for token in it: tokens
        invariant
            ts == tokens_view(it.seq()),
            it.index() <= ts.len(),
            shunt(ts.skip(it.index() as int), tokens_view(output@), tokens_view(operators@))
                == to_postfix(ts),
            closable(ts.skip(it.index() as int), count_open(tokens_view(operators@))),
    {
        let ghost i = it.index() as int;
        let ghost rest = ts.skip(i);
        let ghost out0 = tokens_view(output@);
        let ghost ops0 = tokens_view(operators@);
        assert(rest.drop_first() =~= ts.skip(i + 1));
        assert(rest[0] == token@);
        proof {
            lemma_step_depth(out0, ops0, rest);
        }
        if let Some(pref) = precedence(&token) {
            let ghost target = pop_binding(out0, ops0, pref);
            while operators.len() > 0
                invariant
                    pop_binding(tokens_view(output@), tokens_view(operators@), pref) == target,
                ensures
                    (tokens_view(output@), tokens_view(operators@)) == target,
                decreases operators.len(),
            {
                let top = precedence(&operators[operators.len() - 1]);
                proof {
                    lemma_view_drop_last(operators@);
                }
                match top {
                    Some(top_pref) => {
                        if top_pref >= pref {
                            let op = operators.pop().unwrap();
                            proof {
                                lemma_view_push(output@, op);
                            }
                            output.push(op);
                        } else {
                            break;
                        }
                    },
                    None => {
                        break;
                    },
                }
            }
            proof {
                lemma_view_push(operators@, token);
            }
            operators.push(token);
        } else if is_open_paren(&token) {
            proof {
                lemma_view_push(operators@, token);
            }
            operators.push(token);
        } else {
            match &*token {
                Token::NumericLiteral(_) => {
                    proof {
                        lemma_view_push(output@, token);
                    }
                    output.push(token);
                },
                Token::CloseParen => {
                    let ghost target = pop_to_open(out0, ops0);
                    loop
                        invariant_except_break
                            pop_to_open(tokens_view(output@), tokens_view(operators@)) == target,
                            count_open(tokens_view(operators@)) > 0,
                        ensures
                            (tokens_view(output@), tokens_view(operators@)) == target,
                        decreases operators.len(),
                    {
                        proof {
                            if operators.len() == 0 {
                                assert(count_open(tokens_view(operators@)) == 0);
                            }
                            lemma_view_drop_last(operators@);
                        }
                        let operator = operators.pop().unwrap();
                        if is_open_paren(&operator) {
                            break;
                        } else {
                            proof {
                                lemma_view_push(output@, operator);
                            }
                            output.push(operator);
                        }
                    }
                },
                _ => {},
            }
        }
    }

    let ghost target = flush(tokens_view(output@), tokens_view(operators@));
    while operators.len() > 0
        invariant
            flush(tokens_view(output@), tokens_view(operators@)) == target,
        decreases operators.len(),
    {
        proof {
            lemma_view_drop_last(operators@);
        }
        let op = operators.pop().unwrap();
        proof {
            lemma_view_push(output@, op);
        }
        output.push(op);
    }
    output
}

/// The number of operators in `s`.
pub open spec fn operator_count(s: Seq<TokenView>) -> nat
    decreases s.len(),
{
    if s.len() == 0 {
        0
    } else {
        operator_count(s.drop_last()) + if s.last() is Operator {
            1nat
        } else {
            0nat
        }
    }
}

/// The height of the value stack after evaluating the postfix sequence `s`
/// from the left, or `None` if `s` holds anything but numbers and operators or
/// an operator finds fewer than two values.
pub open spec fn rpn_run(s: Seq<TokenView>) -> Option<nat>
    decreases s.len(),
{
    if s.len() == 0 {
        Some(0)
    } else {
        match rpn_run(s.drop_last()) {
            Some(n) => match s.last() {
                TokenView::NumericLiteral(_) => Some(n + 1),
                TokenView::Operator(_, _) => if n >= 2 {
                    Some((n - 1) as nat)
                } else {
                    None
                },
                _ => None,
            },
            None => None,
        }
    }
}

/// `s` is a well-formed postfix expression: it evaluates to exactly one value.
pub open spec fn is_valid_rpn(s: Seq<TokenView>) -> bool {
    rpn_run(s) == Some(1nat)
}

/// Whether `ts` completes an infix expression, with `depth` parentheses open
/// and an operand (a number or an opening parenthesis) expected first when
/// `operand` holds, an operator or a closing parenthesis otherwise.
pub open spec fn infix_from(ts: Seq<TokenView>, depth: nat, operand: bool) -> bool
    decreases ts.len(),
{
    if ts.len() == 0 {
        !operand && depth == 0
    } else if operand {
        match ts[0] {
            TokenView::NumericLiteral(_) => infix_from(ts.drop_first(), depth, false),
            TokenView::OpenParen => infix_from(ts.drop_first(), depth + 1, true),
            _ => false,
        }
    } else {
        match ts[0] {
            TokenView::Operator(_, _) => infix_from(ts.drop_first(), depth, true),
            TokenView::CloseParen => depth > 0 && infix_from(
                ts.drop_first(),
                (depth - 1) as nat,
                false,
            ),
            _ => false,
        }
    }
}

/// `ts` is an infix expression: numbers joined by operators, with balanced parentheses.
pub open spec fn is_infix_expression(ts: Seq<TokenView>) -> bool {
    infix_from(ts, 0, true)
}

/// The operator stack holds only operators and opening parentheses.
pub open spec fn stack_shaped(ops: Seq<TokenView>) -> bool {
    forall|i: int| 0 <= i < ops.len() ==> (#[trigger] ops[i] is Operator || ops[i] is OpenParen)
}

proof fn lemma_infix_closable(ts: Seq<TokenView>, depth: nat, operand: bool)
    requires
        infix_from(ts, depth, operand),
    ensures
        closable(ts, depth),
    decreases ts.len(),
{
    if ts.len() > 0 {
        match ts[0] {
            TokenView::NumericLiteral(_) => lemma_infix_closable(ts.drop_first(), depth, false),
            TokenView::OpenParen => lemma_infix_closable(ts.drop_first(), depth + 1, true),
            TokenView::Operator(_, _) => lemma_infix_closable(ts.drop_first(), depth, true),
            TokenView::CloseParen => lemma_infix_closable(
                ts.drop_first(),
                (depth - 1) as nat,
                false,
            ),
            _ => {},
        }
    }
}

proof fn lemma_operator_count_push(s: Seq<TokenView>, t: TokenView)
    ensures
        operator_count(s.push(t)) == operator_count(s) + if t is Operator {
            1nat
        } else {
            0nat
        },
{
    assert(s.push(t).drop_last() =~= s);
}

proof fn lemma_rpn_run_push(s: Seq<TokenView>, t: TokenView)
    ensures
        rpn_run(s.push(t)) == match rpn_run(s) {
            Some(n) => match t {
                TokenView::NumericLiteral(_) => Some(n + 1),
                TokenView::Operator(_, _) => if n >= 2 {
                    Some((n - 1) as nat)
                } else {
                    None
                },
                _ => None,
            },
            None => None,
        },
{
    assert(s.push(t).drop_last() =~= s);
}

/// Moving the top operator of a shaped stack to the output keeps the output
/// one value ahead of the operators still stacked.
proof fn lemma_move_top(out: Seq<TokenView>, ops: Seq<TokenView>)
    requires
        ops.len() > 0,
        ops.last() is Operator,
        stack_shaped(ops),
        rpn_run(out) == Some(operator_count(ops) + 1),
    ensures
        rpn_run(out.push(ops.last())) == Some(operator_count(ops.drop_last()) + 1),
        stack_shaped(ops.drop_last()),
        count_open(ops.drop_last()) == count_open(ops),
{
    lemma_rpn_run_push(out, ops.last());
    assert(ops == ops.drop_last().push(ops.last()));
    lemma_operator_count_push(ops.drop_last(), ops.last());
    lemma_count_open_push(ops.drop_last(), ops.last());
    lemma_shaped_drop_last(ops);
}

proof fn lemma_pop_binding_rpn(out: Seq<TokenView>, ops: Seq<TokenView>, p: u8)
    requires
        stack_shaped(ops),
        rpn_run(out) == Some(operator_count(ops) + 1),
    ensures
        stack_shaped(pop_binding(out, ops, p).1),
        rpn_run(pop_binding(out, ops, p).0) == Some(operator_count(pop_binding(out, ops, p).1) + 1),
        count_open(pop_binding(out, ops, p).1) == count_open(ops),
    decreases ops.len(),
{
    if ops.len() > 0 && binds_at_least(ops.last(), p) {
        lemma_move_top(out, ops);
        lemma_pop_binding_rpn(out.push(ops.last()), ops.drop_last(), p);
    }
}

proof fn lemma_pop_to_open_rpn(out: Seq<TokenView>, ops: Seq<TokenView>)
    requires
        stack_shaped(ops),
        count_open(ops) > 0,
        rpn_run(out) == Some(operator_count(ops) + 1),
    ensures
        stack_shaped(pop_to_open(out, ops).1),
        rpn_run(pop_to_open(out, ops).0) == Some(operator_count(pop_to_open(out, ops).1) + 1),
        count_open(pop_to_open(out, ops).1) + 1 == count_open(ops),
    decreases ops.len(),
{
    if ops.len() == 0 {
    } else if ops.last() is OpenParen {
        assert(ops == ops.drop_last().push(ops.last()));
        lemma_operator_count_push(ops.drop_last(), ops.last());
        lemma_count_open_push(ops.drop_last(), ops.last());
        lemma_shaped_drop_last(ops);
    } else {
        assert(ops[ops.len() - 1] is Operator || ops[ops.len() - 1] is OpenParen);
        lemma_move_top(out, ops);
        lemma_pop_to_open_rpn(out.push(ops.last()), ops.drop_last());
    }
}

proof fn lemma_count_open_zero(ops: Seq<TokenView>)
    requires
        count_open(ops) == 0,
        ops.len() > 0,
    ensures
        !(ops.last() is OpenParen),
{
}

proof fn lemma_flush_rpn(out: Seq<TokenView>, ops: Seq<TokenView>)
    requires
        stack_shaped(ops),
        count_open(ops) == 0,
        rpn_run(out) == Some(operator_count(ops) + 1),
    ensures
        is_valid_rpn(flush(out, ops)),
    decreases ops.len(),
{
    if ops.len() > 0 {
        lemma_count_open_zero(ops);
        assert(ops[ops.len() - 1] is Operator || ops[ops.len() - 1] is OpenParen);
        lemma_move_top(out, ops);
        lemma_flush_rpn(out.push(ops.last()), ops.drop_last());
    }
}

proof fn lemma_shunt_rpn(ts: Seq<TokenView>, out: Seq<TokenView>, ops: Seq<TokenView>, depth: nat, operand: bool)
    requires
        infix_from(ts, depth, operand),
        stack_shaped(ops),
        count_open(ops) == depth,
        rpn_run(out) == Some(operator_count(ops) + if operand {
            0nat
        } else {
            1nat
        }),
    ensures
        is_valid_rpn(shunt(ts, out, ops)),
    decreases ts.len(),
{
    if ts.len() == 0 {
        lemma_flush_rpn(out, ops);
    } else {
        let t = ts[0];
        let rest = ts.drop_first();
        let (o, s) = step(out, ops, t);
        match t {
            TokenView::NumericLiteral(_) => {
                lemma_rpn_run_push(out, t);
                lemma_shunt_rpn(rest, o, s, depth, false);
            },
            TokenView::OpenParen => {
                lemma_count_open_push(ops, t);
                lemma_operator_count_push(ops, t);
                lemma_shaped_push(ops, t);
                lemma_shunt_rpn(rest, o, s, depth + 1, true);
            },
            TokenView::Operator(_, p) => {
                lemma_pop_binding_rpn(out, ops, p);
                let (o1, s1) = pop_binding(out, ops, p);
                lemma_count_open_push(s1, t);
                lemma_operator_count_push(s1, t);
                lemma_shaped_push(s1, t);
                lemma_shunt_rpn(rest, o, s, depth, true);
            },
            TokenView::CloseParen => {
                lemma_pop_to_open_rpn(out, ops);
                lemma_shunt_rpn(rest, o, s, (depth - 1) as nat, false);
            },
            _ => {},
        }
    }
}

/// An infix expression (numbers joined by operators, with balanced
/// parentheses) can be converted, and converts to a well-formed postfix
/// expression: evaluating it from the left never lacks an operand and leaves
/// exactly one value.
pub proof fn infix_converts_to_valid_postfix(ts: Seq<TokenView>)
    requires
        is_infix_expression(ts),
    ensures
        parens_closable(ts),
        is_valid_rpn(to_postfix(ts)),
{
    lemma_infix_closable(ts, 0, true);
    lemma_shunt_rpn(ts, Seq::empty(), Seq::empty(), 0, true);
}

/// Holds of numeric literals.
pub open spec fn number_pred() -> spec_fn(TokenView) -> bool {
    |t: TokenView| t is NumericLiteral
}

/// Holds of operators.
pub open spec fn operator_pred() -> spec_fn(TokenView) -> bool {
    |t: TokenView| t is Operator
}

/// The numeric literals of `s`, in order.
pub open spec fn numbers(s: Seq<TokenView>) -> Seq<TokenView> {
    s.filter(number_pred())
}

/// The operators of `s`, counted with multiplicity and without order.
pub open spec fn operator_bag(s: Seq<TokenView>) -> Multiset<TokenView> {
    s.filter(operator_pred()).to_multiset()
}

proof fn lemma_bag_push(s: Seq<TokenView>, t: TokenView)
    ensures
        operator_bag(s.push(t)) == if t is Operator {
            operator_bag(s).insert(t)
        } else {
            operator_bag(s)
        },
        numbers(s.push(t)) == if t is NumericLiteral {
            numbers(s).push(t)
        } else {
            numbers(s)
        },
{
    broadcast use vstd::seq_lib::group_to_multiset_ensures;

    s.lemma_filter_push(t, operator_pred());
    s.lemma_filter_push(t, number_pred());
}

proof fn lemma_bag_prepend(s: Seq<TokenView>)
    requires
        s.len() > 0,
    ensures
        operator_bag(s) == if s[0] is Operator {
            operator_bag(s.drop_first()).insert(s[0])
        } else {
            operator_bag(s.drop_first())
        },
        numbers(s) == if s[0] is NumericLiteral {
            seq![s[0]] + numbers(s.drop_first())
        } else {
            numbers(s.drop_first())
        },
{
    broadcast use vstd::seq_lib::group_to_multiset_ensures;
    broadcast use vstd::multiset::group_multiset_axioms;

    assert(s == seq![s[0]] + s.drop_first());
    s.drop_first().lemma_filter_prepend(s[0], operator_pred());
    s.drop_first().lemma_filter_prepend(s[0], number_pred());
    let rest = s.drop_first().filter(operator_pred());
    if s[0] is Operator {
        vstd::seq_lib::lemma_multiset_commutative(seq![s[0]], rest);
        assert(seq![s[0]].to_multiset() =~= Multiset::empty().insert(s[0])) by {
            assert(seq![s[0]] =~= Seq::<TokenView>::empty().push(s[0]));
        }
        assert(operator_bag(s) =~= operator_bag(s.drop_first()).insert(s[0]));
    } else {
        assert(Seq::<TokenView>::empty() + rest =~= rest);
    }
    if !(s[0] is NumericLiteral) {
        assert(Seq::<TokenView>::empty() + numbers(s.drop_first()) =~= numbers(s.drop_first()));
    }
}

/// Moving the top of a shaped stack to the output loses and duplicates nothing.
proof fn lemma_move_top_keeps(out: Seq<TokenView>, ops: Seq<TokenView>)
    requires
        ops.len() > 0,
        stack_shaped(ops),
    ensures
        numbers(out.push(ops.last())) == numbers(out),
        operator_bag(out.push(ops.last())).add(operator_bag(ops.drop_last())) == operator_bag(
            out,
        ).add(operator_bag(ops)),
        stack_shaped(ops.drop_last()),
{
    broadcast use vstd::multiset::group_multiset_axioms;

    let top = ops.last();
    assert(ops[ops.len() - 1] is Operator || ops[ops.len() - 1] is OpenParen);
    lemma_bag_push(out, top);
    assert(ops == ops.drop_last().push(top));
    lemma_bag_push(ops.drop_last(), top);
    lemma_shaped_drop_last(ops);
    if top is Operator {
        assert(operator_bag(out.push(top)).add(operator_bag(ops.drop_last())) =~= operator_bag(
            out,
        ).add(operator_bag(ops)));
    }
}

proof fn lemma_pop_binding_keeps(out: Seq<TokenView>, ops: Seq<TokenView>, p: u8)
    requires
        stack_shaped(ops),
    ensures
        stack_shaped(pop_binding(out, ops, p).1),
        numbers(pop_binding(out, ops, p).0) == numbers(out),
        operator_bag(pop_binding(out, ops, p).0).add(operator_bag(pop_binding(out, ops, p).1))
            == operator_bag(out).add(operator_bag(ops)),
    decreases ops.len(),
{
    if ops.len() > 0 && binds_at_least(ops.last(), p) {
        lemma_move_top_keeps(out, ops);
        lemma_pop_binding_keeps(out.push(ops.last()), ops.drop_last(), p);
    }
}

proof fn lemma_pop_to_open_keeps(out: Seq<TokenView>, ops: Seq<TokenView>)
    requires
        stack_shaped(ops),
    ensures
        stack_shaped(pop_to_open(out, ops).1),
        numbers(pop_to_open(out, ops).0) == numbers(out),
        operator_bag(pop_to_open(out, ops).0).add(operator_bag(pop_to_open(out, ops).1))
            == operator_bag(out).add(operator_bag(ops)),
    decreases ops.len(),
{
    broadcast use vstd::multiset::group_multiset_axioms;

    if ops.len() == 0 {
    } else if ops.last() is OpenParen {
        assert(ops == ops.drop_last().push(ops.last()));
        lemma_bag_push(ops.drop_last(), ops.last());
        lemma_shaped_drop_last(ops);
    } else {
        lemma_move_top_keeps(out, ops);
        lemma_pop_to_open_keeps(out.push(ops.last()), ops.drop_last());
    }
}

proof fn lemma_flush_keeps(out: Seq<TokenView>, ops: Seq<TokenView>)
    requires
        stack_shaped(ops),
    ensures
        numbers(flush(out, ops)) == numbers(out),
        operator_bag(flush(out, ops)) == operator_bag(out).add(operator_bag(ops)),
    decreases ops.len(),
{
    broadcast use vstd::multiset::group_multiset_axioms;
    broadcast use vstd::seq_lib::group_to_multiset_ensures;

    if ops.len() > 0 {
        lemma_move_top_keeps(out, ops);
        lemma_flush_keeps(out.push(ops.last()), ops.drop_last());
    } else {
        assert(operator_bag(ops) =~= Multiset::empty()) by {
            assert(ops.filter(operator_pred()).len() == 0) by {
                ops.lemma_filter_len(operator_pred());
            }
        }
        assert(operator_bag(out).add(operator_bag(ops)) =~= operator_bag(out));
    }
}

proof fn lemma_shunt_keeps(ts: Seq<TokenView>, out: Seq<TokenView>, ops: Seq<TokenView>)
    requires
        stack_shaped(ops),
    ensures
        numbers(shunt(ts, out, ops)) == numbers(out) + numbers(ts),
        operator_bag(shunt(ts, out, ops)) == operator_bag(out).add(operator_bag(ops)).add(
            operator_bag(ts),
        ),
    decreases ts.len(),
{
    broadcast use vstd::multiset::group_multiset_axioms;
    broadcast use vstd::seq_lib::group_to_multiset_ensures;

    if ts.len() == 0 {
        lemma_flush_keeps(out, ops);
        assert(numbers(ts) =~= Seq::<TokenView>::empty()) by {
            ts.lemma_filter_len(number_pred());
        }
        assert(operator_bag(ts) =~= Multiset::empty()) by {
            ts.lemma_filter_len(operator_pred());
        }
        assert(numbers(out) + numbers(ts) =~= numbers(out));
        assert(operator_bag(out).add(operator_bag(ops)).add(operator_bag(ts)) =~= operator_bag(
            out,
        ).add(operator_bag(ops)));
    } else {
        let t = ts[0];
        let rest = ts.drop_first();
        let (o, s) = step(out, ops, t);
        lemma_bag_prepend(ts);
        match t {
            TokenView::NumericLiteral(_) => {
                lemma_bag_push(out, t);
                lemma_shunt_keeps(rest, o, s);
                assert(numbers(out) + numbers(ts) =~= numbers(o) + numbers(rest));
            },
            TokenView::OpenParen => {
                lemma_bag_push(ops, t);
                lemma_shaped_push(ops, t);
                lemma_shunt_keeps(rest, o, s);
            },
            TokenView::Operator(_, p) => {
                lemma_pop_binding_keeps(out, ops, p);
                let (o1, s1) = pop_binding(out, ops, p);
                lemma_bag_push(s1, t);
                lemma_shaped_push(s1, t);
                lemma_shunt_keeps(rest, o, s);
                assert(operator_bag(o).add(operator_bag(s)).add(operator_bag(rest)) =~= operator_bag(
                    out,
                ).add(operator_bag(ops)).add(operator_bag(ts)));
            },
            TokenView::CloseParen => {
                lemma_pop_to_open_keeps(out, ops);
                lemma_shunt_keeps(rest, o, s);
            },
            _ => {
                lemma_shunt_keeps(rest, o, s);
            },
        }
    }
}

/// Conversion keeps the numeric literals in the order they were written, and
/// keeps every operator: the operators of the result are those of the input,
/// each as often as there.
pub proof fn postfix_keeps_numbers_and_operators(ts: Seq<TokenView>)
    ensures
        numbers(to_postfix(ts)) == numbers(ts),
        operator_bag(to_postfix(ts)) == operator_bag(ts),
{
    broadcast use vstd::multiset::group_multiset_axioms;
    broadcast use vstd::seq_lib::group_to_multiset_ensures;

    let e = Seq::<TokenView>::empty();
    lemma_shunt_keeps(ts, e, e);
    assert(numbers(e) =~= e) by {
        e.lemma_filter_len(number_pred());
    }
    assert(operator_bag(e) =~= Multiset::empty()) by {
        e.lemma_filter_len(operator_pred());
    }
    assert(numbers(e) + numbers(ts) =~= numbers(ts));
    assert(operator_bag(e).add(operator_bag(e)).add(operator_bag(ts)) =~= operator_bag(ts));
}

/// Whether `ts`, with `depth` parentheses open before it, closes every
/// parenthesis it opens and every one open before it, and never closes one
/// that is not open.
pub open spec fn closes_all(ts: Seq<TokenView>, depth: nat) -> bool
    decreases ts.len(),
{
    if ts.len() == 0 {
        depth == 0
    } else {
        match ts[0] {
            TokenView::OpenParen => closes_all(ts.drop_first(), depth + 1),
            TokenView::CloseParen => depth > 0 && closes_all(ts.drop_first(), (depth - 1) as nat),
            _ => closes_all(ts.drop_first(), depth),
        }
    }
}

/// The parentheses of `ts` are balanced.
pub open spec fn parens_balanced(ts: Seq<TokenView>) -> bool {
    closes_all(ts, 0)
}

/// `s` holds numeric literals and operators only.
pub open spec fn numbers_and_operators(s: Seq<TokenView>) -> bool {
    forall|i: int| 0 <= i < s.len() ==> (#[trigger] s[i] is NumericLiteral || s[i] is Operator)
}

proof fn lemma_push_keeps_shape(out: Seq<TokenView>, t: TokenView)
    requires
        numbers_and_operators(out),
        t is NumericLiteral || t is Operator,
    ensures
        numbers_and_operators(out.push(t)),
{
    assert forall|i: int| 0 <= i < out.push(t).len() implies (#[trigger] out.push(t)[i] is NumericLiteral
        || out.push(t)[i] is Operator) by {
        if i < out.len() {
            assert(out.push(t)[i] == out[i]);
        }
    }
}

proof fn lemma_closes_all_closable(ts: Seq<TokenView>, depth: nat)
    requires
        closes_all(ts, depth),
    ensures
        closable(ts, depth),
    decreases ts.len(),
{
    if ts.len() > 0 {
        match ts[0] {
            TokenView::OpenParen => lemma_closes_all_closable(ts.drop_first(), depth + 1),
            TokenView::CloseParen => lemma_closes_all_closable(
                ts.drop_first(),
                (depth - 1) as nat,
            ),
            _ => lemma_closes_all_closable(ts.drop_first(), depth),
        }
    }
}

proof fn lemma_shaped_drop_last(ops: Seq<TokenView>)
    requires
        ops.len() > 0,
        stack_shaped(ops),
    ensures
        stack_shaped(ops.drop_last()),
        ops.last() is Operator || ops.last() is OpenParen,
{
    assert(ops[ops.len() - 1] is Operator || ops[ops.len() - 1] is OpenParen);
    assert forall|i: int| 0 <= i < ops.drop_last().len() implies (
    #[trigger] ops.drop_last()[i] is Operator || ops.drop_last()[i] is OpenParen) by {
        assert(ops.drop_last()[i] == ops[i]);
    }
}

proof fn lemma_shaped_push(ops: Seq<TokenView>, t: TokenView)
    requires
        stack_shaped(ops),
        t is Operator || t is OpenParen,
    ensures
        stack_shaped(ops.push(t)),
{
    assert forall|i: int| 0 <= i < ops.push(t).len() implies (#[trigger] ops.push(t)[i] is Operator
        || ops.push(t)[i] is OpenParen) by {
        if i < ops.len() {
            assert(ops.push(t)[i] == ops[i]);
        }
    }
}

proof fn lemma_pop_binding_shape(out: Seq<TokenView>, ops: Seq<TokenView>, p: u8)
    requires
        stack_shaped(ops),
        numbers_and_operators(out),
    ensures
        stack_shaped(pop_binding(out, ops, p).1),
        numbers_and_operators(pop_binding(out, ops, p).0),
        count_open(pop_binding(out, ops, p).1) == count_open(ops),
    decreases ops.len(),
{
    lemma_pop_binding_keeps_open(out, ops, p);
    if ops.len() > 0 && binds_at_least(ops.last(), p) {
        lemma_shaped_drop_last(ops);
        lemma_push_keeps_shape(out, ops.last());
        lemma_pop_binding_shape(out.push(ops.last()), ops.drop_last(), p);
    }
}

proof fn lemma_pop_to_open_shape(out: Seq<TokenView>, ops: Seq<TokenView>)
    requires
        stack_shaped(ops),
        numbers_and_operators(out),
        count_open(ops) > 0,
    ensures
        stack_shaped(pop_to_open(out, ops).1),
        numbers_and_operators(pop_to_open(out, ops).0),
        count_open(pop_to_open(out, ops).1) + 1 == count_open(ops),
    decreases ops.len(),
{
    lemma_pop_to_open_count(out, ops);
    if ops.len() > 0 {
        lemma_shaped_drop_last(ops);
        if !(ops.last() is OpenParen) {
            lemma_push_keeps_shape(out, ops.last());
            lemma_pop_to_open_shape(out.push(ops.last()), ops.drop_last());
        }
    }
}

proof fn lemma_flush_shape(out: Seq<TokenView>, ops: Seq<TokenView>)
    requires
        stack_shaped(ops),
        numbers_and_operators(out),
        count_open(ops) == 0,
    ensures
        numbers_and_operators(flush(out, ops)),
    decreases ops.len(),
{
    if ops.len() > 0 {
        lemma_shaped_drop_last(ops);
        lemma_count_open_zero(ops);
        lemma_count_open_push(ops.drop_last(), ops.last());
        assert(ops == ops.drop_last().push(ops.last()));
        lemma_push_keeps_shape(out, ops.last());
        lemma_flush_shape(out.push(ops.last()), ops.drop_last());
    }
}

proof fn lemma_shunt_shape(ts: Seq<TokenView>, out: Seq<TokenView>, ops: Seq<TokenView>, depth: nat)
    requires
        closes_all(ts, depth),
        stack_shaped(ops),
        count_open(ops) == depth,
        numbers_and_operators(out),
    ensures
        numbers_and_operators(shunt(ts, out, ops)),
    decreases ts.len(),
{
    if ts.len() == 0 {
        lemma_flush_shape(out, ops);
    } else {
        let t = ts[0];
        let rest = ts.drop_first();
        let (o, s) = step(out, ops, t);
        match t {
            TokenView::NumericLiteral(_) => {
                lemma_push_keeps_shape(out, t);
                lemma_shunt_shape(rest, o, s, depth);
            },
            TokenView::OpenParen => {
                lemma_count_open_push(ops, t);
                lemma_shaped_push(ops, t);
                lemma_shunt_shape(rest, o, s, depth + 1);
            },
            TokenView::Operator(_, p) => {
                lemma_pop_binding_shape(out, ops, p);
                lemma_count_open_push(pop_binding(out, ops, p).1, t);
                lemma_shaped_push(pop_binding(out, ops, p).1, t);
                lemma_shunt_shape(rest, o, s, depth);
            },
            TokenView::CloseParen => {
                lemma_pop_to_open_shape(out, ops);
                lemma_shunt_shape(rest, o, s, (depth - 1) as nat);
            },
            _ => {
                lemma_shunt_shape(rest, o, s, depth);
            },
        }
    }
}

/// Tokens with balanced parentheses can be converted, and convert to numbers
/// and operators only: every parenthesis is consumed, and identifiers,
/// keywords and indentation are left out.
pub proof fn balanced_converts_to_numbers_and_operators(ts: Seq<TokenView>)
    requires
        parens_balanced(ts),
    ensures
        parens_closable(ts),
        numbers_and_operators(to_postfix(ts)),
{
    lemma_closes_all_closable(ts, 0);
    lemma_shunt_shape(ts, Seq::empty(), Seq::empty(), 0);
}

} // verus!
