//! What the postfix form of an infix expression is, stated without the
//! shunting-yard algorithm: operators bind by precedence, equal precedences
//! group to the left, and parentheses group first.
use crate::script8::lexer::TokenView;
use crate::script8::parser::{
    binds_at_least, flush, infix_from, is_infix_expression, pop_binding, pop_to_open, shunt, step,
    to_postfix,
};
use vstd::prelude::*;

verus! {

/// How a token changes the parenthesis depth.
pub open spec fn paren_delta(t: TokenView) -> int {
    match t {
        TokenView::OpenParen => 1,
        TokenView::CloseParen => -1,
        _ => 0,
    }
}

/// Opening minus closing parentheses in `s`.
pub open spec fn net_depth(s: Seq<TokenView>) -> int
    decreases s.len(),
{
    if s.len() == 0 {
        0
    } else {
        net_depth(s.drop_last()) + paren_delta(s.last())
    }
}

/// Position `i` of `ts` holds an operator outside all parentheses.
pub open spec fn is_top_op(ts: Seq<TokenView>, i: int) -> bool {
    0 <= i < ts.len() && ts[i] is Operator && net_depth(ts.take(i)) == 0
}

/// The precedence of an operator; 256, above any operator's, for anything else.
pub open spec fn op_prec(t: TokenView) -> int {
    match t {
        TokenView::Operator(_, q) => q as int,
        _ => 256,
    }
}

/// Among the positions below `n`, the rightmost operator outside parentheses
/// that binds least tightly.
pub open spec fn split_upto(ts: Seq<TokenView>, n: nat) -> Option<int>
    decreases n,
{
    if n == 0 {
        None
    } else {
        let prev = split_upto(ts, (n - 1) as nat);
        let i = n - 1;
        if is_top_op(ts, i) && (prev is None || op_prec(ts[i]) <= op_prec(ts[prev->0])) {
            Some(i)
        } else {
            prev
        }
    }
}

/// The operator that an infix expression applies last: the rightmost of the
/// least tightly binding operators outside parentheses.
pub open spec fn split_point(ts: Seq<TokenView>) -> Option<int> {
    split_upto(ts, ts.len())
}

/// The precedence of the operator applied last, or 256 when there is none.
pub open spec fn loosest_prec(ts: Seq<TokenView>) -> int {
    match split_point(ts) {
        Some(k) => op_prec(ts[k]),
        None => 256,
    }
}

pub proof fn lemma_split_upto(ts: Seq<TokenView>, n: nat)
    requires
        n <= ts.len(),
    ensures
        split_upto(ts, n) matches Some(k) ==> {
            &&& 0 <= k < n
            &&& is_top_op(ts, k)
            &&& forall|i: int| 0 <= i < n && #[trigger] is_top_op(ts, i) ==> op_prec(ts[i]) >= op_prec(ts[k])
            &&& forall|i: int| k < i < n && #[trigger] is_top_op(ts, i) ==> op_prec(ts[i]) > op_prec(ts[k])
        },
        split_upto(ts, n) is None ==> forall|i: int| 0 <= i < n ==> !#[trigger] is_top_op(ts, i),
    decreases n,
{
    if n > 0 {
        lemma_split_upto(ts, (n - 1) as nat);
    }
}

/// The postfix form that precedence gives an infix expression: split at the
/// operator applied last (see [`split_point`]), the postfix forms of the two
/// sides followed by that operator; an expression with no operator outside
/// parentheses is a number, itself, or a parenthesized expression, the
/// postfix form of its inside.
pub open spec fn rpn_of(ts: Seq<TokenView>) -> Seq<TokenView>
    decreases ts.len(),
{
    match split_point(ts) {
        Some(k) => {
            proof {
                lemma_split_upto(ts, ts.len());
            }
            rpn_of(ts.take(k)) + rpn_of(ts.skip(k + 1)) + seq![ts[k]]
        },
        None => if ts.len() >= 2 {
            rpn_of(ts.subrange(1, ts.len() - 1))
        } else {
            ts
        },
    }
}

/// One step of reading an infix expression: the parenthesis depth and whether
/// an operand comes next, after `t`; `None` if `t` cannot come here.
pub open spec fn scan_step(st: (nat, bool), t: TokenView) -> Option<(nat, bool)> {
    let (d, operand) = st;
    match t {
        TokenView::NumericLiteral(_) => if operand {
            Some((d, false))
        } else {
            None
        },
        TokenView::OpenParen => if operand {
            Some((d + 1, true))
        } else {
            None
        },
        TokenView::Operator(_, _) => if !operand {
            Some((d, true))
        } else {
            None
        },
        TokenView::CloseParen => if !operand && d > 0 {
            Some(((d - 1) as nat, false))
        } else {
            None
        },
        _ => None,
    }
}

/// The reading state after all of `ts`, from `st`.
pub open spec fn scan(ts: Seq<TokenView>, st: (nat, bool)) -> Option<(nat, bool)>
    decreases ts.len(),
{
    if ts.len() == 0 {
        Some(st)
    } else {
        match scan_step(st, ts[0]) {
            Some(s2) => scan(ts.drop_first(), s2),
            None => None,
        }
    }
}

/// `ts` reads as a complete infix expression.
pub open spec fn scans_complete(ts: Seq<TokenView>) -> bool {
    scan(ts, (0nat, true)) == Some((0nat, false))
}

proof fn lemma_infix_scan(ts: Seq<TokenView>, d: nat, o: bool)
    ensures
        infix_from(ts, d, o) == (scan(ts, (d, o)) == Some((0nat, false))),
    decreases ts.len(),
{
    if ts.len() > 0 {
        match ts[0] {
            TokenView::NumericLiteral(_) => lemma_infix_scan(ts.drop_first(), d, false),
            TokenView::OpenParen => lemma_infix_scan(ts.drop_first(), d + 1, true),
            TokenView::Operator(_, _) => lemma_infix_scan(ts.drop_first(), d, true),
            TokenView::CloseParen => if d > 0 {
                lemma_infix_scan(ts.drop_first(), (d - 1) as nat, false)
            },
            _ => {},
        }
    }
}

proof fn lemma_scan_split(a: Seq<TokenView>, b: Seq<TokenView>, st: (nat, bool))
    ensures
        scan(a + b, st) == match scan(a, st) {
            Some(m) => scan(b, m),
            None => None,
        },
    decreases a.len(),
{
    if a.len() == 0 {
        assert(a + b =~= b);
    } else {
        assert((a + b)[0] == a[0]);
        assert((a + b).drop_first() =~= a.drop_first() + b);
        match scan_step(st, a[0]) {
            Some(s2) => lemma_scan_split(a.drop_first(), b, s2),
            None => {},
        }
    }
}

proof fn lemma_scan_push(a: Seq<TokenView>, t: TokenView, st: (nat, bool))
    ensures
        scan(a.push(t), st) == match scan(a, st) {
            Some(m) => scan_step(m, t),
            None => None,
        },
{
    lemma_scan_split(a, seq![t], st);
    assert(a + seq![t] =~= a.push(t));
    match scan(a, st) {
        Some(m) => {
            let one = seq![t];
            assert(one[0] == t);
            assert(one.drop_first() =~= Seq::<TokenView>::empty());
            match scan_step(m, t) {
                Some(s2) => {
                    assert(scan(one.drop_first(), s2) == Some(s2));
                },
                None => {},
            }
        },
        None => {},
    }
}

proof fn lemma_scan_depth(a: Seq<TokenView>, d: nat, o: bool)
    ensures
        scan(a, (d, o)) matches Some((d2, o2)) ==> d2 == d + net_depth(a),
    decreases a.len(),
{
    if a.len() > 0 {
        let p = a.drop_last();
        lemma_scan_depth(p, d, o);
        assert(p.push(a.last()) =~= a);
        lemma_scan_push(p, a.last(), (d, o));
    }
}

proof fn lemma_net_add(a: Seq<TokenView>, b: Seq<TokenView>)
    ensures
        net_depth(a + b) == net_depth(a) + net_depth(b),
    decreases b.len(),
{
    if b.len() == 0 {
        assert(a + b =~= a);
    } else {
        lemma_net_add(a, b.drop_last());
        assert((a + b).drop_last() =~= a + b.drop_last());
        assert((a + b).last() == b.last());
    }
}

/// The reading state after the first `m` tokens of `e`, and how it evolves.
proof fn lemma_state_step(e: Seq<TokenView>, m: int)
    requires
        0 <= m < e.len(),
    ensures
        scan(e.take(m + 1), (0nat, true)) == match scan(e.take(m), (0nat, true)) {
            Some(st) => scan_step(st, e[m]),
            None => None,
        },
{
    assert(e.take(m + 1) =~= e.take(m).push(e[m]));
    lemma_scan_push(e.take(m), e[m], (0nat, true));
}

proof fn lemma_prefix_scans(e: Seq<TokenView>, m: int)
    requires
        scan(e, (0nat, true)) is Some,
        0 <= m <= e.len(),
    ensures
        scan(e.take(m), (0nat, true)) matches Some((d, o)) && d == net_depth(e.take(m)),
{
    assert(e.take(m) + e.skip(m) =~= e);
    lemma_scan_split(e.take(m), e.skip(m), (0nat, true));
    lemma_scan_depth(e.take(m), 0, true);
}

/// Reading with one more parenthesis open, and never closing it, reads the same.
proof fn lemma_scan_shift(x: Seq<TokenView>, d: nat, o: bool)
    requires
        scan(x, (d + 1, o)) is Some,
        forall|m: int| 0 <= m <= x.len() ==> d + net_depth(#[trigger] x.take(m)) >= 0,
    ensures
        scan(x, (d + 1, o)) matches Some((d2, o2)) && d2 >= 1 && scan(x, (d, o)) == Some(
            ((d2 - 1) as nat, o2),
        ),
    decreases x.len(),
{
    if x.len() == 0 {
        assert(x.take(0) =~= x);
    } else {
        let p = x.drop_last();
        let t = x.last();
        assert(p.push(t) =~= x);
        lemma_scan_push(p, t, (d + 1, o));
        lemma_scan_push(p, t, (d, o));
        assert forall|m: int| 0 <= m <= p.len() implies d + net_depth(#[trigger] p.take(m)) >= 0 by {
            assert(p.take(m) =~= x.take(m));
        }
        lemma_scan_shift(p, d, o);
        lemma_scan_depth(x, d + 1, o);
        assert(x.take(x.len() as int) =~= x);
    }
}

/// Both sides of an operator outside parentheses are expressions.
proof fn lemma_split_sides(e: Seq<TokenView>, k: int)
    requires
        scans_complete(e),
        is_top_op(e, k),
    ensures
        scans_complete(e.take(k)),
        scans_complete(e.skip(k + 1)),
{
    lemma_prefix_scans(e, k);
    let (d, o) = scan(e.take(k), (0nat, true))->0;
    assert(e.take(k) + e.skip(k) =~= e);
    lemma_scan_split(e.take(k), e.skip(k), (0nat, true));
    let rest = e.skip(k);
    assert(rest[0] == e[k]);
    assert(rest.drop_first() =~= e.skip(k + 1));
}

/// The first `m` tokens of `e` read from the start, at the depth they leave open.
proof fn lemma_state(e: Seq<TokenView>, m: int) -> (st: (nat, bool))
    requires
        scans_complete(e),
        0 <= m <= e.len(),
    ensures
        scan(e.take(m), (0nat, true)) == Some(st),
        st.0 == net_depth(e.take(m)),
{
    lemma_prefix_scans(e, m);
    scan(e.take(m), (0nat, true))->0
}

/// An expression with no operator outside parentheses and more than one
/// token is a parenthesized expression.
proof fn lemma_group(e: Seq<TokenView>)
    requires
        scans_complete(e),
        e.len() >= 2,
        forall|i: int| 0 <= i < e.len() ==> !#[trigger] is_top_op(e, i),
    ensures
        e[0] is OpenParen,
        e.last() is CloseParen,
        scans_complete(e.subrange(1, e.len() - 1)),
{
    let n = e.len() as int;
    assert(e.take(0) =~= Seq::<TokenView>::empty());
    assert(e.take(n) =~= e);
    // the first token opens a parenthesis
    let s1 = lemma_state(e, 1);
    lemma_state_step(e, 0);
    if e[0] is NumericLiteral {
        let s2 = lemma_state(e, 2);
        lemma_state_step(e, 1);
        assert(is_top_op(e, 1));
    }
    // the last token closes it
    let sl = lemma_state(e, n - 1);
    lemma_state_step(e, n - 1);
    if e[n - 1] is NumericLiteral {
        let sp = lemma_state(e, n - 2);
        lemma_state_step(e, n - 2);
        assert(is_top_op(e, n - 2));
    }
    assert(sl == (1nat, false));
    // in between, the depth never falls back to zero
    assert forall|m: int| 1 <= m <= n - 1 implies net_depth(#[trigger] e.take(m)) >= 1 by {
        let sm = lemma_state(e, m);
        if sm.0 == 0 {
            if sm.1 {
                let sq = lemma_state(e, m - 1);
                lemma_state_step(e, m - 1);
                assert(is_top_op(e, m - 1));
            } else {
                let sr = lemma_state(e, m + 1);
                lemma_state_step(e, m);
                assert(is_top_op(e, m));
            }
        }
    }
    // so the inside reads as an expression
    let inner = e.subrange(1, n - 1);
    let open = seq![e[0]];
    assert(e.take(n - 1) =~= open + inner);
    lemma_scan_split(open, inner, (0nat, true));
    assert(open[0] == e[0]);
    assert(open.drop_first() =~= Seq::<TokenView>::empty());
    assert(e[0] is OpenParen);
    assert(scan_step((0nat, true), open[0]) == Some((1nat, true)));
    assert(scan(open.drop_first(), (1nat, true)) == Some((1nat, true)));
    assert(scan(open, (0nat, true)) == Some((1nat, true)));
    assert(net_depth(open) == 1) by {
        assert(open.drop_last() =~= Seq::<TokenView>::empty());
        assert(open.last() == e[0]);
        assert(net_depth(open.drop_last()) == 0);
        assert(paren_delta(open.last()) == 1);
    }
    assert forall|m: int| 0 <= m <= inner.len() implies 0 + net_depth(#[trigger] inner.take(m)) >= 0 by {
        assert(e.take(m + 1) =~= open + inner.take(m));
        lemma_net_add(open, inner.take(m));
    }
    lemma_scan_shift(inner, 0, true);
}

/// The operators outside parentheses on either side of the operator applied
/// last bind at least as tightly on its left, and more tightly on its right.
proof fn lemma_sides_bind_tighter(e: Seq<TokenView>, k: int)
    requires
        split_point(e) == Some(k),
    ensures
        loosest_prec(e.take(k)) >= op_prec(e[k]),
        loosest_prec(e.skip(k + 1)) > op_prec(e[k]),
        op_prec(e[k]) == loosest_prec(e),
        op_prec(e[k]) < 256,
        0 <= k < e.len(),
{
    lemma_split_upto(e, e.len());
    let a = e.take(k);
    let b = e.skip(k + 1);
    lemma_split_upto(a, a.len());
    lemma_split_upto(b, b.len());
    if let Some(i) = split_point(a) {
        assert(a.take(i) =~= e.take(i));
        assert(is_top_op(e, i));
    }
    if let Some(j) = split_point(b) {
        let op = seq![e[k]];
        assert(e.take(k + 1) =~= e.take(k) + op);
        lemma_net_add(e.take(k), op);
        assert(op.drop_last() =~= Seq::<TokenView>::empty());
        assert(net_depth(op) == net_depth(op.drop_last()) + paren_delta(op.last()));
        assert(e.take(k + 1 + j) =~= e.take(k + 1) + b.take(j));
        lemma_net_add(e.take(k + 1), b.take(j));
        assert(e[k + 1 + j] == b[j]);
        assert(is_top_op(e, k + 1 + j));
    }
}

/// Nothing on top of the operator stack binds at least as tightly as `m`.
pub open spec fn guards(s: Seq<TokenView>, m: int) -> bool {
    s.len() == 0 || !(s.last() is Operator && op_prec(s.last()) >= m)
}

/// What follows an expression whose loosest operator binds with `m` ends it:
/// nothing, a closing parenthesis, or an operator binding at most as tightly.
pub open spec fn ends_expression(r: Seq<TokenView>, m: int) -> bool {
    r.len() == 0 || r[0] is CloseParen || (r[0] is Operator && op_prec(r[0]) <= m)
}

/// An operator left on the stack leaves it for the output as soon as what
/// ends its expression is read.
proof fn lemma_pending(r: Seq<TokenView>, x: Seq<TokenView>, s: Seq<TokenView>, op: TokenView)
    requires
        op is Operator,
        ends_expression(r, op_prec(op)),
    ensures
        shunt(r, x, s.push(op)) == shunt(r, x.push(op), s),
{
    let s2 = s.push(op);
    assert(s2.last() == op);
    assert(s2.drop_last() =~= s);
    if r.len() == 0 {
        assert(flush(x, s2) == flush(x.push(op), s));
    } else {
        match r[0] {
            TokenView::CloseParen => {
                assert(pop_to_open(x, s2) == pop_to_open(x.push(op), s));
            },
            TokenView::Operator(_, q) => {
                assert(binds_at_least(op, q));
                assert(pop_binding(x, s2, q) == pop_binding(x.push(op), s, q));
            },
            _ => {},
        }
    }
}

/// Reading a whole expression and then what ends it outputs the expression's
/// postfix form, with the stack as it was.
proof fn lemma_shunt_expression(e: Seq<TokenView>, r: Seq<TokenView>, out: Seq<TokenView>, s: Seq<TokenView>)
    requires
        scans_complete(e),
        guards(s, loosest_prec(e)),
        ends_expression(r, loosest_prec(e)),
    ensures
        shunt(e + r, out, s) == shunt(r, out + rpn_of(e), s),
    decreases e.len(),
{
    lemma_split_upto(e, e.len());
    if e.len() == 0 {
        assert(scan(e, (0nat, true)) == Some((0nat, true)));
    }
    match split_point(e) {
        Some(k) => {
            lemma_sides_bind_tighter(e, k);
            lemma_split_sides(e, k);
            let a = e.take(k);
            let b = e.skip(k + 1);
            let op = e[k];
            let p = op_prec(op);
            let r1 = seq![op] + (b + r);
            assert(e + r =~= a + r1);
            lemma_shunt_expression(a, r1, out, s);
            let out1 = out + rpn_of(a);
            // the operator finds nothing to pop and is stacked
            assert(r1[0] == op);
            assert(r1.drop_first() =~= b + r);
            match op {
                TokenView::Operator(_, q) => {
                    assert(pop_binding(out1, s, q) == (out1, s));
                },
                _ => {},
            }
            assert(shunt(r1, out1, s) == shunt(b + r, out1, s.push(op)));
            lemma_shunt_expression(b, r, out1, s.push(op));
            let out2 = out1 + rpn_of(b);
            lemma_pending(r, out2, s, op);
            assert(out2.push(op) =~= out + rpn_of(e));
        },
        None => {
            if e.len() >= 2 {
                lemma_group(e);
                let inner = e.subrange(1, e.len() - 1);
                let open = e[0];
                let close = e.last();
                let r1 = seq![close] + r;
                assert(e + r =~= seq![open] + (inner + r1));
                assert((e + r)[0] == open);
                assert((e + r).drop_first() =~= inner + r1);
                assert(shunt(e + r, out, s) == shunt(inner + r1, out, s.push(open)));
                lemma_split_upto(inner, inner.len());
                lemma_shunt_expression(inner, r1, out, s.push(open));
                let out1 = out + rpn_of(inner);
                assert(r1[0] == close);
                assert(r1.drop_first() =~= r);
                assert(s.push(open).drop_last() =~= s);
                assert(pop_to_open(out1, s.push(open)) == (out1, s));
            } else {
                assert(scan(e, (0nat, true)) == Some((0nat, false)));
                let n = e[0];
                assert(e.drop_first() =~= Seq::<TokenView>::empty());
                if let Some(s2) = scan_step((0nat, true), n) {
                    assert(scan(e.drop_first(), s2) == Some(s2));
                }
                assert(n is NumericLiteral);
                assert((e + r)[0] == n);
                assert((e + r).drop_first() =~= r);
                assert(out + rpn_of(e) =~= out.push(n));
            }
        },
    }
}

/// Conversion respects precedence: the postfix form of an infix expression is
/// the one its precedence rules give (see [`rpn_of`]), so tighter-binding
/// operators apply first, equal ones from left to right, and parentheses
/// group before anything else.
pub proof fn postfix_follows_precedence(ts: Seq<TokenView>)
    requires
        is_infix_expression(ts),
    ensures
        to_postfix(ts) == rpn_of(ts),
{
    lemma_infix_scan(ts, 0, true);
    let e = Seq::<TokenView>::empty();
    lemma_shunt_expression(ts, e, e, e);
    assert(ts + e =~= ts);
    assert(e + rpn_of(ts) =~= rpn_of(ts));
}

} // verus!
