//! Visiting every subexpression of an expression, in pre-order.
use vstd::prelude::*;
use crate::ast::{Expr, MuxOption, Span, SpannedExpr};
use crate::refs::{spec_refs, spec_refs_options, spec_refs_items};
use crate::errors::Error;

verus! {

/// The expression and all its subexpressions, in pre-order: the expression first, then
/// the subexpressions of each operand from left to right (for a mux, each option's
/// condition and then its value).
pub open spec fn preorder(e: SpannedExpr) -> Seq<SpannedExpr>
    decreases e, 1int,
{
    seq![e] + preorder_below(e)
}

/// The subexpressions of an expression, without it, in pre-order.
pub open spec fn preorder_below(e: SpannedExpr) -> Seq<SpannedExpr>
    decreases e, 0int,
{
    match *e.expr {
        Expr::BinOp(_, l, r) => preorder(l) + preorder(r),
        Expr::UnOp(_, inner) => preorder(inner),
        Expr::Mux(options) => preorder_options(options@, 0),
        Expr::BitSelect { from, .. } => preorder(from),
        Expr::Concat(l, r) => preorder(l) + preorder(r),
        Expr::InSet(l, items) => preorder(l) + preorder_items(items@, 0),
        _ => Seq::empty(),
    }
}

/// The pre-orders of the conditions and values of the options from `i` on.
pub open spec fn preorder_options(options: Seq<MuxOption>, i: int) -> Seq<SpannedExpr>
    decreases options, options.len() - i,
{
    if i < 0 || i >= options.len() {
        Seq::empty()
    } else {
        preorder(options[i].condition) + preorder(options[i].value) + preorder_options(options, i + 1)
    }
}

/// The pre-orders of the items from `i` on.
pub open spec fn preorder_items(items: Seq<SpannedExpr>, i: int) -> Seq<SpannedExpr>
    decreases items, items.len() - i,
{
    if i < 0 || i >= items.len() {
        Seq::empty()
    } else {
        preorder(items[i]) + preorder_items(items, i + 1)
    }
}

/// The wire that a node reads by its name, with the node's source range, if it is a
/// wire's name.
pub open spec fn wire_read(x: SpannedExpr) -> Seq<(Seq<char>, Span)> {
    match *x.expr {
        Expr::NamedWire(n) => seq![(n@, x.span)],
        _ => Seq::empty(),
    }
}

/// The wires that the nodes read by name, in the order of the nodes.
pub open spec fn wires_read(nodes: Seq<SpannedExpr>) -> Seq<(Seq<char>, Span)>
    decreases nodes.len(),
{
    if nodes.len() == 0 {
        Seq::empty()
    } else {
        wire_read(nodes[0]) + wires_read(nodes.drop_first())
    }
}

proof fn lemma_wires_read_concat(a: Seq<SpannedExpr>, b: Seq<SpannedExpr>)
    ensures
        wires_read(a + b) == wires_read(a) + wires_read(b),
    decreases a.len(),
{
    if a.len() == 0 {
        assert(a + b =~= b);
        assert(wires_read(a) + wires_read(b) =~= wires_read(b));
    } else {
        assert((a + b).drop_first() =~= a.drop_first() + b);
        assert((a + b)[0] == a[0]);
        lemma_wires_read_concat(a.drop_first(), b);
        assert(wire_read(a[0]) + (wires_read(a.drop_first()) + wires_read(b)) =~= (wire_read(a[0]) + wires_read(
            a.drop_first(),
        )) + wires_read(b));
    }
}

/// The wires that an expression reads (`spec_refs`) are its wire-name nodes, in
/// pre-order.
pub proof fn lemma_refs_in_preorder(e: SpannedExpr)
    ensures
        spec_refs(e) == wires_read(preorder(e)),
    decreases e, 1int,
{
    let below = preorder_below(e);
    assert((seq![e] + below).drop_first() =~= below);
    assert((seq![e] + below)[0] == e);
    assert(wires_read(preorder(e)) == wire_read(e) + wires_read(below));
    match *e.expr {
        Expr::BinOp(_, l, r) => {
            lemma_refs_in_preorder(l);
            lemma_refs_in_preorder(r);
            lemma_wires_read_concat(preorder(l), preorder(r));
        },
        Expr::UnOp(_, inner) => {
            lemma_refs_in_preorder(inner);
        },
        Expr::Mux(options) => {
            lemma_refs_in_preorder_options(options@, 0);
        },
        Expr::BitSelect { from, .. } => {
            lemma_refs_in_preorder(from);
        },
        Expr::Concat(l, r) => {
            lemma_refs_in_preorder(l);
            lemma_refs_in_preorder(r);
            lemma_wires_read_concat(preorder(l), preorder(r));
        },
        Expr::InSet(l, items) => {
            lemma_refs_in_preorder(l);
            lemma_refs_in_preorder_items(items@, 0);
            lemma_wires_read_concat(preorder(l), preorder_items(items@, 0));
        },
        Expr::NamedWire(n) => {
            assert(wires_read(below) =~= Seq::<(Seq<char>, Span)>::empty());
            assert(wire_read(e) + wires_read(below) =~= wire_read(e));
        },
        _ => {
            assert(wires_read(below) =~= Seq::<(Seq<char>, Span)>::empty());
            assert(wire_read(e) + wires_read(below) =~= Seq::<(Seq<char>, Span)>::empty());
        },
    }
    assert(spec_refs(e) =~= wire_read(e) + wires_read(below));
}

proof fn lemma_refs_in_preorder_options(options: Seq<MuxOption>, i: int)
    ensures
        spec_refs_options(options, i) == wires_read(preorder_options(options, i)),
    decreases options, options.len() - i,
{
    if 0 <= i < options.len() {
        lemma_refs_in_preorder(options[i].condition);
        lemma_refs_in_preorder(options[i].value);
        lemma_refs_in_preorder_options(options, i + 1);
        let c = preorder(options[i].condition);
        let v = preorder(options[i].value);
        let rest = preorder_options(options, i + 1);
        lemma_wires_read_concat(c + v, rest);
        lemma_wires_read_concat(c, v);
    } else {
        assert(wires_read(Seq::<SpannedExpr>::empty()) =~= Seq::<(Seq<char>, Span)>::empty());
    }
}

proof fn lemma_refs_in_preorder_items(items: Seq<SpannedExpr>, i: int)
    ensures
        spec_refs_items(items, i) == wires_read(preorder_items(items, i)),
    decreases items, items.len() - i,
{
    if 0 <= i < items.len() {
        lemma_refs_in_preorder(items[i]);
        lemma_refs_in_preorder_items(items, i + 1);
        lemma_wires_read_concat(preorder(items[i]), preorder_items(items, i + 1));
    } else {
        assert(wires_read(Seq::<SpannedExpr>::empty()) =~= Seq::<(Seq<char>, Span)>::empty());
    }
}

/// Calling `f` on the nodes in order had the result `r`: `Ok` when every call succeeded,
/// and the error of the first call that failed, the calls before it having succeeded.
pub open spec fn visited<F: Fn(&SpannedExpr) -> Result<(), Error>>(
    f: F,
    nodes: Seq<SpannedExpr>,
    r: Result<(), Error>,
) -> bool {
    match r {
        Ok(_) => forall|k: int| 0 <= k < nodes.len() ==> call_ensures(f, (&#[trigger] nodes[k],), Ok(())),
        Err(e) => exists|k: int|
            0 <= k < nodes.len() && (forall|j: int|
                0 <= j < k ==> call_ensures(f, (&#[trigger] nodes[j],), Ok(()))) && call_ensures(
                f,
                (&nodes[k],),
                Err(e),
            ),
    }
}

proof fn lemma_visited_concat<F: Fn(&SpannedExpr) -> Result<(), Error>>(
    f: F,
    a: Seq<SpannedExpr>,
    b: Seq<SpannedExpr>,
    r: Result<(), Error>,
)
    requires
        visited(f, a, Ok(())),
        visited(f, b, r),
    ensures
        visited(f, a + b, r),
{
    let ab = a + b;
    match r {
        Ok(_) => {
            assert forall|k: int| 0 <= k < ab.len() implies call_ensures(f, (&#[trigger] ab[k],), Ok(())) by {
                if k < a.len() {
                    assert(ab[k] == a[k]);
                } else {
                    assert(ab[k] == b[k - a.len()]);
                }
            }
        },
        Err(e) => {
            let k = choose|k: int|
                0 <= k < b.len() && (forall|j: int| 0 <= j < k ==> call_ensures(f, (&#[trigger] b[j],), Ok(())))
                    && call_ensures(f, (&b[k],), Err(e));
            let m = a.len() + k;
            assert(ab[m] == b[k]);
            assert forall|j: int| 0 <= j < m implies call_ensures(f, (&#[trigger] ab[j],), Ok(())) by {
                if j < a.len() {
                    assert(ab[j] == a[j]);
                } else {
                    assert(ab[j] == b[j - a.len()]);
                }
            }
        },
    }
}

proof fn lemma_failed_prefix<F: Fn(&SpannedExpr) -> Result<(), Error>>(
    f: F,
    a: Seq<SpannedExpr>,
    b: Seq<SpannedExpr>,
    e: Error,
)
    requires
        visited(f, a, Err(e)),
    ensures
        visited(f, a + b, Err(e)),
{
    let ab = a + b;
    let k = choose|k: int|
        0 <= k < a.len() && (forall|j: int| 0 <= j < k ==> call_ensures(f, (&#[trigger] a[j],), Ok(())))
            && call_ensures(f, (&a[k],), Err(e));
    assert(ab[k] == a[k]);
    assert forall|j: int| 0 <= j < k implies call_ensures(f, (&#[trigger] ab[j],), Ok(())) by {
        assert(ab[j] == a[j]);
    }
}

/// The result of visiting `a` and then, if that succeeded, `b`.
proof fn lemma_visited_then<F: Fn(&SpannedExpr) -> Result<(), Error>>(
    f: F,
    a: Seq<SpannedExpr>,
    b: Seq<SpannedExpr>,
    ra: Result<(), Error>,
)
    requires
        visited(f, a, ra),
        ra is Err,
    ensures
        visited(f, a + b, ra),
{
    lemma_failed_prefix(f, a, b, ra->Err_0);
}

impl SpannedExpr {
    /// Calls `func` on the expression and on each of its subexpressions, in pre-order,
    /// and stops at the first call that fails, with its error.
    pub fn apply_to_all<F: Fn(&SpannedExpr) -> Result<(), Error>>(&self, func: &F) -> (r: Result<(), Error>)
        requires
            forall|e: SpannedExpr| call_requires(*func, (&e,)),
        ensures
            visited(*func, preorder(*self), r),
        decreases self, 1int,
    {
        let first = func(self);
        let ghost head = seq![*self];
        proof {
            assert(head[0] == *self);
        }
        match first {
            Err(e) => {
                proof {
                    assert(visited(*func, head, Err(e)));
                    lemma_failed_prefix(*func, head, preorder_below(*self), e);
                }
                return Err(e);
            },
            Ok(u) => {
                proof {
                    assert(u == ());
                    assert(call_ensures(*func, (&head[0],), Ok(())));
                    assert(visited(*func, head, Ok(())));
                }
            },
        }
        let rest: Result<(), Error> = match &*self.expr {
            Expr::BinOp(_, l, r) => {
                let a = l.apply_to_all(func);
                if a.is_err() {
                    proof {
                        lemma_visited_then(*func, preorder(*l), preorder(*r), a);
                    }
                    a
                } else {
                    let b = r.apply_to_all(func);
                    proof {
                        lemma_visited_concat(*func, preorder(*l), preorder(*r), b);
                    }
                    b
                }
            },
            Expr::UnOp(_, inner) => inner.apply_to_all(func),
            Expr::Mux(options) => apply_to_options(options, 0, func),
            Expr::BitSelect { from, .. } => from.apply_to_all(func),
            Expr::Concat(l, r) => {
                let a = l.apply_to_all(func);
                if a.is_err() {
                    proof {
                        lemma_visited_then(*func, preorder(*l), preorder(*r), a);
                    }
                    a
                } else {
                    let b = r.apply_to_all(func);
                    proof {
                        lemma_visited_concat(*func, preorder(*l), preorder(*r), b);
                    }
                    b
                }
            },
            Expr::InSet(l, items) => {
                let a = l.apply_to_all(func);
                if a.is_err() {
                    proof {
                        lemma_visited_then(*func, preorder(*l), preorder_items(items@, 0), a);
                    }
                    a
                } else {
                    let b = apply_to_items(items, 0, func);
                    proof {
                        lemma_visited_concat(*func, preorder(*l), preorder_items(items@, 0), b);
                    }
                    b
                }
            },
            _ => Ok(()),
        };
        proof {
            lemma_visited_concat(*func, head, preorder_below(*self), rest);
        }
        rest
    }
}

/// Visits the conditions and values of the options from `i` on; see `apply_to_all`.
fn apply_to_options<F: Fn(&SpannedExpr) -> Result<(), Error>>(options: &Vec<MuxOption>, i: usize, func: &F) -> (r:
    Result<(), Error>)
    requires
        i <= options@.len(),
        forall|e: SpannedExpr| call_requires(*func, (&e,)),
    ensures
        visited(*func, preorder_options(options@, i as int), r),
    decreases options@, options@.len() - i,
{
    if i >= options.len() {
        return Ok(());
    }
    let c = options[i].condition.apply_to_all(func);
    let ghost o = options@[i as int];
    if c.is_err() {
        proof {
            lemma_visited_then(*func, preorder(o.condition), preorder(o.value) + preorder_options(options@, i + 1), c);
            assert(preorder(o.condition) + (preorder(o.value) + preorder_options(options@, i + 1)) =~= preorder_options(
                options@,
                i as int,
            ));
        }
        return c;
    }
    let v = options[i].value.apply_to_all(func);
    if v.is_err() {
        proof {
            lemma_visited_then(*func, preorder(o.value), preorder_options(options@, i + 1), v);
            lemma_visited_concat(*func, preorder(o.condition), preorder(o.value) + preorder_options(options@, i + 1), v);
            assert(preorder(o.condition) + (preorder(o.value) + preorder_options(options@, i + 1)) =~= preorder_options(
                options@,
                i as int,
            ));
        }
        return v;
    }
    let rest = apply_to_options(options, i + 1, func);
    proof {
        lemma_visited_concat(*func, preorder(o.value), preorder_options(options@, i + 1), rest);
        lemma_visited_concat(*func, preorder(o.condition), preorder(o.value) + preorder_options(options@, i + 1), rest);
        assert(preorder(o.condition) + (preorder(o.value) + preorder_options(options@, i + 1)) =~= preorder_options(
            options@,
            i as int,
        ));
    }
    rest
}

/// Visits the items from `i` on; see `apply_to_all`.
fn apply_to_items<F: Fn(&SpannedExpr) -> Result<(), Error>>(items: &Vec<SpannedExpr>, i: usize, func: &F) -> (r: Result<
    (),
    Error,
>)
    requires
        i <= items@.len(),
        forall|e: SpannedExpr| call_requires(*func, (&e,)),
    ensures
        visited(*func, preorder_items(items@, i as int), r),
    decreases items@, items@.len() - i,
{
    if i >= items.len() {
        return Ok(());
    }
    let a = items[i].apply_to_all(func);
    if a.is_err() {
        proof {
            lemma_visited_then(*func, preorder(items@[i as int]), preorder_items(items@, i + 1), a);
        }
        return a;
    }
    let rest = apply_to_items(items, i + 1, func);
    proof {
        lemma_visited_concat(*func, preorder(items@[i as int]), preorder_items(items@, i + 1), rest);
    }
    rest
}

} // verus!
