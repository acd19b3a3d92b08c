//! Recompute functions of selectors, represented as expression trees the
//! engine interprets while recording which cells each run actually reads.
use vstd::prelude::*;
use crate::value::{Val, Value, vals_of, text_contains_spec};

verus! {

/// The body of a selector: what it computes from the cell store.
///
/// `Item` and `Provided` are placeholders that the keyed reconciler resolves
/// to concrete `Read` nodes when an item subtree is mounted; the engine
/// itself accepts only fully resolved expressions.
pub enum Expr {
    /// Read the cell with this identifier.
    Read(usize),
    /// Placeholder: the mounted item's own payload cell.
    Item,
    /// Placeholder: the cell bound to this context key at mount time.
    Provided(u64),
    /// A constant.
    Lit(Value),
    /// Does the first text contain the second? Non-text operands yield false.
    Contains(Box<Expr>, Box<Expr>),
    /// If the first operand is the flag true, the second, else the third.
    Ite(Box<Expr>, Box<Expr>, Box<Expr>),
}

/// A fully resolved expression whose every cell read is within bounds.
pub open spec fn expr_wf(e: Expr, n_cells: nat) -> bool
    decreases e,
{
    match e {
        Expr::Read(c) => c < n_cells,
        Expr::Item => false,
        Expr::Provided(_) => false,
        Expr::Lit(_) => true,
        Expr::Contains(a, b) => expr_wf(*a, n_cells) && expr_wf(*b, n_cells),
        Expr::Ite(c, t, f) => expr_wf(*c, n_cells) && expr_wf(*t, n_cells) && expr_wf(
            *f,
            n_cells,
        ),
    }
}

/// The denotation of an expression against a cell store: the value one run
/// of the recompute function produces.
pub open spec fn eval(vals: Seq<Val>, e: Expr) -> Val
    decreases e,
{
    match e {
        Expr::Read(c) => vals[c as int],
        Expr::Item => Val::Flag(false),
        Expr::Provided(_) => Val::Flag(false),
        Expr::Lit(v) => v@,
        Expr::Contains(a, b) => match (eval(vals, *a), eval(vals, *b)) {
            (Val::Text(hay), Val::Text(needle)) => Val::Flag(text_contains_spec(hay, needle)),
            _ => Val::Flag(false),
        },
        Expr::Ite(c, t, f) => if eval(vals, *c) == Val::Flag(true) {
            eval(vals, *t)
        } else {
            eval(vals, *f)
        },
    }
}

/// The cells one run of the recompute function reads against this store.
/// Reads are dynamic: an `Ite` reads only the branch its condition selects.
pub open spec fn reads_of(vals: Seq<Val>, e: Expr) -> Set<int>
    decreases e,
{
    match e {
        Expr::Read(c) => set![c as int],
        Expr::Item => Set::empty(),
        Expr::Provided(_) => Set::empty(),
        Expr::Lit(_) => Set::empty(),
        Expr::Contains(a, b) => reads_of(vals, *a) + reads_of(vals, *b),
        Expr::Ite(c, t, f) => reads_of(vals, *c) + if eval(vals, *c) == Val::Flag(true) {
            reads_of(vals, *t)
        } else {
            reads_of(vals, *f)
        },
    }
}

/// Every cell a well-formed expression reads lies within the store.
pub proof fn lemma_reads_in_bounds(vals: Seq<Val>, e: Expr, n_cells: nat)
    requires
        expr_wf(e, n_cells),
    ensures
        forall|c: int| reads_of(vals, e).contains(c) ==> 0 <= c < n_cells,
    decreases e,
{
    match e {
        Expr::Contains(a, b) => {
            lemma_reads_in_bounds(vals, *a, n_cells);
            lemma_reads_in_bounds(vals, *b, n_cells);
            assert forall|c: int| reads_of(vals, e).contains(c) implies 0 <= c < n_cells by {
                assert(reads_of(vals, *a).contains(c) || reads_of(vals, *b).contains(c));
            }
        },
        Expr::Ite(c, t, f) => {
            lemma_reads_in_bounds(vals, *c, n_cells);
            lemma_reads_in_bounds(vals, *t, n_cells);
            lemma_reads_in_bounds(vals, *f, n_cells);
            assert forall|x: int| reads_of(vals, e).contains(x) implies 0 <= x < n_cells by {
                assert(reads_of(vals, *c).contains(x) || reads_of(vals, *t).contains(x)
                    || reads_of(vals, *f).contains(x));
            }
        },
        _ => {},
    }
}

/// Well-formedness survives growing the store.
pub proof fn lemma_wf_mono(e: Expr, n1: nat, n2: nat)
    requires
        expr_wf(e, n1),
        n1 <= n2,
    ensures
        expr_wf(e, n2),
    decreases e,
{
    match e {
        Expr::Contains(a, b) => {
            lemma_wf_mono(*a, n1, n2);
            lemma_wf_mono(*b, n1, n2);
        },
        Expr::Ite(c, t, f) => {
            lemma_wf_mono(*c, n1, n2);
            lemma_wf_mono(*t, n1, n2);
            lemma_wf_mono(*f, n1, n2);
        },
        _ => {},
    }
}

/// Framing: a run's result and its read set depend only on the values of
/// the cells the run reads. A store that agrees on those cells (and is at
/// least as large) evaluates to the same value with the same reads.
pub proof fn lemma_eval_frame(v1: Seq<Val>, v2: Seq<Val>, e: Expr)
    requires
        expr_wf(e, v1.len()),
        v1.len() <= v2.len(),
        forall|c: int| reads_of(v1, e).contains(c) ==> v2[c] == v1[c],
    ensures
        eval(v2, e) == eval(v1, e),
        reads_of(v2, e) == reads_of(v1, e),
    decreases e,
{
    match e {
        Expr::Read(c) => {
            assert(reads_of(v1, e).contains(c as int));
        },
        Expr::Contains(a, b) => {
            assert forall|c: int| reads_of(v1, *a).contains(c) implies v2[c] == v1[c] by {
                assert(reads_of(v1, e).contains(c));
            }
            assert forall|c: int| reads_of(v1, *b).contains(c) implies v2[c] == v1[c] by {
                assert(reads_of(v1, e).contains(c));
            }
            lemma_eval_frame(v1, v2, *a);
            lemma_eval_frame(v1, v2, *b);
        },
        Expr::Ite(c, t, f) => {
            assert forall|x: int| reads_of(v1, *c).contains(x) implies v2[x] == v1[x] by {
                assert(reads_of(v1, e).contains(x));
            }
            lemma_eval_frame(v1, v2, *c);
            if eval(v1, *c) == Val::Flag(true) {
                assert forall|x: int| reads_of(v1, *t).contains(x) implies v2[x] == v1[x] by {
                    assert(reads_of(v1, e).contains(x));
                }
                lemma_eval_frame(v1, v2, *t);
            } else {
                assert forall|x: int| reads_of(v1, *f).contains(x) implies v2[x] == v1[x] by {
                    assert(reads_of(v1, e).contains(x));
                }
                lemma_eval_frame(v1, v2, *f);
            }
        },
        _ => {},
    }
}

/// Every cell read by `e` is alive and within bounds in this store.
pub open spec fn expr_ok_spec(e: Expr, live: Seq<bool>) -> bool
    decreases e,
{
    match e {
        Expr::Read(c) => c < live.len() && live[c as int],
        Expr::Item => false,
        Expr::Provided(_) => false,
        Expr::Lit(_) => true,
        Expr::Contains(a, b) => expr_ok_spec(*a, live) && expr_ok_spec(*b, live),
        Expr::Ite(c, t, f) => expr_ok_spec(*c, live) && expr_ok_spec(*t, live) && expr_ok_spec(
            *f,
            live,
        ),
    }
}

/// An accepted expression is well formed for a store of that size.
pub proof fn lemma_ok_implies_wf(e: Expr, live: Seq<bool>)
    requires
        expr_ok_spec(e, live),
    ensures
        expr_wf(e, live.len()),
    decreases e,
{
    match e {
        Expr::Contains(a, b) => {
            lemma_ok_implies_wf(*a, live);
            lemma_ok_implies_wf(*b, live);
        },
        Expr::Ite(c, t, f) => {
            lemma_ok_implies_wf(*c, live);
            lemma_ok_implies_wf(*t, live);
            lemma_ok_implies_wf(*f, live);
        },
        _ => {},
    }
}

/// Runtime admission check: is every cell `e` reads alive in the store?
pub fn expr_ok(e: &Expr, live: &Vec<bool>) -> (r: bool)
    ensures
        r == expr_ok_spec(*e, live@),
    decreases *e,
{
    match e {
        Expr::Read(c) => *c < live.len() && live[*c],
        Expr::Item => false,
        Expr::Provided(_) => false,
        Expr::Lit(_) => true,
        Expr::Contains(a, b) => expr_ok(a, live) && expr_ok(b, live),
        Expr::Ite(c, t, f) => expr_ok(c, live) && expr_ok(t, live) && expr_ok(f, live),
    }
}

} // verus!
