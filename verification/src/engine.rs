//! The reactive graph: an arena of cells and selectors joined by recorded
//! dependency edges. Writes push dirtiness along the edges; reads pull
//! recomputation lazily and rebuild the reader's dependency set.
use vstd::prelude::*;
use crate::EngineError;
use crate::expr::{Expr, expr_wf, expr_ok_spec, expr_ok, eval, reads_of, lemma_eval_frame,
    lemma_reads_in_bounds, lemma_wf_mono, lemma_ok_implies_wf};
use crate::value::{Val, Value, vals_of, clone_value, value_eq};

verus! {

/// A recorded dependency: selector `sel` read cell `cell` on its last run.
#[derive(Clone, Copy)]
pub struct Edge {
    pub cell: usize,
    pub sel: usize,
}

/// The pair `(cell, sel)` is recorded in this edge list.
pub open spec fn edge_in(edges: Seq<Edge>, cell: int, sel: int) -> bool {
    exists|k: int| 0 <= k < edges.len() && edges[k].cell == cell && edges[k].sel == sel
}

/// Extending a scanned prefix by one edge extends what it records by
/// exactly that edge.
pub proof fn lemma_edge_in_take_step(es: Seq<Edge>, k: int, c: int, s: int)
    requires
        0 <= k < es.len(),
    ensures
        edge_in(es.take(k + 1), c, s) == (edge_in(es.take(k), c, s) || (es[k].cell == c
            && es[k].sel == s)),
{
    if edge_in(es.take(k), c, s) {
        let k2 = choose|k2: int|
            0 <= k2 < es.take(k).len() && es.take(k)[k2].cell == c && es.take(k)[k2].sel == s;
        assert(es.take(k + 1)[k2].cell == c && es.take(k + 1)[k2].sel == s);
        assert(edge_in(es.take(k + 1), c, s));
    }
    if es[k].cell == c && es[k].sel == s {
        assert(es.take(k + 1)[k].cell == c && es.take(k + 1)[k].sel == s);
        assert(edge_in(es.take(k + 1), c, s));
    }
    if edge_in(es.take(k + 1), c, s) {
        let k2 = choose|k2: int|
            0 <= k2 < es.take(k + 1).len() && (#[trigger] es.take(k + 1)[k2]).cell == c && es.take(
                k + 1,
            )[k2].sel == s;
        if k2 < k {
            assert(es.take(k)[k2].cell == c && es.take(k)[k2].sel == s);
            assert(edge_in(es.take(k), c, s));
        } else {
            assert(es[k].cell == c && es[k].sel == s);
        }
    }
}

/// A whole list records the same pairs as its full-length prefix.
pub proof fn lemma_edge_in_take_full(es: Seq<Edge>, c: int, s: int)
    ensures
        edge_in(es.take(es.len() as int), c, s) == edge_in(es, c, s),
{
    assert(es.take(es.len() as int) =~= es);
}

/// Appending one edge extends what a list records by exactly that edge.
pub proof fn lemma_edge_in_push(es: Seq<Edge>, ed: Edge, c: int, s: int)
    ensures
        edge_in(es.push(ed), c, s) == (edge_in(es, c, s) || (ed.cell == c && ed.sel == s)),
{
    if edge_in(es, c, s) {
        let k2 = choose|k2: int| 0 <= k2 < es.len() && es[k2].cell == c && es[k2].sel == s;
        assert(es.push(ed)[k2].cell == c && es.push(ed)[k2].sel == s);
        assert(edge_in(es.push(ed), c, s));
    }
    if ed.cell == c && ed.sel == s {
        assert(es.push(ed)[es.len() as int].cell == c && es.push(ed)[es.len() as int].sel == s);
        assert(edge_in(es.push(ed), c, s));
    }
    if edge_in(es.push(ed), c, s) {
        let k2 = choose|k2: int|
            0 <= k2 < es.push(ed).len() && (#[trigger] es.push(ed)[k2]).cell == c && es.push(
                ed,
            )[k2].sel == s;
        if k2 < es.len() {
            assert(es[k2].cell == c && es[k2].sel == s);
            assert(edge_in(es, c, s));
        } else {
            assert(ed.cell == c && ed.sel == s);
        }
    }
}

/// The reactive graph. Cells and selectors are arena slots addressed by
/// stable integer handles; a disposed slot stays allocated but dead.
pub struct Engine {
    pub cell_vals: Vec<Value>,
    pub cell_vers: Vec<u64>,
    pub cell_live: Vec<bool>,
    pub sel_exprs: Vec<Expr>,
    pub sel_cache: Vec<Option<Value>>,
    pub sel_dirty: Vec<bool>,
    pub sel_live: Vec<bool>,
    pub sel_recs: Vec<u64>,
    pub edges: Vec<Edge>,
}

/// A counter bump that stops at the top instead of wrapping.
pub open spec fn bump_spec(x: u64) -> u64 {
    if x < u64::MAX {
        (x + 1) as u64
    } else {
        x
    }
}

fn bump(x: u64) -> (r: u64)
    ensures
        r == bump_spec(x),
{
    if x < u64::MAX {
        x + 1
    } else {
        x
    }
}

impl Engine {
    pub open spec fn n_cells(self) -> nat {
        self.cell_vals@.len()
    }

    pub open spec fn n_sels(self) -> nat {
        self.sel_exprs@.len()
    }

    /// The model of the cell store: the abstract value of every slot, dead
    /// slots included (a dead slot keeps its last value).
    pub open spec fn vals(self) -> Seq<Val> {
        vals_of(self.cell_vals@)
    }

    /// Selector `s` currently records a dependency on cell `c`.
    pub open spec fn has_edge(self, c: int, s: int) -> bool {
        edge_in(self.edges@, c, s)
    }

    /// The value one recompute run of selector `s` would produce right now.
    pub open spec fn sel_denotation(self, s: int) -> Val {
        eval(self.vals(), self.sel_exprs@[s])
    }

    /// A clean selector is consistent: its cache holds exactly the current
    /// denotation, and its recorded edges are exactly the cells the current
    /// run reads.
    pub open spec fn sel_clean_ok(self, s: int) -> bool {
        &&& self.sel_cache@[s] matches Some(cv) && cv@ == self.sel_denotation(s)
        &&& forall|c: int| self.has_edge(c, s) <==> reads_of(self.vals(), self.sel_exprs@[s]).contains(c)
    }

    /// The engine invariant: parallel arenas agree in length, every selector
    /// expression is resolved and in bounds, every edge points at live slots,
    /// and every live clean selector is consistent.
    pub open spec fn wf(self) -> bool {
        &&& self.cell_vers@.len() == self.n_cells()
        &&& self.cell_live@.len() == self.n_cells()
        &&& self.sel_cache@.len() == self.n_sels()
        &&& self.sel_dirty@.len() == self.n_sels()
        &&& self.sel_live@.len() == self.n_sels()
        &&& self.sel_recs@.len() == self.n_sels()
        &&& forall|s: int| 0 <= s < self.n_sels() ==> expr_wf(#[trigger] self.sel_exprs@[s], self.n_cells())
        &&& forall|c: int, s: int| #[trigger] edge_in(self.edges@, c, s) ==> 0 <= c < self.n_cells()
            && 0 <= s < self.n_sels() && self.sel_live@[s]
        &&& forall|s: int| 0 <= s < self.n_sels() && self.sel_live@[s] && !(#[trigger] self.sel_dirty@[s])
            ==> self.sel_clean_ok(s)
    }

    /// An empty graph.
    pub fn new() -> (r: Engine)
        ensures
            r.wf(),
            r.n_cells() == 0,
            r.n_sels() == 0,
            r.edges@.len() == 0,
    {
        Engine {
            cell_vals: Vec::new(),
            cell_vers: Vec::new(),
            cell_live: Vec::new(),
            sel_exprs: Vec::new(),
            sel_cache: Vec::new(),
            sel_dirty: Vec::new(),
            sel_live: Vec::new(),
            sel_recs: Vec::new(),
            edges: Vec::new(),
        }
    }

    /// Allocates a fresh cell holding `v` at version zero; nothing else of
    /// the graph changes.
    pub fn create_cell(&mut self, v: Value) -> (id: usize)
        requires
            old(self).wf(),
        ensures
            final(self).wf(),
            id == old(self).n_cells(),
            final(self).cell_vals@ == old(self).cell_vals@.push(v),
            final(self).cell_vers@ == old(self).cell_vers@.push(0u64),
            final(self).cell_live@ == old(self).cell_live@.push(true),
            final(self).sel_exprs@ == old(self).sel_exprs@,
            final(self).sel_cache@ == old(self).sel_cache@,
            final(self).sel_dirty@ == old(self).sel_dirty@,
            final(self).sel_live@ == old(self).sel_live@,
            final(self).sel_recs@ == old(self).sel_recs@,
            final(self).edges@ == old(self).edges@,
            final(self).vals() == old(self).vals().push(v@),
    {
        let id = self.cell_vals.len();
        self.cell_vals.push(v);
        self.cell_vers.push(0);
        self.cell_live.push(true);
        proof {
            assert(self.vals() =~= old(self).vals().push(self.cell_vals@.last()@));
            assert forall|s: int|
                0 <= s < self.n_sels() implies expr_wf(
                #[trigger] self.sel_exprs@[s],
                self.n_cells(),
            ) by {
                lemma_wf_mono(self.sel_exprs@[s], old(self).n_cells(), self.n_cells());
            }
            assert forall|s: int|
                0 <= s < self.n_sels() && self.sel_live@[s] && !(#[trigger] self.sel_dirty@[s])
                implies self.sel_clean_ok(s) by {
                assert(!old(self).sel_dirty@[s]);
                assert(old(self).sel_clean_ok(s));
                lemma_reads_in_bounds(old(self).vals(), old(self).sel_exprs@[s], old(self).n_cells());
                lemma_eval_frame(old(self).vals(), self.vals(), old(self).sel_exprs@[s]);
                assert forall|c: int|
                    self.has_edge(c, s) <==> reads_of(self.vals(), self.sel_exprs@[s]).contains(c) by {
                    assert(old(self).has_edge(c, s) <==> reads_of(
                        old(self).vals(),
                        old(self).sel_exprs@[s],
                    ).contains(c));
                }
            }
        }
        id
    }

    /// Reads a cell's current value: always the most recently written one.
    pub fn read_cell(&self, c: usize) -> (r: Result<Value, EngineError>)
        requires
            self.wf(),
        ensures
            (r is Ok) == (c < self.n_cells() && self.cell_live@[c as int]),
            r matches Ok(v) ==> v@ == self.vals()[c as int],
            r matches Err(e) ==> e == EngineError::StaleHandle,
    {
        if c < self.cell_vals.len() && self.cell_live[c] {
            Ok(clone_value(&self.cell_vals[c]))
        } else {
            Err(EngineError::StaleHandle)
        }
    }

    /// The cell's monotonic version counter: how many writes it has seen.
    pub fn cell_version(&self, c: usize) -> (r: Result<u64, EngineError>)
        requires
            self.wf(),
        ensures
            (r is Ok) == (c < self.n_cells() && self.cell_live@[c as int]),
            r matches Ok(v) ==> v == self.cell_vers@[c as int],
            r matches Err(e) ==> e == EngineError::StaleHandle,
    {
        if c < self.cell_vers.len() && self.cell_live[c] {
            Ok(self.cell_vers[c])
        } else {
            Err(EngineError::StaleHandle)
        }
    }

    /// A selector's dirty flag: true when a dependency changed after its
    /// last run and it has not been re-read since.
    pub fn is_dirty(&self, s: usize) -> (r: Result<bool, EngineError>)
        requires
            self.wf(),
        ensures
            (r is Ok) == (s < self.n_sels() && self.sel_live@[s as int]),
            r matches Ok(d) ==> d == self.sel_dirty@[s as int],
            r matches Err(e) ==> e == EngineError::StaleHandle,
    {
        if s < self.sel_dirty.len() && self.sel_live[s] {
            Ok(self.sel_dirty[s])
        } else {
            Err(EngineError::StaleHandle)
        }
    }

    /// How many times this selector's recompute function has run.
    pub fn recompute_count(&self, s: usize) -> (r: Result<u64, EngineError>)
        requires
            self.wf(),
        ensures
            (r is Ok) == (s < self.n_sels()),
            r matches Ok(v) ==> v == self.sel_recs@[s as int],
            r matches Err(e) ==> e == EngineError::StaleHandle,
    {
        if s < self.sel_recs.len() {
            Ok(self.sel_recs[s])
        } else {
            Err(EngineError::StaleHandle)
        }
    }
}

/// What one successful write does to the graph: the cell's value is
/// replaced, its version bumped, and exactly the selectors holding a
/// recorded edge from the cell become dirty; nothing else moves.
pub open spec fn write_step(pre: Engine, post: Engine, c: int, v: Val) -> bool {
    &&& post.n_cells() == pre.n_cells()
    &&& post.n_sels() == pre.n_sels()
    &&& post.vals() == pre.vals().update(c, v)
    &&& post.cell_vers@ == pre.cell_vers@.update(c, bump_spec(pre.cell_vers@[c]))
    &&& post.cell_live@ == pre.cell_live@
    &&& post.sel_exprs@ == pre.sel_exprs@
    &&& post.sel_cache@ == pre.sel_cache@
    &&& post.sel_live@ == pre.sel_live@
    &&& post.sel_recs@ == pre.sel_recs@
    &&& post.edges@ == pre.edges@
    &&& post.sel_dirty@.len() == pre.sel_dirty@.len()
    &&& forall|s: int| 0 <= s < pre.n_sels() ==> post.sel_dirty@[s] == (pre.sel_dirty@[s]
        || pre.has_edge(c, s))
}

impl Engine {
    /// Replaces a live cell's value, bumps its version and synchronously
    /// marks every recorded dependent dirty. Fails only on a stale handle.
    pub fn write_cell(&mut self, c: usize, v: Value) -> (r: Result<(), EngineError>)
        requires
            old(self).wf(),
        ensures
            final(self).wf(),
            (r is Ok) == (c < old(self).n_cells() && old(self).cell_live@[c as int]),
            r is Ok ==> write_step(*old(self), *final(self), c as int, v@),
            r matches Err(e) ==> *final(self) == *old(self) && e == EngineError::StaleHandle,
    {
        if c >= self.cell_vals.len() || !self.cell_live[c] {
            return Err(EngineError::StaleHandle);
        }
        self.cell_vals[c] = v;
        let ver = self.cell_vers[c];
        self.cell_vers[c] = bump(ver);
        let ghost mid = *self;
        let mut k: usize = 0;
        while k < self.edges.len()
            invariant
                self.edges@ == mid.edges@,
                self.cell_vals@ == mid.cell_vals@,
                self.cell_vers@ == mid.cell_vers@,
                self.cell_live@ == mid.cell_live@,
                self.sel_exprs@ == mid.sel_exprs@,
                self.sel_cache@ == mid.sel_cache@,
                self.sel_live@ == mid.sel_live@,
                self.sel_recs@ == mid.sel_recs@,
                self.sel_dirty@.len() == mid.sel_dirty@.len(),
                mid.sel_dirty@ == old(self).sel_dirty@,
                k <= self.edges@.len(),
                old(self).wf(),
                mid.edges@ == old(self).edges@,
                mid.sel_dirty@.len() == old(self).n_sels(),
                forall|s: int|
                    0 <= s < mid.sel_dirty@.len() ==> self.sel_dirty@[s] == (mid.sel_dirty@[s]
                        || edge_in(mid.edges@.take(k as int), c as int, s)),
            decreases self.edges@.len() - k,
        {
            let ed = self.edges[k];
            let ghost prev = *self;
            proof {
                assert(forall|s: int|
                    0 <= s < mid.sel_dirty@.len() ==> prev.sel_dirty@[s] == (mid.sel_dirty@[s]
                        || edge_in(mid.edges@.take(k as int), c as int, s)));
            }
            if ed.cell == c {
                proof {
                    assert(edge_in(old(self).edges@, ed.cell as int, ed.sel as int));
                }
                self.sel_dirty[ed.sel] = true;
            }
            proof {
                assert(ed == mid.edges@[k as int]);
                assert forall|s: int|
                    0 <= s < mid.sel_dirty@.len() implies self.sel_dirty@[s] == (
                mid.sel_dirty@[s] || edge_in(mid.edges@.take(k + 1), c as int, s)) by {
                    lemma_edge_in_take_step(mid.edges@, k as int, c as int, s);
                    assert(edge_in(mid.edges@.take(k + 1), c as int, s) == (edge_in(
                        mid.edges@.take(k as int),
                        c as int,
                        s,
                    ) || (mid.edges@[k as int].cell == c && mid.edges@[k as int].sel == s)));
                    assert(prev.sel_dirty@[s] == (mid.sel_dirty@[s] || edge_in(
                        mid.edges@.take(k as int),
                        c as int,
                        s,
                    )));
                    if ed.cell == c && ed.sel == s {
                        assert(self.sel_dirty@[s] == true);
                        assert(mid.edges@[k as int].cell == c && mid.edges@[k as int].sel == s);
                    } else {
                        assert(self.sel_dirty@[s] == prev.sel_dirty@[s]);
                        assert(!(mid.edges@[k as int].cell == c && mid.edges@[k as int].sel == s));
                    }
                }
            }
            k = k + 1;
        }
        proof {
            assert(forall|s: int|
                0 <= s < mid.sel_dirty@.len() ==> self.sel_dirty@[s] == (mid.sel_dirty@[s]
                    || edge_in(mid.edges@.take(k as int), c as int, s)));
            assert forall|s: int|
                0 <= s < old(self).n_sels() implies self.sel_dirty@[s] == (
            old(self).sel_dirty@[s] || old(self).has_edge(c as int, s)) by {
                assert(self.sel_dirty@[s] == (mid.sel_dirty@[s] || edge_in(
                    mid.edges@.take(k as int),
                    c as int,
                    s,
                )));
                lemma_edge_in_take_full(mid.edges@, c as int, s);
            }
            assert(self.vals() =~= old(self).vals().update(c as int, v@));
            assert(write_step(*old(self), *self, c as int, v@));
            assert forall|s: int|
                0 <= s < self.n_sels() && self.sel_live@[s] && !(#[trigger] self.sel_dirty@[s])
                implies self.sel_clean_ok(s) by {
                assert(!old(self).sel_dirty@[s]);
                assert(!old(self).has_edge(c as int, s));
                assert(old(self).sel_clean_ok(s));
                assert(!reads_of(old(self).vals(), old(self).sel_exprs@[s]).contains(c as int));
                lemma_reads_in_bounds(old(self).vals(), old(self).sel_exprs@[s], old(self).n_cells());
                lemma_eval_frame(old(self).vals(), self.vals(), old(self).sel_exprs@[s]);
                assert forall|x: int|
                    self.has_edge(x, s) <==> reads_of(self.vals(), self.sel_exprs@[s]).contains(x) by {
                    assert(old(self).has_edge(x, s) <==> reads_of(
                        old(self).vals(),
                        old(self).sel_exprs@[s],
                    ).contains(x));
                }
            }
        }
        Ok(())
    }

    /// Allocates a selector bound to recompute function `e`: no cached value
    /// yet, dirty, so the first read runs it. Rejects an expression that
    /// reads a dead or unknown cell or still carries reconciler placeholders.
    pub fn create_selector(&mut self, e: Expr) -> (r: Result<usize, EngineError>)
        requires
            old(self).wf(),
        ensures
            final(self).wf(),
            (r is Ok) == expr_ok_spec(e, old(self).cell_live@),
            r matches Ok(id) ==> {
                &&& id == old(self).n_sels()
                &&& final(self).sel_exprs@ == old(self).sel_exprs@.push(e)
                &&& final(self).sel_cache@ == old(self).sel_cache@.push(None::<Value>)
                &&& final(self).sel_dirty@ == old(self).sel_dirty@.push(true)
                &&& final(self).sel_live@ == old(self).sel_live@.push(true)
                &&& final(self).sel_recs@ == old(self).sel_recs@.push(0u64)
                &&& final(self).cell_vals@ == old(self).cell_vals@
                &&& final(self).cell_vers@ == old(self).cell_vers@
                &&& final(self).cell_live@ == old(self).cell_live@
                &&& final(self).edges@ == old(self).edges@
            },
            r matches Err(err) ==> *final(self) == *old(self) && err == EngineError::StaleHandle,
    {
        if !expr_ok(&e, &self.cell_live) {
            return Err(EngineError::StaleHandle);
        }
        proof {
            lemma_ok_implies_wf(e, self.cell_live@);
        }
        let id = self.sel_exprs.len();
        self.sel_exprs.push(e);
        self.sel_cache.push(None);
        self.sel_dirty.push(true);
        self.sel_live.push(true);
        self.sel_recs.push(0);
        proof {
            assert forall|s: int|
                0 <= s < self.n_sels() && self.sel_live@[s] && !(#[trigger] self.sel_dirty@[s])
                implies self.sel_clean_ok(s) by {
                assert(s < old(self).n_sels());
                assert(!old(self).sel_dirty@[s]);
                assert(old(self).sel_clean_ok(s));
                assert forall|c: int|
                    self.has_edge(c, s) <==> reads_of(self.vals(), self.sel_exprs@[s]).contains(c) by {
                    assert(old(self).has_edge(c, s) <==> reads_of(
                        old(self).vals(),
                        old(self).sel_exprs@[s],
                    ).contains(c));
                }
            }
        }
        Ok(id)
    }
}

/// What recomputing a dirty selector does: its dirty flag falls, its run
/// counter bumps, its cache takes the current denotation, and its recorded
/// edges become exactly the cells the run read; nothing else moves.
pub open spec fn recompute_step(pre: Engine, post: Engine, s: int) -> bool {
    &&& post.cell_vals@ == pre.cell_vals@
    &&& post.cell_vers@ == pre.cell_vers@
    &&& post.cell_live@ == pre.cell_live@
    &&& post.sel_exprs@ == pre.sel_exprs@
    &&& post.sel_live@ == pre.sel_live@
    &&& post.sel_dirty@ == pre.sel_dirty@.update(s, false)
    &&& post.sel_recs@ == pre.sel_recs@.update(s, bump_spec(pre.sel_recs@[s]))
    &&& post.sel_cache@.len() == pre.sel_cache@.len()
    &&& post.sel_cache@[s] matches Some(cv) && cv@ == pre.sel_denotation(s)
    &&& forall|t: int| 0 <= t < pre.n_sels() && t != s ==> post.sel_cache@[t] == pre.sel_cache@[t]
    &&& forall|x: int, t: int| #[trigger] edge_in(post.edges@, x, t) == (if t == s {
        reads_of(pre.vals(), pre.sel_exprs@[s]).contains(x)
    } else {
        edge_in(pre.edges@, x, t)
    })
}

/// What reading a selector does: a cache hit leaves the graph untouched, a
/// dirty selector recomputes once.
pub open spec fn read_step(pre: Engine, post: Engine, s: int) -> bool {
    if pre.sel_dirty@[s] {
        recompute_step(pre, post, s)
    } else {
        post == pre
    }
}

/// Interprets `e` against the cell store, appending one edge `cell -> s`
/// for every cell the run reads.
fn eval_track(cells: &Vec<Value>, edges: &mut Vec<Edge>, s: usize, e: &Expr) -> (v: Value)
    requires
        expr_wf(*e, cells@.len()),
    ensures
        v@ == eval(vals_of(cells@), *e),
        forall|x: int, t: int| #[trigger] edge_in(final(edges)@, x, t) == (edge_in(old(edges)@, x, t)
            || (t == s && reads_of(vals_of(cells@), *e).contains(x))),
    decreases *e,
{
    match e {
        Expr::Read(c) => {
            let ghost before = edges@;
            edges.push(Edge { cell: *c, sel: s });
            proof {
                assert forall|x: int, t: int| #[trigger] edge_in(edges@, x, t) == (edge_in(
                    before,
                    x,
                    t,
                ) || (t == s && reads_of(vals_of(cells@), *e).contains(x))) by {
                    lemma_edge_in_push(before, Edge { cell: *c, sel: s }, x, t);
                }
                assert(vals_of(cells@)[*c as int] == cells@[*c as int]@);
            }
            clone_value(&cells[*c])
        },
        Expr::Lit(v) => clone_value(v),
        Expr::Contains(a, b) => {
            let ghost e0 = edges@;
            let va = eval_track(cells, edges, s, a);
            let vb = eval_track(cells, edges, s, b);
            proof {
                assert forall|x: int, t: int| #[trigger] edge_in(edges@, x, t) == (edge_in(e0, x, t)
                    || (t == s && reads_of(vals_of(cells@), *e).contains(x))) by {}
            }
            match (va, vb) {
                (Value::Text(hay), Value::Text(needle)) => Value::Flag(
                    crate::value::text_contains(&hay, &needle),
                ),
                (va2, vb2) => {
                    proof {
                        assert(!(eval(vals_of(cells@), **a) is Text && eval(vals_of(cells@), **b)
                            is Text));
                    }
                    Value::Flag(false)
                },
            }
        },
        Expr::Ite(c, t, f) => {
            let vc = eval_track(cells, edges, s, c);
            let take_then = match vc {
                Value::Flag(b) => b,
                _ => false,
            };
            if take_then {
                eval_track(cells, edges, s, t)
            } else {
                eval_track(cells, edges, s, f)
            }
        },
        Expr::Item => {
            proof {
                assert(false);
            }
            Value::Flag(false)
        },
        Expr::Provided(_) => {
            proof {
                assert(false);
            }
            Value::Flag(false)
        },
    }
}

impl Engine {
    /// Reads a selector: recomputes it if and only if it is dirty, rebuilding
    /// its dependency set from what the run actually read, and returns the
    /// (now guaranteed fresh) cached value — the current denotation.
    pub fn read_selector(&mut self, s: usize) -> (r: Result<Value, EngineError>)
        requires
            old(self).wf(),
        ensures
            final(self).wf(),
            (r is Ok) == (s < old(self).n_sels() && old(self).sel_live@[s as int]),
            r matches Ok(v) ==> v@ == old(self).sel_denotation(s as int) && read_step(
                *old(self),
                *final(self),
                s as int,
            ),
            r matches Err(e) ==> *final(self) == *old(self) && e == EngineError::StaleHandle,
    {
        if s >= self.sel_exprs.len() || !self.sel_live[s] {
            return Err(EngineError::StaleHandle);
        }
        if !self.sel_dirty[s] {
            proof {
                assert(!self.sel_dirty@[s as int]);
                assert(self.sel_clean_ok(s as int));
            }
            match &self.sel_cache[s] {
                Some(v) => {
                    return Ok(clone_value(v));
                },
                None => {
                    proof {
                        assert(false);
                    }
                    return Err(EngineError::StaleHandle);
                },
            }
        }
        // Recompute: first drop every recorded edge into `s` (the dependency
        // set is rebuilt from scratch by the run below).
        let mut kept: Vec<Edge> = Vec::new();
        let mut k: usize = 0;
        while k < self.edges.len()
            invariant
                *self == *old(self),
                k <= self.edges@.len(),
                forall|x: int, t: int| #[trigger] edge_in(kept@, x, t) == (edge_in(
                    self.edges@.take(k as int),
                    x,
                    t,
                ) && t != s),
            decreases self.edges@.len() - k,
        {
            let ed = self.edges[k];
            let ghost kept_prev = kept@;
            if ed.sel != s {
                kept.push(ed);
            }
            proof {
                assert(forall|x: int, t: int| #[trigger] edge_in(kept_prev, x, t) == (edge_in(
                    self.edges@.take(k as int),
                    x,
                    t,
                ) && t != s));
                assert(ed == self.edges@[k as int]);
                assert forall|x: int, t: int| #[trigger] edge_in(kept@, x, t) == (edge_in(
                    self.edges@.take(k + 1),
                    x,
                    t,
                ) && t != s) by {
                    lemma_edge_in_take_step(self.edges@, k as int, x, t);
                    if ed.sel != s {
                        lemma_edge_in_push(kept_prev, ed, x, t);
                    }
                }
            }
            k = k + 1;
        }
        proof {
            assert(forall|x: int, t: int| #[trigger] edge_in(kept@, x, t) == (edge_in(
                self.edges@.take(k as int),
                x,
                t,
            ) && t != s));
            assert forall|x: int, t: int| #[trigger] edge_in(kept@, x, t) == (edge_in(
                old(self).edges@,
                x,
                t,
            ) && t != s) by {
                assert(edge_in(kept@, x, t) == (edge_in(self.edges@.take(k as int), x, t) && t
                    != s));
                lemma_edge_in_take_full(self.edges@, x, t);
            }
        }
        self.edges = kept;
        let ghost pre_run = *self;
        let v = eval_track(&self.cell_vals, &mut self.edges, s, &self.sel_exprs[s]);
        let cached = clone_value(&v);
        self.sel_cache[s] = Some(cached);
        self.sel_dirty[s] = false;
        let rc = self.sel_recs[s];
        self.sel_recs[s] = bump(rc);
        proof {
            let ghost g0 = *old(self);
            assert(forall|x: int, t: int| #[trigger] edge_in(self.edges@, x, t) == (edge_in(
                pre_run.edges@,
                x,
                t,
            ) || (t == s && reads_of(vals_of(g0.cell_vals@), g0.sel_exprs@[s as int]).contains(
                x,
            ))));
            assert forall|x: int, t: int| #[trigger] edge_in(self.edges@, x, t) == (if t == s {
                reads_of(g0.vals(), g0.sel_exprs@[s as int]).contains(x)
            } else {
                edge_in(g0.edges@, x, t)
            }) by {
                assert(edge_in(pre_run.edges@, x, t) == (edge_in(g0.edges@, x, t) && t != s));
            }
            assert(recompute_step(g0, *self, s as int));
            // Well-formedness of the post state.
            assert forall|x: int, t: int| #[trigger] edge_in(self.edges@, x, t) implies 0 <= x
                < self.n_cells() && 0 <= t < self.n_sels() && self.sel_live@[t] by {
                if t == s {
                    lemma_reads_in_bounds(g0.vals(), g0.sel_exprs@[s as int], g0.n_cells());
                } else {
                    assert(edge_in(g0.edges@, x, t));
                }
            }
            assert forall|t: int|
                0 <= t < self.n_sels() && self.sel_live@[t] && !(#[trigger] self.sel_dirty@[t])
                implies self.sel_clean_ok(t) by {
                if t == s {
                    assert(self.sel_cache@[t] matches Some(cv) && cv@ == self.sel_denotation(t));
                } else {
                    assert(!g0.sel_dirty@[t]);
                    assert(g0.sel_clean_ok(t));
                    assert forall|x: int|
                        self.has_edge(x, t) <==> reads_of(self.vals(), self.sel_exprs@[t]).contains(
                            x,
                        ) by {
                        assert(g0.has_edge(x, t) <==> reads_of(g0.vals(), g0.sel_exprs@[t]).contains(
                            x,
                        ));
                        assert(edge_in(self.edges@, x, t) == edge_in(g0.edges@, x, t));
                    }
                }
            }
        }
        Ok(v)
    }

    /// Reads a selector and reports whether its fresh value differs from
    /// the previously cached one: the equality-based damping signal. A
    /// recompute that lands on an equal value is "no change" — a renderer
    /// keying on the flag skips the re-render.
    pub fn read_selector_changed(&mut self, s: usize) -> (r: Result<(Value, bool), EngineError>)
        requires
            old(self).wf(),
        ensures
            final(self).wf(),
            (r is Ok) == (s < old(self).n_sels() && old(self).sel_live@[s as int]),
            r matches Ok(p) ==> {
                &&& p.0@ == old(self).sel_denotation(s as int)
                &&& read_step(*old(self), *final(self), s as int)
                &&& p.1 == !(old(self).sel_cache@[s as int] matches Some(cv) && cv@ == p.0@)
            },
            r matches Err(e) ==> *final(self) == *old(self) && e == EngineError::StaleHandle,
    {
        if s >= self.sel_cache.len() || !self.sel_live[s] {
            return Err(EngineError::StaleHandle);
        }
        let prev: Option<Value> = match &self.sel_cache[s] {
            Some(v) => Some(clone_value(v)),
            None => None,
        };
        match self.read_selector(s) {
            Ok(v) => {
                let changed = match &prev {
                    Some(p) => !value_eq(p, &v),
                    None => true,
                };
                Ok((v, changed))
            },
            Err(err) => {
                proof {
                    assert(false);
                }
                Err(err)
            },
        }
    }

    /// Replaces a live cell's value with a function of its current value:
    /// one read, one write, with the write's full propagation semantics.
    pub fn modify<F: FnOnce(Value) -> Value>(&mut self, c: usize, f: F) -> (r: Result<
        (),
        EngineError,
    >)
        requires
            old(self).wf(),
            forall|v: Value| v@ == old(self).vals()[c as int] ==> call_requires(f, (v,)),
        ensures
            final(self).wf(),
            (r is Ok) == (c < old(self).n_cells() && old(self).cell_live@[c as int]),
            r is Ok ==> exists|prev: Value, next: Value|
                {
                    &&& prev@ == old(self).vals()[c as int]
                    &&& #[trigger] call_ensures(f, (prev,), next)
                    &&& write_step(*old(self), *final(self), c as int, next@)
                },
            r matches Err(e) ==> *final(self) == *old(self) && e == EngineError::StaleHandle,
    {
        if c >= self.cell_vals.len() || !self.cell_live[c] {
            return Err(EngineError::StaleHandle);
        }
        let prev = match self.read_cell(c) {
            Ok(v) => v,
            Err(_) => {
                proof {
                    assert(false);
                }
                Value::Flag(false)
            },
        };
        let ghost prev_g = prev;
        let next = f(prev);
        match self.write_cell(c, next) {
            Ok(_) => {
                proof {
                    assert(call_ensures(f, (prev_g,), next));
                }
                Ok(())
            },
            Err(_) => {
                proof {
                    assert(false);
                }
                Err(EngineError::StaleHandle)
            },
        }
    }

    /// Marks a selector dirty by hand, as an upstream invalidation would.
    pub fn invalidate(&mut self, s: usize) -> (r: Result<(), EngineError>)
        requires
            old(self).wf(),
        ensures
            final(self).wf(),
            (r is Ok) == (s < old(self).n_sels() && old(self).sel_live@[s as int]),
            r is Ok ==> {
                &&& final(self).sel_dirty@ == old(self).sel_dirty@.update(s as int, true)
                &&& final(self).cell_vals@ == old(self).cell_vals@
                &&& final(self).cell_vers@ == old(self).cell_vers@
                &&& final(self).cell_live@ == old(self).cell_live@
                &&& final(self).sel_exprs@ == old(self).sel_exprs@
                &&& final(self).sel_cache@ == old(self).sel_cache@
                &&& final(self).sel_live@ == old(self).sel_live@
                &&& final(self).sel_recs@ == old(self).sel_recs@
                &&& final(self).edges@ == old(self).edges@
            },
            r matches Err(e) ==> *final(self) == *old(self) && e == EngineError::StaleHandle,
    {
        if s >= self.sel_dirty.len() || !self.sel_live[s] {
            return Err(EngineError::StaleHandle);
        }
        self.sel_dirty[s] = true;
        proof {
            assert forall|t: int|
                0 <= t < self.n_sels() && self.sel_live@[t] && !(#[trigger] self.sel_dirty@[t])
                implies self.sel_clean_ok(t) by {
                assert(!old(self).sel_dirty@[t]);
                assert(old(self).sel_clean_ok(t));
                assert forall|x: int|
                    self.has_edge(x, t) <==> reads_of(self.vals(), self.sel_exprs@[t]).contains(
                        x,
                    ) by {
                    assert(old(self).has_edge(x, t) <==> reads_of(
                        old(self).vals(),
                        old(self).sel_exprs@[t],
                    ).contains(x));
                }
            }
        }
        Ok(())
    }

    /// Tears a selector down: it goes dead, its cached output is freed, and
    /// every subscriber-set membership it held is released synchronously —
    /// no dangling edge survives into the dead slot.
    pub fn dispose_selector(&mut self, s: usize) -> (r: Result<(), EngineError>)
        requires
            old(self).wf(),
        ensures
            final(self).wf(),
            (r is Ok) == (s < old(self).n_sels() && old(self).sel_live@[s as int]),
            r is Ok ==> {
                &&& final(self).sel_live@ == old(self).sel_live@.update(s as int, false)
                &&& final(self).sel_cache@ == old(self).sel_cache@.update(s as int, None::<Value>)
                &&& final(self).cell_vals@ == old(self).cell_vals@
                &&& final(self).cell_vers@ == old(self).cell_vers@
                &&& final(self).cell_live@ == old(self).cell_live@
                &&& final(self).sel_exprs@ == old(self).sel_exprs@
                &&& final(self).sel_dirty@ == old(self).sel_dirty@
                &&& final(self).sel_recs@ == old(self).sel_recs@
                &&& forall|x: int, t: int| #[trigger] edge_in(final(self).edges@, x, t) == (edge_in(
                    old(self).edges@,
                    x,
                    t,
                ) && t != s)
            },
            r matches Err(e) ==> *final(self) == *old(self) && e == EngineError::StaleHandle,
    {
        if s >= self.sel_live.len() || !self.sel_live[s] {
            return Err(EngineError::StaleHandle);
        }
        let mut kept: Vec<Edge> = Vec::new();
        let mut k: usize = 0;
        while k < self.edges.len()
            invariant
                *self == *old(self),
                k <= self.edges@.len(),
                forall|x: int, t: int| #[trigger] edge_in(kept@, x, t) == (edge_in(
                    self.edges@.take(k as int),
                    x,
                    t,
                ) && t != s),
            decreases self.edges@.len() - k,
        {
            let ed = self.edges[k];
            let ghost kept_prev = kept@;
            if ed.sel != s {
                kept.push(ed);
            }
            proof {
                assert(forall|x: int, t: int| #[trigger] edge_in(kept_prev, x, t) == (edge_in(
                    self.edges@.take(k as int),
                    x,
                    t,
                ) && t != s));
                assert(ed == self.edges@[k as int]);
                assert forall|x: int, t: int| #[trigger] edge_in(kept@, x, t) == (edge_in(
                    self.edges@.take(k + 1),
                    x,
                    t,
                ) && t != s) by {
                    lemma_edge_in_take_step(self.edges@, k as int, x, t);
                    if ed.sel != s {
                        lemma_edge_in_push(kept_prev, ed, x, t);
                    }
                }
            }
            k = k + 1;
        }
        proof {
            assert(forall|x: int, t: int| #[trigger] edge_in(kept@, x, t) == (edge_in(
                self.edges@.take(k as int),
                x,
                t,
            ) && t != s));
            assert forall|x: int, t: int| #[trigger] edge_in(kept@, x, t) == (edge_in(
                old(self).edges@,
                x,
                t,
            ) && t != s) by {
                assert(edge_in(kept@, x, t) == (edge_in(self.edges@.take(k as int), x, t) && t
                    != s));
                lemma_edge_in_take_full(self.edges@, x, t);
            }
        }
        self.edges = kept;
        self.sel_live[s] = false;
        self.sel_cache[s] = None;
        proof {
            assert forall|t: int|
                0 <= t < self.n_sels() && self.sel_live@[t] && !(#[trigger] self.sel_dirty@[t])
                implies self.sel_clean_ok(t) by {
                assert(t != s);
                assert(!old(self).sel_dirty@[t]);
                assert(old(self).sel_clean_ok(t));
                assert forall|x: int|
                    self.has_edge(x, t) <==> reads_of(self.vals(), self.sel_exprs@[t]).contains(
                        x,
                    ) by {
                    assert(old(self).has_edge(x, t) <==> reads_of(
                        old(self).vals(),
                        old(self).sel_exprs@[t],
                    ).contains(x));
                    assert(edge_in(self.edges@, x, t) == (edge_in(old(self).edges@, x, t) && t
                        != s));
                }
            }
        }
        Ok(())
    }

    /// Tears a cell down: it goes dead (keeping its last value in the dead
    /// slot), its dependents are invalidated one final time, and all its
    /// recorded edges are released.
    pub fn dispose_cell(&mut self, c: usize) -> (r: Result<(), EngineError>)
        requires
            old(self).wf(),
        ensures
            final(self).wf(),
            (r is Ok) == (c < old(self).n_cells() && old(self).cell_live@[c as int]),
            r is Ok ==> {
                &&& final(self).cell_live@ == old(self).cell_live@.update(c as int, false)
                &&& final(self).cell_vals@ == old(self).cell_vals@
                &&& final(self).cell_vers@ == old(self).cell_vers@
                &&& final(self).sel_exprs@ == old(self).sel_exprs@
                &&& final(self).sel_cache@ == old(self).sel_cache@
                &&& final(self).sel_live@ == old(self).sel_live@
                &&& final(self).sel_recs@ == old(self).sel_recs@
                &&& final(self).sel_dirty@.len() == old(self).sel_dirty@.len()
                &&& forall|s: int| 0 <= s < old(self).n_sels() ==> final(self).sel_dirty@[s] == (
                    old(self).sel_dirty@[s] || old(self).has_edge(c as int, s))
                &&& forall|x: int, t: int| #[trigger] edge_in(final(self).edges@, x, t) == (edge_in(
                    old(self).edges@,
                    x,
                    t,
                ) && x != c)
            },
            r matches Err(e) ==> *final(self) == *old(self) && e == EngineError::StaleHandle,
    {
        if c >= self.cell_live.len() || !self.cell_live[c] {
            return Err(EngineError::StaleHandle);
        }
        let ghost mid = *self;
        let mut k: usize = 0;
        while k < self.edges.len()
            invariant
                self.edges@ == mid.edges@,
                self.cell_vals@ == mid.cell_vals@,
                self.cell_vers@ == mid.cell_vers@,
                self.cell_live@ == mid.cell_live@,
                self.sel_exprs@ == mid.sel_exprs@,
                self.sel_cache@ == mid.sel_cache@,
                self.sel_live@ == mid.sel_live@,
                self.sel_recs@ == mid.sel_recs@,
                self.sel_dirty@.len() == mid.sel_dirty@.len(),
                mid == *old(self),
                k <= self.edges@.len(),
                old(self).wf(),
                c < old(self).n_cells(),
                forall|s: int|
                    0 <= s < mid.sel_dirty@.len() ==> self.sel_dirty@[s] == (mid.sel_dirty@[s]
                        || edge_in(mid.edges@.take(k as int), c as int, s)),
            decreases self.edges@.len() - k,
        {
            let ed = self.edges[k];
            let ghost prev = *self;
            proof {
                assert(forall|s: int|
                    0 <= s < mid.sel_dirty@.len() ==> prev.sel_dirty@[s] == (mid.sel_dirty@[s]
                        || edge_in(mid.edges@.take(k as int), c as int, s)));
            }
            if ed.cell == c {
                proof {
                    assert(edge_in(old(self).edges@, ed.cell as int, ed.sel as int));
                }
                self.sel_dirty[ed.sel] = true;
            }
            proof {
                assert(ed == mid.edges@[k as int]);
                assert forall|s: int|
                    0 <= s < mid.sel_dirty@.len() implies self.sel_dirty@[s] == (
                mid.sel_dirty@[s] || edge_in(mid.edges@.take(k + 1), c as int, s)) by {
                    lemma_edge_in_take_step(mid.edges@, k as int, c as int, s);
                    if !(ed.cell == c && ed.sel == s) {
                        assert(self.sel_dirty@[s] == prev.sel_dirty@[s]);
                    }
                }
            }
            k = k + 1;
        }
        proof {
            assert(forall|s: int|
                0 <= s < mid.sel_dirty@.len() ==> self.sel_dirty@[s] == (mid.sel_dirty@[s]
                    || edge_in(mid.edges@.take(k as int), c as int, s)));
            assert forall|s: int|
                0 <= s < old(self).n_sels() implies self.sel_dirty@[s] == (
            old(self).sel_dirty@[s] || old(self).has_edge(c as int, s)) by {
                assert(self.sel_dirty@[s] == (mid.sel_dirty@[s] || edge_in(
                    mid.edges@.take(k as int),
                    c as int,
                    s,
                )));
                lemma_edge_in_take_full(mid.edges@, c as int, s);
            }
        }
        let ghost dirtied = *self;
        let mut kept: Vec<Edge> = Vec::new();
        let mut k2: usize = 0;
        while k2 < self.edges.len()
            invariant
                *self == dirtied,
                dirtied.edges@ == old(self).edges@,
                k2 <= self.edges@.len(),
                forall|x: int, t: int| #[trigger] edge_in(kept@, x, t) == (edge_in(
                    self.edges@.take(k2 as int),
                    x,
                    t,
                ) && x != c),
            decreases self.edges@.len() - k2,
        {
            let ed = self.edges[k2];
            let ghost kept_prev = kept@;
            if ed.cell != c {
                kept.push(ed);
            }
            proof {
                assert(forall|x: int, t: int| #[trigger] edge_in(kept_prev, x, t) == (edge_in(
                    self.edges@.take(k2 as int),
                    x,
                    t,
                ) && x != c));
                assert(ed == self.edges@[k2 as int]);
                assert forall|x: int, t: int| #[trigger] edge_in(kept@, x, t) == (edge_in(
                    self.edges@.take(k2 + 1),
                    x,
                    t,
                ) && x != c) by {
                    lemma_edge_in_take_step(self.edges@, k2 as int, x, t);
                    if ed.cell != c {
                        lemma_edge_in_push(kept_prev, ed, x, t);
                    }
                }
            }
            k2 = k2 + 1;
        }
        proof {
            assert(forall|x: int, t: int| #[trigger] edge_in(kept@, x, t) == (edge_in(
                self.edges@.take(k2 as int),
                x,
                t,
            ) && x != c));
            assert forall|x: int, t: int| #[trigger] edge_in(kept@, x, t) == (edge_in(
                old(self).edges@,
                x,
                t,
            ) && x != c) by {
                assert(edge_in(kept@, x, t) == (edge_in(self.edges@.take(k2 as int), x, t) && x
                    != c));
                lemma_edge_in_take_full(self.edges@, x, t);
            }
        }
        self.edges = kept;
        self.cell_live[c] = false;
        proof {
            assert forall|t: int|
                0 <= t < self.n_sels() && self.sel_live@[t] && !(#[trigger] self.sel_dirty@[t])
                implies self.sel_clean_ok(t) by {
                assert(!old(self).sel_dirty@[t]);
                assert(!old(self).has_edge(c as int, t));
                assert(old(self).sel_clean_ok(t));
                assert(!reads_of(old(self).vals(), old(self).sel_exprs@[t]).contains(c as int));
                assert forall|x: int|
                    self.has_edge(x, t) <==> reads_of(self.vals(), self.sel_exprs@[t]).contains(
                        x,
                    ) by {
                    assert(old(self).has_edge(x, t) <==> reads_of(
                        old(self).vals(),
                        old(self).sel_exprs@[t],
                    ).contains(x));
                    assert(edge_in(self.edges@, x, t) == (edge_in(old(self).edges@, x, t) && x
                        != c));
                }
            }
        }
        Ok(())
    }
}

} // verus!
