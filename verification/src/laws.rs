//! The engine's propagation laws, stated over the step relations that the
//! engine's operations ensure and proved once and for all.
use vstd::prelude::*;
use crate::engine::{Engine, write_step, read_step, recompute_step};
use crate::expr::{eval, reads_of, lemma_eval_frame, lemma_reads_in_bounds};
use crate::value::Val;

verus! {

/// Law: read-after-write consistency. After any two successive writes to
/// the same cell, the store holds the later value — a read returns the most
/// recent write, never an earlier one — and no other cell moved.
pub proof fn law_read_after_write(pre: Engine, mid: Engine, post: Engine, c: int, v1: Val, v2: Val)
    requires
        pre.wf(),
        0 <= c < pre.n_cells(),
        write_step(pre, mid, c, v1),
        write_step(mid, post, c, v2),
    ensures
        post.vals()[c] == v2,
        forall|d: int| 0 <= d < pre.n_cells() && d != c ==> post.vals()[d] == pre.vals()[d],
{
    assert(mid.vals() == pre.vals().update(c, v1));
    assert(post.vals() == mid.vals().update(c, v2));
}

/// Law: no missed invalidation. Writing a cell that a clean live selector's
/// current run reads marks that selector dirty, and the selector's
/// denotation — what any subsequent read returns, by `read_selector`'s
/// contract — is evaluated against the store holding the new value.
pub proof fn law_no_missed_invalidation(pre: Engine, post: Engine, c: int, v: Val, s: int)
    requires
        pre.wf(),
        0 <= c < pre.n_cells(),
        0 <= s < pre.n_sels(),
        pre.sel_live@[s],
        !pre.sel_dirty@[s],
        reads_of(pre.vals(), pre.sel_exprs@[s]).contains(c),
        write_step(pre, post, c, v),
    ensures
        post.sel_dirty@[s],
        post.sel_denotation(s) == eval(pre.vals().update(c, v), pre.sel_exprs@[s]),
{
    assert(!pre.sel_dirty@[s]);
    assert(pre.sel_clean_ok(s));
    assert(pre.has_edge(c, s));
}

/// Law: a read of a clean selector is a cache hit. It leaves the whole
/// graph untouched; in particular the recompute function does not run.
pub proof fn law_cached_read_is_free(pre: Engine, post: Engine, s: int)
    requires
        0 <= s < pre.n_sels(),
        !pre.sel_dirty@[s],
        read_step(pre, post, s),
    ensures
        post == pre,
        post.sel_recs@[s] == pre.sel_recs@[s],
{
}

/// Law: no redundant recomputation. Whatever the first of two back-to-back
/// reads did, the second one — no dependency having changed in between —
/// runs the recompute function zero times.
pub proof fn law_no_redundant_recompute(pre: Engine, mid: Engine, post: Engine, s: int)
    requires
        0 <= s < pre.n_sels(),
        pre.sel_dirty@.len() == pre.n_sels(),
        read_step(pre, mid, s),
        read_step(mid, post, s),
    ensures
        post == mid,
        post.sel_recs@[s] == mid.sel_recs@[s],
{
    if pre.sel_dirty@[s] {
        assert(mid.sel_dirty@ == pre.sel_dirty@.update(s, false));
        assert(!mid.sel_dirty@[s]);
    }
}

/// Law: dynamic dependency pruning. A write to a cell that the selector's
/// current run does not read — even one an earlier run did read — leaves
/// the selector clean and its denotation unchanged.
pub proof fn law_dynamic_dependency_pruning(pre: Engine, post: Engine, c: int, v: Val, s: int)
    requires
        pre.wf(),
        0 <= c < pre.n_cells(),
        0 <= s < pre.n_sels(),
        pre.sel_live@[s],
        !pre.sel_dirty@[s],
        !reads_of(pre.vals(), pre.sel_exprs@[s]).contains(c),
        write_step(pre, post, c, v),
    ensures
        !post.sel_dirty@[s],
        post.sel_denotation(s) == pre.sel_denotation(s),
{
    assert(!pre.sel_dirty@[s]);
    assert(pre.sel_clean_ok(s));
    assert(!pre.has_edge(c, s));
    lemma_reads_in_bounds(pre.vals(), pre.sel_exprs@[s], pre.n_cells());
    lemma_eval_frame(pre.vals(), post.vals(), pre.sel_exprs@[s]);
}

/// Law: a write between two reads to a cell outside the selector's current
/// dependency set forces no recomputation: the second read is still a
/// cache hit and the graph does not move.
pub proof fn law_unrelated_write_keeps_cache(
    pre: Engine,
    mid: Engine,
    post: Engine,
    c: int,
    v: Val,
    s: int,
)
    requires
        pre.wf(),
        0 <= c < pre.n_cells(),
        0 <= s < pre.n_sels(),
        pre.sel_live@[s],
        !pre.sel_dirty@[s],
        !reads_of(pre.vals(), pre.sel_exprs@[s]).contains(c),
        write_step(pre, mid, c, v),
        read_step(mid, post, s),
    ensures
        post == mid,
        post.sel_recs@[s] == pre.sel_recs@[s],
{
    law_dynamic_dependency_pruning(pre, mid, c, v, s);
    law_cached_read_is_free(mid, post, s);
}

/// Law: a recompute rebuilds the dependency set exactly. After the run, the
/// recorded edges into the selector are precisely the cells the run read
/// against the current store — stale dependencies are gone, new ones are in.
pub proof fn law_recompute_rebuilds_dependencies(pre: Engine, post: Engine, s: int, c: int)
    requires
        0 <= s < pre.n_sels(),
        recompute_step(pre, post, s),
    ensures
        post.has_edge(c, s) == reads_of(pre.vals(), pre.sel_exprs@[s]).contains(c),
{
}

/// Law: disposal is final. A disposed selector holds no edges (the engine
/// invariant forbids edges into dead slots), so a later write anywhere
/// never touches it: its flags and freed cache stay exactly as they are.
pub proof fn law_disposed_stays_untouched(pre: Engine, post: Engine, c: int, v: Val, s: int)
    requires
        pre.wf(),
        0 <= s < pre.n_sels(),
        !pre.sel_live@[s],
        write_step(pre, post, c, v),
    ensures
        post.sel_dirty@[s] == pre.sel_dirty@[s],
        !post.sel_live@[s],
        post.sel_cache@[s] == pre.sel_cache@[s],
{
    if pre.has_edge(c, s) {
        assert(pre.sel_live@[s]);
    }
}

} // verus!
