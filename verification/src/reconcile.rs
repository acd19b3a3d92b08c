//! The keyed list reconciler: diffs an ordered item sequence by stable key,
//! mounts one computation subtree (payload cell plus selector) per new key,
//! disposes subtrees of vanished keys, retains surviving subtrees with
//! their identity, and keeps the outputs in the sequence's order.
use vstd::prelude::*;
use crate::EngineError;
use crate::context::{ContextRegistry, Binding, lookup_spec};
use crate::engine::{Engine, edge_in};
use crate::expr::{Expr, expr_ok_spec};
use crate::value::{Val, Value, clone_value, value_eq};

verus! {

/// One item of the source sequence: a caller-stable key and a payload.
pub struct Item {
    pub key: u64,
    pub payload: Value,
}

/// One mounted subtree: the item's payload cell and its output selector.
#[derive(Clone, Copy)]
pub struct Entry {
    pub key: u64,
    pub cell: usize,
    pub sel: usize,
}

/// No two entries share a key.
pub open spec fn entry_keys_distinct(es: Seq<Entry>) -> bool {
    forall|i: int, j: int| 0 <= i < j < es.len() ==> es[i].key != es[j].key
}

/// No two items share a key.
pub open spec fn items_distinct(items: Seq<Item>) -> bool {
    forall|i: int, j: int| 0 <= i < j < items.len() ==> items[i].key != items[j].key
}

/// Some entry carries this key.
pub open spec fn has_key(es: Seq<Entry>, key: u64) -> bool {
    exists|i: int| 0 <= i < es.len() && es[i].key == key
}

/// Some item carries this key.
pub open spec fn item_has_key(items: Seq<Item>, key: u64) -> bool {
    exists|i: int| 0 <= i < items.len() && items[i].key == key
}

/// The entry's slots exist and are alive in the engine.
pub open spec fn entry_ok(e: Entry, g: Engine) -> bool {
    &&& e.cell < g.n_cells()
    &&& g.cell_live@[e.cell as int]
    &&& e.sel < g.n_sels()
    &&& g.sel_live@[e.sel as int]
}

/// The reconciler's tie to the engine: distinct keys, one live subtree per
/// entry, and no two entries sharing a cell or a selector.
pub open spec fn kl_wf(kl: KeyedList, g: Engine) -> bool {
    &&& entry_keys_distinct(kl.entries@)
    &&& forall|i: int| 0 <= i < kl.entries@.len() ==> entry_ok(#[trigger] kl.entries@[i], g)
    &&& forall|i: int, j: int|
        0 <= i < j < kl.entries@.len() ==> kl.entries@[i].cell != kl.entries@[j].cell
            && kl.entries@[i].sel != kl.entries@[j].sel
}

/// The keyed list: the mounted entries, in the source sequence's order.
pub struct KeyedList {
    pub entries: Vec<Entry>,
}

/// Some context key the template asks for has no provider on this stack.
pub open spec fn tmpl_missing(e: Expr, binds: Seq<Binding>) -> bool
    decreases e,
{
    match e {
        Expr::Provided(k) => lookup_spec(binds, k) is None,
        Expr::Contains(a, b) => tmpl_missing(*a, binds) || tmpl_missing(*b, binds),
        Expr::Ite(c, t, f) => tmpl_missing(*c, binds) || tmpl_missing(*t, binds) || tmpl_missing(
            *f,
            binds,
        ),
        _ => false,
    }
}

/// Every cell the template names — directly or through a provider — exists
/// and is alive in this store.
pub open spec fn tmpl_live(e: Expr, binds: Seq<Binding>, live: Seq<bool>) -> bool
    decreases e,
{
    match e {
        Expr::Read(c) => c < live.len() && live[c as int],
        Expr::Provided(k) => match lookup_spec(binds, k) {
            Some(c) => c < live.len() && live[c as int],
            None => true,
        },
        Expr::Contains(a, b) => tmpl_live(*a, binds, live) && tmpl_live(*b, binds, live),
        Expr::Ite(c, t, f) => tmpl_live(*c, binds, live) && tmpl_live(*t, binds, live) && tmpl_live(
            *f,
            binds,
            live,
        ),
        _ => true,
    }
}

/// A context-resolved template: every direct cell read alive, the item
/// placeholder still open, no provider placeholder left.
pub open spec fn base_ok_spec(e: Expr, live: Seq<bool>) -> bool
    decreases e,
{
    match e {
        Expr::Read(c) => c < live.len() && live[c as int],
        Expr::Item => true,
        Expr::Provided(_) => false,
        Expr::Lit(_) => true,
        Expr::Contains(a, b) => base_ok_spec(*a, live) && base_ok_spec(*b, live),
        Expr::Ite(c, t, f) => base_ok_spec(*c, live) && base_ok_spec(*t, live) && base_ok_spec(
            *f,
            live,
        ),
    }
}

/// A template stays admissible when the store grows: new cells change no
/// existing read.
pub proof fn lemma_base_ok_grow(e: Expr, l1: Seq<bool>, l2: Seq<bool>)
    requires
        base_ok_spec(e, l1),
        l1.len() <= l2.len(),
        forall|i: int| 0 <= i < l1.len() ==> l2[i] == l1[i],
    ensures
        base_ok_spec(e, l2),
    decreases e,
{
    match e {
        Expr::Contains(a, b) => {
            lemma_base_ok_grow(*a, l1, l2);
            lemma_base_ok_grow(*b, l1, l2);
        },
        Expr::Ite(c, t, f) => {
            lemma_base_ok_grow(*c, l1, l2);
            lemma_base_ok_grow(*t, l1, l2);
            lemma_base_ok_grow(*f, l1, l2);
        },
        _ => {},
    }
}

/// Admission check for a resolved template against the live cells.
fn base_ok(e: &Expr, live: &Vec<bool>) -> (r: bool)
    ensures
        r == base_ok_spec(*e, live@),
    decreases *e,
{
    match e {
        Expr::Read(c) => *c < live.len() && live[*c],
        Expr::Item => true,
        Expr::Provided(_) => false,
        Expr::Lit(_) => true,
        Expr::Contains(a, b) => base_ok(a, live) && base_ok(b, live),
        Expr::Ite(c, t, f) => base_ok(c, live) && base_ok(t, live) && base_ok(f, live),
    }
}

/// Resolves every `Provided` placeholder through the registry, innermost
/// binding first. Fails — touching nothing — when a provider is missing.
fn resolve_ctx(e: &Expr, ctx: &ContextRegistry) -> (r: Result<Expr, EngineError>)
    ensures
        (r is Ok) == !tmpl_missing(*e, ctx.binds@),
        r matches Ok(res) ==> forall|live: Seq<bool>| #[trigger] base_ok_spec(res, live)
            == tmpl_live(*e, ctx.binds@, live),
        r matches Err(err) ==> err == EngineError::MissingProvider,
    decreases *e,
{
    match e {
        Expr::Read(c) => Ok(Expr::Read(*c)),
        Expr::Item => Ok(Expr::Item),
        Expr::Lit(v) => Ok(Expr::Lit(clone_value(v))),
        Expr::Provided(k) => {
            match ctx.lookup(*k) {
                Ok(c) => Ok(Expr::Read(c)),
                Err(err) => Err(err),
            }
        },
        Expr::Contains(a, b) => {
            match resolve_ctx(a, ctx) {
                Ok(ra) => match resolve_ctx(b, ctx) {
                    Ok(rb) => {
                        let res = Expr::Contains(Box::new(ra), Box::new(rb));
                        proof {
                            assert forall|live: Seq<bool>| #[trigger] base_ok_spec(res, live)
                                == tmpl_live(*e, ctx.binds@, live) by {
                                assert(base_ok_spec(ra, live) == tmpl_live(**a, ctx.binds@, live));
                                assert(base_ok_spec(rb, live) == tmpl_live(**b, ctx.binds@, live));
                            }
                        }
                        Ok(res)
                    },
                    Err(err) => Err(err),
                },
                Err(err) => Err(err),
            }
        },
        Expr::Ite(c, t, f) => {
            match resolve_ctx(c, ctx) {
                Ok(rc) => match resolve_ctx(t, ctx) {
                    Ok(rt) => match resolve_ctx(f, ctx) {
                        Ok(rf) => {
                            let res = Expr::Ite(Box::new(rc), Box::new(rt), Box::new(rf));
                            proof {
                                assert forall|live: Seq<bool>| #[trigger] base_ok_spec(res, live)
                                    == tmpl_live(*e, ctx.binds@, live) by {
                                    assert(base_ok_spec(rc, live) == tmpl_live(
                                        **c,
                                        ctx.binds@,
                                        live,
                                    ));
                                    assert(base_ok_spec(rt, live) == tmpl_live(
                                        **t,
                                        ctx.binds@,
                                        live,
                                    ));
                                    assert(base_ok_spec(rf, live) == tmpl_live(
                                        **f,
                                        ctx.binds@,
                                        live,
                                    ));
                                }
                            }
                            Ok(res)
                        },
                        Err(err) => Err(err),
                    },
                    Err(err) => Err(err),
                },
                Err(err) => Err(err),
            }
        },
    }
}

/// Fills the item placeholder with the mounted item's own payload cell.
fn subst_item(e: &Expr, cell: usize) -> (r: Expr)
    ensures
        forall|live: Seq<bool>|
            base_ok_spec(*e, live) && cell < live.len() && live[cell as int]
                ==> #[trigger] expr_ok_spec(r, live),
    decreases *e,
{
    match e {
        Expr::Read(c) => Expr::Read(*c),
        Expr::Item => Expr::Read(cell),
        Expr::Provided(k) => Expr::Provided(*k),
        Expr::Lit(v) => Expr::Lit(clone_value(v)),
        Expr::Contains(a, b) => {
            let ra = subst_item(a, cell);
            let rb = subst_item(b, cell);
            let res = Expr::Contains(Box::new(ra), Box::new(rb));
            proof {
                assert forall|live: Seq<bool>|
                    base_ok_spec(*e, live) && cell < live.len() && live[cell as int]
                        implies #[trigger] expr_ok_spec(res, live) by {
                    assert(expr_ok_spec(ra, live));
                    assert(expr_ok_spec(rb, live));
                }
            }
            res
        },
        Expr::Ite(c, t, f) => {
            let rc = subst_item(c, cell);
            let rt = subst_item(t, cell);
            let rf = subst_item(f, cell);
            let res = Expr::Ite(Box::new(rc), Box::new(rt), Box::new(rf));
            proof {
                assert forall|live: Seq<bool>|
                    base_ok_spec(*e, live) && cell < live.len() && live[cell as int]
                        implies #[trigger] expr_ok_spec(res, live) by {
                    assert(expr_ok_spec(rc, live));
                    assert(expr_ok_spec(rt, live));
                    assert(expr_ok_spec(rf, live));
                }
            }
            res
        },
    }
}

/// Duplicate-key scan over the incoming items.
fn check_items_distinct(items: &Vec<Item>) -> (r: bool)
    ensures
        r == items_distinct(items@),
{
    let mut i: usize = 0;
    while i < items.len()
        invariant
            i <= items@.len(),
            forall|a: int, b: int| 0 <= a < b < items@.len() && a < i ==> items@[a].key
                != items@[b].key,
        decreases items@.len() - i,
    {
        let mut j: usize = i + 1;
        while j < items.len()
            invariant
                i < items@.len(),
                i + 1 <= j,
                forall|b: int| i < b < j ==> items@[i as int].key != items@[b].key,
            decreases items@.len() - j,
        {
            if items[i].key == items[j].key {
                return false;
            }
            j = j + 1;
        }
        i = i + 1;
    }
    true
}

/// Index of the entry carrying `key`, if any.
fn find_entry(entries: &Vec<Entry>, key: u64) -> (r: Option<usize>)
    ensures
        r matches Some(i) ==> i < entries@.len() && entries@[i as int].key == key,
        r is None ==> !has_key(entries@, key),
{
    let mut i: usize = 0;
    while i < entries.len()
        invariant
            i <= entries@.len(),
            forall|a: int| 0 <= a < i ==> entries@[a].key != key,
        decreases entries@.len() - i,
    {
        if entries[i].key == key {
            return Some(i);
        }
        i = i + 1;
    }
    None
}

impl KeyedList {
    /// An empty reconciler: nothing mounted yet.
    pub fn new() -> (r: KeyedList)
        ensures
            r.entries@.len() == 0,
    {
        KeyedList { entries: Vec::new() }
    }

    /// Reconciles the mounted subtrees against `items`, the new source
    /// sequence. Per key: a vanished key's subtree is disposed (selector,
    /// edges and payload cell released); a new key mounts one payload cell
    /// plus one selector built from `template` (`Item` resolves to the
    /// payload cell, `Provided` through `ctx`); a surviving key keeps its
    /// subtree's identity untouched, its payload cell rewritten only when
    /// the payload actually changed. The entry order follows `items`.
    /// Duplicate keys, a missing provider, or a template naming a dead cell
    /// are rejected up front, before anything is touched.
    pub fn update(
        &mut self,
        eng: &mut Engine,
        ctx: &ContextRegistry,
        template: &Expr,
        items: &Vec<Item>,
    ) -> (r: Result<(), EngineError>)
        requires
            old(eng).wf(),
            kl_wf(*old(self), *old(eng)),
        ensures
            final(eng).wf(),
            kl_wf(*final(self), *final(eng)),
            (r is Ok) == (items_distinct(items@) && !tmpl_missing(*template, ctx.binds@)
                && tmpl_live(*template, ctx.binds@, old(eng).cell_live@)),
            (r == Result::<(), EngineError>::Err(EngineError::DuplicateKey)) == !items_distinct(items@),
            (r == Result::<(), EngineError>::Err(EngineError::MissingProvider)) == (items_distinct(items@) && tmpl_missing(
                *template,
                ctx.binds@,
            )),
            (r == Result::<(), EngineError>::Err(EngineError::StaleHandle)) == (items_distinct(items@) && !tmpl_missing(
                *template,
                ctx.binds@,
            ) && !tmpl_live(*template, ctx.binds@, old(eng).cell_live@)),
            r is Err ==> *final(self) == *old(self) && *final(eng) == *old(eng),
            r is Ok ==> {
                &&& final(self).entries@.len() == items@.len()
                &&& forall|j: int|
                    0 <= j < items@.len() ==> (#[trigger] final(self).entries@[j]).key
                        == items@[j].key
                &&& forall|i: int, j: int|
                    0 <= i < old(self).entries@.len() && 0 <= j < items@.len()
                        && (#[trigger] old(self).entries@[i]).key == (#[trigger] items@[j]).key
                        ==> final(self).entries@[j].cell == old(self).entries@[i].cell
                            && final(self).entries@[j].sel == old(self).entries@[i].sel
                &&& forall|j: int|
                    0 <= j < items@.len() ==> final(eng).vals()[(
                    #[trigger] final(self).entries@[j]).cell as int] == items@[j].payload@
                &&& forall|i: int|
                    0 <= i < old(self).entries@.len() && !item_has_key(
                        items@,
                        (#[trigger] old(self).entries@[i]).key,
                    ) ==> !final(eng).sel_live@[old(self).entries@[i].sel as int] && !final(eng).cell_live@[old(self).entries@[i].cell as int] && (forall|x: int|
                        !edge_in(final(eng).edges@, x, old(self).entries@[i].sel as int))
            },
    {
        // Phase 0: validation; nothing is touched until all of it passed.
        if !check_items_distinct(items) {
            return Err(EngineError::DuplicateKey);
        }
        let base = match resolve_ctx(template, ctx) {
            Ok(b) => b,
            Err(err) => {
                return Err(err);
            },
        };
        if !base_ok(&base, &eng.cell_live) {
            proof {
                assert(!tmpl_live(*template, ctx.binds@, old(eng).cell_live@));
            }
            return Err(EngineError::StaleHandle);
        }
        proof {
            assert(tmpl_live(*template, ctx.binds@, old(eng).cell_live@));
        }
        // Phase 1: walk the new sequence in order; retain surviving
        // subtrees by identity, mount subtrees for new keys.
        let mut news: Vec<Entry> = Vec::new();
        let mut j: usize = 0;
        while j < items.len()
            invariant
                eng.wf(),
                *self == *old(self),
                old(eng).wf(),
                kl_wf(*old(self), *old(eng)),
                items_distinct(items@),
                j <= items@.len(),
                news@.len() == j,
                old(eng).n_cells() <= eng.n_cells(),
                old(eng).n_sels() <= eng.n_sels(),
                forall|i: int|
                    0 <= i < old(eng).n_cells() ==> eng.cell_live@[i] == old(eng).cell_live@[i],
                forall|i: int|
                    0 <= i < old(eng).n_sels() ==> eng.sel_live@[i] == old(eng).sel_live@[i],
                base_ok_spec(base, eng.cell_live@),
                forall|j2: int|
                    0 <= j2 < j ==> (#[trigger] news@[j2]).key == items@[j2].key,
                forall|j2: int| 0 <= j2 < j ==> entry_ok(#[trigger] news@[j2], *eng),
                forall|j2: int|
                    0 <= j2 < j && !has_key(old(self).entries@, items@[j2].key) ==> (
                    #[trigger] news@[j2]).cell >= old(eng).n_cells() && news@[j2].sel >= old(eng).n_sels(),
                forall|j2: int|
                    0 <= j2 < j && has_key(old(self).entries@, items@[j2].key) ==> exists|i: int|
                        0 <= i < old(self).entries@.len() && (#[trigger] old(self).entries@[i]).key
                            == items@[j2].key && (#[trigger] news@[j2]).cell == old(self).entries@[i].cell && news@[j2].sel == old(self).entries@[i].sel,
                forall|a: int, b: int|
                    0 <= a < b < j ==> (#[trigger] news@[a]).cell != (#[trigger] news@[b]).cell
                        && news@[a].sel != news@[b].sel,
                forall|j2: int|
                    0 <= j2 < j ==> eng.vals()[(#[trigger] news@[j2]).cell as int]
                        == items@[j2].payload@,
            decreases items@.len() - j,
        {
            let it_key = items[j].key;
            let ghost news_prev = news@;
            let ghost eng_prev = *eng;
            match find_entry(&self.entries, it_key) {
                Some(i) => {
                    let ent = self.entries[i];
                    proof {
                        assert(entry_ok(old(self).entries@[i as int], *old(eng)));
                        assert(entry_ok(ent, *eng));
                    }
                    let cur = match eng.read_cell(ent.cell) {
                        Ok(v) => v,
                        Err(_) => {
                            proof {
                                assert(false);
                            }
                            Value::Flag(false)
                        },
                    };
                    if !value_eq(&cur, &items[j].payload) {
                        match eng.write_cell(ent.cell, clone_value(&items[j].payload)) {
                            Ok(_) => {},
                            Err(_) => {
                                proof {
                                    assert(false);
                                }
                            },
                        }
                    }
                    news.push(ent);
                    proof {
                        assert(eng.vals()[ent.cell as int] == items@[j as int].payload@);
                        assert forall|j2: int|
                            0 <= j2 < j implies eng.vals()[(#[trigger] news_prev[j2]).cell as int]
                            == items@[j2].payload@ by {
                            assert(eng_prev.vals()[news_prev[j2].cell as int]
                                == items@[j2].payload@);
                            if news_prev[j2].cell != ent.cell {
                            } else {
                                assert(has_key(old(self).entries@, items@[j2].key));
                            }
                        }
                    }
                },
                None => {
                    let cellid = eng.create_cell(clone_value(&items[j].payload));
                    proof {
                        lemma_base_ok_grow(base, eng_prev.cell_live@, eng.cell_live@);
                        assert(eng.cell_live@[cellid as int]);
                    }
                    let ex = subst_item(&base, cellid);
                    proof {
                        assert(expr_ok_spec(ex, eng.cell_live@));
                    }
                    let selid = match eng.create_selector(ex) {
                        Ok(s) => s,
                        Err(_) => {
                            proof {
                                assert(false);
                            }
                            0
                        },
                    };
                    news.push(Entry { key: it_key, cell: cellid, sel: selid });
                    proof {
                        assert(eng.vals() =~= eng_prev.vals().push(items@[j as int].payload@));
                        assert(eng.vals()[cellid as int] == items@[j as int].payload@);
                    }
                },
            }
            proof {
                assert forall|a: int, b: int|
                    0 <= a < b < j + 1 implies (#[trigger] news@[a]).cell != (
                #[trigger] news@[b]).cell && news@[a].sel != news@[b].sel by {
                    if b < j {
                    } else {
                        assert(b == j);
                        assert(news@[a] == news_prev[a]);
                        if has_key(old(self).entries@, items@[a].key) && has_key(
                            old(self).entries@,
                            items@[j as int].key,
                        ) {
                            let ia = choose|i: int|
                                0 <= i < old(self).entries@.len() && (
                                #[trigger] old(self).entries@[i]).key == items@[a].key && news@[a].cell
                                    == old(self).entries@[i].cell && news@[a].sel == old(self).entries@[i].sel;
                            assert(items@[a].key != items@[j as int].key);
                        }
                    }
                }
            }
            j = j + 1;
        }
        // Phase 2: dispose the subtree of every key that vanished.
        let ghost g1 = *eng;
        let ghost gnews = news@;
        let mut i: usize = 0;
        while i < self.entries.len()
            invariant
                eng.wf(),
                *self == *old(self),
                old(eng).wf(),
                kl_wf(*old(self), *old(eng)),
                items_distinct(items@),
                i <= self.entries@.len(),
                news@ == gnews,
                eng.cell_vals@ == g1.cell_vals@,
                eng.sel_exprs@ == g1.sel_exprs@,
                gnews.len() == items@.len(),
                old(eng).n_cells() <= g1.n_cells(),
                old(eng).n_sels() <= g1.n_sels(),
                forall|j2: int|
                    0 <= j2 < gnews.len() ==> (#[trigger] gnews[j2]).key == items@[j2].key,
                forall|j2: int| 0 <= j2 < gnews.len() ==> entry_ok(#[trigger] gnews[j2], *eng),
                forall|j2: int|
                    0 <= j2 < gnews.len() && !has_key(old(self).entries@, items@[j2].key) ==> (
                    #[trigger] gnews[j2]).cell >= old(eng).n_cells() && gnews[j2].sel >= old(eng).n_sels(),
                forall|j2: int|
                    0 <= j2 < gnews.len() && has_key(old(self).entries@, items@[j2].key)
                        ==> exists|i2: int|
                        0 <= i2 < old(self).entries@.len() && (
                        #[trigger] old(self).entries@[i2]).key == items@[j2].key && (
                        #[trigger] gnews[j2]).cell == old(self).entries@[i2].cell && gnews[j2].sel
                            == old(self).entries@[i2].sel,
                forall|a: int, b: int|
                    0 <= a < b < gnews.len() ==> (#[trigger] gnews[a]).cell != (
                    #[trigger] gnews[b]).cell && gnews[a].sel != gnews[b].sel,
                forall|j2: int|
                    0 <= j2 < gnews.len() ==> eng.vals()[(#[trigger] gnews[j2]).cell as int]
                        == items@[j2].payload@,
                forall|i2: int|
                    0 <= i2 < i && !item_has_key(
                        items@,
                        (#[trigger] old(self).entries@[i2]).key,
                    ) ==> !eng.sel_live@[old(self).entries@[i2].sel as int]
                        && !eng.cell_live@[old(self).entries@[i2].cell as int] && (forall|x: int|
                        !edge_in(eng.edges@, x, old(self).entries@[i2].sel as int)),
                forall|i2: int|
                    i <= i2 < self.entries@.len() ==> entry_ok(
                        #[trigger] old(self).entries@[i2],
                        *eng,
                    ),
            decreases self.entries@.len() - i,
        {
            let ent = self.entries[i];
            let gone = !find_item_key(items, ent.key);
            if gone {
                proof {
                    assert(entry_ok(old(self).entries@[i as int], *eng));
                }
                let ghost eng_a = *eng;
                match eng.dispose_selector(ent.sel) {
                    Ok(_) => {},
                    Err(_) => {
                        proof {
                            assert(false);
                        }
                    },
                }
                match eng.dispose_cell(ent.cell) {
                    Ok(_) => {},
                    Err(_) => {
                        proof {
                            assert(false);
                        }
                    },
                }
                proof {
                    // The disposed subtree is distinct from every retained
                    // or freshly mounted one, so those stay alive.
                    assert forall|j2: int|
                        0 <= j2 < gnews.len() implies entry_ok(#[trigger] gnews[j2], *eng) by {
                        assert(entry_ok(gnews[j2], eng_a));
                        if has_key(old(self).entries@, items@[j2].key) {
                            let i2 = choose|i2: int|
                                0 <= i2 < old(self).entries@.len() && (
                                #[trigger] old(self).entries@[i2]).key == items@[j2].key && gnews[j2].cell
                                    == old(self).entries@[i2].cell && gnews[j2].sel == old(self).entries@[i2].sel;
                            assert(item_has_key(items@, old(self).entries@[i2].key));
                            assert(i2 != i);
                            assert(gnews[j2].cell != ent.cell && gnews[j2].sel != ent.sel);
                        } else {
                            assert(gnews[j2].cell >= old(eng).n_cells() && gnews[j2].sel >= old(eng).n_sels());
                            assert(entry_ok(old(self).entries@[i as int], *old(eng)));
                            assert(gnews[j2].cell != ent.cell && gnews[j2].sel != ent.sel);
                        }
                    }
                    assert forall|i2: int|
                        0 <= i2 < i + 1 && !item_has_key(
                            items@,
                            (#[trigger] old(self).entries@[i2]).key,
                        ) implies !eng.sel_live@[old(self).entries@[i2].sel as int]
                        && !eng.cell_live@[old(self).entries@[i2].cell as int] && (forall|x: int|
                        !edge_in(eng.edges@, x, old(self).entries@[i2].sel as int)) by {
                        if i2 < i {
                            assert(!eng_a.sel_live@[old(self).entries@[i2].sel as int]);
                            assert(!eng_a.cell_live@[old(self).entries@[i2].cell as int]);
                            assert(forall|x: int|
                                !edge_in(eng_a.edges@, x, old(self).entries@[i2].sel as int));
                            assert(old(self).entries@[i2].sel != ent.sel);
                            assert(old(self).entries@[i2].cell != ent.cell);
                        }
                    }
                }
            }
            i = i + 1;
        }
        // Phase 3: the new order replaces the old one.
        self.entries = news;
        proof {
            assert forall|a: int, b: int|
                0 <= a < b < self.entries@.len() implies (#[trigger] self.entries@[a]).key != (
            #[trigger] self.entries@[b]).key by {
                assert(items@[a].key != items@[b].key);
            }
            assert forall|i2: int, j2: int|
                0 <= i2 < old(self).entries@.len() && 0 <= j2 < items@.len() && (
            #[trigger] old(self).entries@[i2]).key == (#[trigger] items@[j2]).key implies self.entries@[j2].cell
                == old(self).entries@[i2].cell && self.entries@[j2].sel
                == old(self).entries@[i2].sel by {
                assert(has_key(old(self).entries@, items@[j2].key));
                let iw = choose|iw: int|
                    0 <= iw < old(self).entries@.len() && (#[trigger] old(self).entries@[iw]).key
                        == items@[j2].key && gnews[j2].cell == old(self).entries@[iw].cell
                        && gnews[j2].sel == old(self).entries@[iw].sel;
                if iw != i2 {
                    assert(old(self).entries@[iw].key == old(self).entries@[i2].key);
                    assert(false);
                }
            }
        }
        Ok(())
    }
}

/// The payloads, in entry order among the first `n` entries, of the
/// entries whose selector currently evaluates to the flag true.
pub open spec fn visible_upto(es: Seq<Entry>, g: Engine, n: int) -> Seq<Val>
    decreases n,
{
    if n <= 0 {
        Seq::empty()
    } else {
        let p = visible_upto(es, g, n - 1);
        if g.sel_denotation(es[n - 1].sel as int) == Val::Flag(true) {
            p.push(g.vals()[es[n - 1].cell as int])
        } else {
            p
        }
    }
}

impl KeyedList {
    /// The rendered output set: reads every entry's selector (recomputing
    /// the dirty ones once) and returns, in list order, the payloads of the
    /// entries whose output is the flag true.
    pub fn visible_outputs(&self, eng: &mut Engine) -> (out: Vec<Value>)
        requires
            old(eng).wf(),
            kl_wf(*self, *old(eng)),
        ensures
            final(eng).wf(),
            kl_wf(*self, *final(eng)),
            final(eng).cell_vals@ == old(eng).cell_vals@,
            final(eng).sel_exprs@ == old(eng).sel_exprs@,
            final(eng).cell_live@ == old(eng).cell_live@,
            final(eng).sel_live@ == old(eng).sel_live@,
            crate::value::vals_of(out@) == visible_upto(
                self.entries@,
                *old(eng),
                self.entries@.len() as int,
            ),
    {
        let mut out: Vec<Value> = Vec::new();
        let mut i: usize = 0;
        proof {
            assert(crate::value::vals_of(out@) =~= visible_upto(self.entries@, *old(eng), 0));
        }
        while i < self.entries.len()
            invariant
                eng.wf(),
                kl_wf(*self, *eng),
                i <= self.entries@.len(),
                eng.cell_vals@ == old(eng).cell_vals@,
                eng.sel_exprs@ == old(eng).sel_exprs@,
                eng.cell_live@ == old(eng).cell_live@,
                eng.sel_live@ == old(eng).sel_live@,
                crate::value::vals_of(out@) == visible_upto(self.entries@, *old(eng), i as int),
            decreases self.entries@.len() - i,
        {
            let ent = self.entries[i];
            proof {
                assert(entry_ok(self.entries@[i as int], *eng));
            }
            let ghost pre = *eng;
            let ghost out_pre = out@;
            let v = match eng.read_selector(ent.sel) {
                Ok(v) => v,
                Err(_) => {
                    proof {
                        assert(false);
                    }
                    Value::Flag(false)
                },
            };
            proof {
                assert(pre.sel_denotation(ent.sel as int) == old(eng).sel_denotation(
                    ent.sel as int,
                ));
            }
            let is_visible = match v {
                Value::Flag(b) => b,
                _ => false,
            };
            if is_visible {
                let payload = match eng.read_cell(ent.cell) {
                    Ok(p) => p,
                    Err(_) => {
                        proof {
                            assert(false);
                        }
                        Value::Flag(false)
                    },
                };
                out.push(payload);
                proof {
                    assert(crate::value::vals_of(out@) =~= crate::value::vals_of(out_pre).push(
                        payload@,
                    ));
                }
            }
            i = i + 1;
        }
        out
    }
}

/// Does any incoming item carry `key`?
fn find_item_key(items: &Vec<Item>, key: u64) -> (r: bool)
    ensures
        r == item_has_key(items@, key),
{
    let mut i: usize = 0;
    while i < items.len()
        invariant
            i <= items@.len(),
            forall|a: int| 0 <= a < i ==> items@[a].key != key,
        decreases items@.len() - i,
    {
        if items[i].key == key {
            return true;
        }
        i = i + 1;
    }
    false
}

} // verus!
