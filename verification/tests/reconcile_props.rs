//! Keyed reconciliation: identity retention, reordering, disposal, the
//! duplicate-key rejection, and the end-to-end filter scenario.
use reactive_core::EngineError;
use reactive_core::context::ContextRegistry;
use reactive_core::engine::Engine;
use reactive_core::expr::Expr;
use reactive_core::reconcile::{Item, KeyedList};
use reactive_core::value::{Value, value_eq};

const FILTER_KEY: u64 = 7;

fn tv(s: &str) -> Value {
    Value::Text(s.as_bytes().to_vec())
}

fn item(key: u64, payload: &str) -> Item {
    Item { key, payload: tv(payload) }
}

/// The per-item computation: is the shared filter text contained in the
/// item's own payload?
fn visibility_template() -> Expr {
    Expr::Contains(Box::new(Expr::Item), Box::new(Expr::Provided(FILTER_KEY)))
}

fn setup() -> (Engine, ContextRegistry, KeyedList, usize) {
    let mut eng = Engine::new();
    let filter = eng.create_cell(tv(""));
    let mut ctx = ContextRegistry::new();
    ctx.provide(FILTER_KEY, filter);
    (eng, ctx, KeyedList::new(), filter)
}

fn assert_texts(out: &[Value], expected: &[&str]) {
    assert_eq!(out.len(), expected.len());
    for (v, e) in out.iter().zip(expected.iter()) {
        assert!(value_eq(v, &tv(e)), "expected {:?}", e);
    }
}

#[test]
fn keyed_stability_retains_identity_and_reorders() {
    let (mut eng, ctx, mut kl, _) = setup();
    let tmpl = visibility_template();
    kl.update(&mut eng, &ctx, &tmpl, &vec![item(1, "a"), item(2, "b")]).unwrap();
    let (c1, s1) = (kl.entries[0].cell, kl.entries[0].sel);
    let (c2, s2) = (kl.entries[1].cell, kl.entries[1].sel);
    // Evaluate both so the cache/dirty state is observable afterwards.
    kl.visible_outputs(&mut eng);
    assert!(!eng.is_dirty(s1).unwrap());
    assert!(!eng.is_dirty(s2).unwrap());

    kl.update(&mut eng, &ctx, &tmpl, &vec![item(2, "b"), item(1, "a2")]).unwrap();
    // Reordered, same identity: no subtree was rebuilt.
    assert_eq!(kl.entries[0].key, 2);
    assert_eq!(kl.entries[0].cell, c2);
    assert_eq!(kl.entries[0].sel, s2);
    assert_eq!(kl.entries[1].key, 1);
    assert_eq!(kl.entries[1].cell, c1);
    assert_eq!(kl.entries[1].sel, s1);
    // Key 2's payload did not change: its subtree saw no signal at all.
    assert!(!eng.is_dirty(s2).unwrap());
    // Key 1's payload changed: its own cell signalled the update.
    assert!(eng.is_dirty(s1).unwrap());
    assert!(value_eq(&eng.read_cell(c1).unwrap(), &tv("a2")));
    let out = kl.visible_outputs(&mut eng);
    assert_texts(&out, &["b", "a2"]);
}

#[test]
fn removing_a_key_disposes_its_subtree() {
    let (mut eng, ctx, mut kl, filter) = setup();
    let tmpl = visibility_template();
    kl.update(&mut eng, &ctx, &tmpl, &vec![item(1, "a"), item(2, "b")]).unwrap();
    kl.visible_outputs(&mut eng);
    let (c2, s2) = (kl.entries[1].cell, kl.entries[1].sel);

    kl.update(&mut eng, &ctx, &tmpl, &vec![item(1, "a")]).unwrap();
    assert_eq!(kl.entries.len(), 1);
    assert_eq!(kl.entries[0].key, 1);
    // Key 2's slots are dead.
    assert_eq!(eng.read_selector(s2).unwrap_err(), EngineError::StaleHandle);
    assert_eq!(eng.read_cell(c2).unwrap_err(), EngineError::StaleHandle);
    // A later unrelated write must not touch the freed subtree.
    eng.write_cell(filter, tv("zz")).unwrap();
    assert_eq!(eng.is_dirty(s2).unwrap_err(), EngineError::StaleHandle);
    let out = kl.visible_outputs(&mut eng);
    assert_texts(&out, &[]);
}

#[test]
fn reorder_only_update_touches_nothing() {
    let (mut eng, ctx, mut kl, _) = setup();
    let tmpl = visibility_template();
    kl.update(&mut eng, &ctx, &tmpl, &vec![item(1, "a"), item(2, "b"), item(3, "c")]).unwrap();
    kl.visible_outputs(&mut eng);
    let old: Vec<(u64, usize, usize)> =
        kl.entries.iter().map(|e| (e.key, e.cell, e.sel)).collect();
    kl.update(&mut eng, &ctx, &tmpl, &vec![item(3, "c"), item(1, "a"), item(2, "b")]).unwrap();
    let find = |k: u64| old.iter().find(|(ok, _, _)| *ok == k).copied().unwrap();
    for e in kl.entries.iter() {
        let (_, c, s) = find(e.key);
        assert_eq!(e.cell, c);
        assert_eq!(e.sel, s);
        // No payload changed: nothing was written, nothing went dirty.
        assert_eq!(eng.cell_version(e.cell).unwrap(), 0);
        assert!(!eng.is_dirty(e.sel).unwrap());
    }
    assert_eq!(kl.entries[0].key, 3);
    let out = kl.visible_outputs(&mut eng);
    assert_texts(&out, &["c", "a", "b"]);
}

#[test]
fn update_to_empty_disposes_everything() {
    let (mut eng, ctx, mut kl, filter) = setup();
    let tmpl = visibility_template();
    kl.update(&mut eng, &ctx, &tmpl, &vec![item(1, "a"), item(2, "b")]).unwrap();
    let old: Vec<(usize, usize)> = kl.entries.iter().map(|e| (e.cell, e.sel)).collect();
    kl.update(&mut eng, &ctx, &tmpl, &vec![]).unwrap();
    assert_eq!(kl.entries.len(), 0);
    for (c, s) in old {
        assert_eq!(eng.read_cell(c).unwrap_err(), EngineError::StaleHandle);
        assert_eq!(eng.read_selector(s).unwrap_err(), EngineError::StaleHandle);
    }
    // The shared filter cell belongs to the outer scope and survives.
    eng.write_cell(filter, tv("x")).unwrap();
    assert_texts(&kl.visible_outputs(&mut eng), &[]);
}

#[test]
fn duplicate_keys_are_rejected_whole() {
    let (mut eng, ctx, mut kl, _) = setup();
    let tmpl = visibility_template();
    kl.update(&mut eng, &ctx, &tmpl, &vec![item(1, "a")]).unwrap();
    let err = kl
        .update(&mut eng, &ctx, &tmpl, &vec![item(2, "b"), item(2, "c")])
        .unwrap_err();
    assert_eq!(err, EngineError::DuplicateKey);
    // Nothing was touched: the old entry is intact.
    assert_eq!(kl.entries.len(), 1);
    assert_eq!(kl.entries[0].key, 1);
    assert!(value_eq(&eng.read_cell(kl.entries[0].cell).unwrap(), &tv("a")));
}

#[test]
fn missing_provider_is_reported() {
    let mut eng = Engine::new();
    let ctx = ContextRegistry::new();
    let mut kl = KeyedList::new();
    let tmpl = visibility_template();
    let err = kl.update(&mut eng, &ctx, &tmpl, &vec![item(1, "a")]).unwrap_err();
    assert_eq!(err, EngineError::MissingProvider);
    assert_eq!(kl.entries.len(), 0);
}

#[test]
fn template_naming_a_dead_cell_is_stale() {
    let (mut eng, mut ctx, mut kl, _) = setup();
    let dead = eng.create_cell(tv("gone"));
    eng.dispose_cell(dead).unwrap();
    ctx.provide(FILTER_KEY, dead);
    let tmpl = visibility_template();
    let err = kl.update(&mut eng, &ctx, &tmpl, &vec![item(1, "a")]).unwrap_err();
    assert_eq!(err, EngineError::StaleHandle);
}

#[test]
fn end_to_end_filter_scenario() {
    let (mut eng, ctx, mut kl, filter) = setup();
    let tmpl = visibility_template();
    kl.update(
        &mut eng,
        &ctx,
        &tmpl,
        &vec![item(1, "apple"), item(2, "banana"), item(3, "cherry")],
    )
    .unwrap();
    let sels: Vec<usize> = kl.entries.iter().map(|e| e.sel).collect();
    let cells: Vec<usize> = kl.entries.iter().map(|e| e.cell).collect();

    // Empty filter: everything is visible, one run each.
    let out = kl.visible_outputs(&mut eng);
    assert_texts(&out, &["apple", "banana", "cherry"]);
    for s in &sels {
        assert_eq!(eng.recompute_count(*s).unwrap(), 1);
    }

    // Filter "an": only banana stays visible; each visibility selector ran
    // exactly once more, and no item's content cell was rewritten.
    eng.write_cell(filter, tv("an")).unwrap();
    let out = kl.visible_outputs(&mut eng);
    assert_texts(&out, &["banana"]);
    for s in &sels {
        assert_eq!(eng.recompute_count(*s).unwrap(), 2);
    }
    for c in &cells {
        assert_eq!(eng.cell_version(*c).unwrap(), 0);
    }

    // Reading again recomputes nothing.
    let out = kl.visible_outputs(&mut eng);
    assert_texts(&out, &["banana"]);
    for s in &sels {
        assert_eq!(eng.recompute_count(*s).unwrap(), 2);
    }
}
