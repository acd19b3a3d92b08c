//! Cell and selector behaviour: read-after-write, invalidation, caching,
//! dynamic dependency pruning, disposal and the error taxonomy.
use reactive_core::EngineError;
use reactive_core::engine::Engine;
use reactive_core::expr::Expr;
use reactive_core::value::{Value, value_eq};

fn tv(s: &str) -> Value {
    Value::Text(s.as_bytes().to_vec())
}

fn assert_text(v: &Value, s: &str) {
    assert!(value_eq(v, &tv(s)), "value mismatch, wanted {:?}", s);
}

#[test]
fn read_after_write_returns_latest() {
    let mut eng = Engine::new();
    let c = eng.create_cell(tv("first"));
    assert_text(&eng.read_cell(c).unwrap(), "first");
    eng.write_cell(c, tv("second")).unwrap();
    eng.write_cell(c, tv("third")).unwrap();
    assert_text(&eng.read_cell(c).unwrap(), "third");
    assert_eq!(eng.cell_version(c).unwrap(), 2);
}

#[test]
fn writes_do_not_leak_across_cells() {
    let mut eng = Engine::new();
    let a = eng.create_cell(tv("a"));
    let b = eng.create_cell(tv("b"));
    eng.write_cell(a, tv("a2")).unwrap();
    assert_text(&eng.read_cell(a).unwrap(), "a2");
    assert_text(&eng.read_cell(b).unwrap(), "b");
}

#[test]
fn selector_sees_write_before_first_read() {
    let mut eng = Engine::new();
    let c = eng.create_cell(tv("banana"));
    let sel = eng.create_selector(Expr::Contains(
        Box::new(Expr::Read(c)),
        Box::new(Expr::Lit(tv("an"))),
    ))
    .unwrap();
    eng.write_cell(c, tv("cherry")).unwrap();
    let out = eng.read_selector(sel).unwrap();
    assert!(matches!(out, Value::Flag(false)));
}

#[test]
fn no_missed_invalidation() {
    let mut eng = Engine::new();
    let c = eng.create_cell(tv("banana"));
    let sel = eng.create_selector(Expr::Contains(
        Box::new(Expr::Read(c)),
        Box::new(Expr::Lit(tv("an"))),
    ))
    .unwrap();
    assert!(matches!(eng.read_selector(sel).unwrap(), Value::Flag(true)));
    assert!(!eng.is_dirty(sel).unwrap());
    eng.write_cell(c, tv("cherry")).unwrap();
    assert!(eng.is_dirty(sel).unwrap());
    assert!(matches!(eng.read_selector(sel).unwrap(), Value::Flag(false)));
}

#[test]
fn cached_read_skips_recompute() {
    let mut eng = Engine::new();
    let c = eng.create_cell(tv("apple"));
    let sel = eng.create_selector(Expr::Read(c)).unwrap();
    assert_eq!(eng.recompute_count(sel).unwrap(), 0);
    assert_text(&eng.read_selector(sel).unwrap(), "apple");
    assert_eq!(eng.recompute_count(sel).unwrap(), 1);
    // No dependency changed in between: the second read is a cache hit.
    assert_text(&eng.read_selector(sel).unwrap(), "apple");
    assert_eq!(eng.recompute_count(sel).unwrap(), 1);
    // A write forces exactly one more run.
    eng.write_cell(c, tv("pear")).unwrap();
    assert_text(&eng.read_selector(sel).unwrap(), "pear");
    assert_text(&eng.read_selector(sel).unwrap(), "pear");
    assert_eq!(eng.recompute_count(sel).unwrap(), 2);
}

#[test]
fn dynamic_dependency_pruning() {
    let mut eng = Engine::new();
    let switch = eng.create_cell(tv("1"));
    let a = eng.create_cell(tv("va"));
    let b = eng.create_cell(tv("vb"));
    // Reads `a` only while the switch text contains "1", else `b`.
    let sel = eng.create_selector(Expr::Ite(
        Box::new(Expr::Contains(
            Box::new(Expr::Read(switch)),
            Box::new(Expr::Lit(tv("1"))),
        )),
        Box::new(Expr::Read(a)),
        Box::new(Expr::Read(b)),
    ))
    .unwrap();
    assert_text(&eng.read_selector(sel).unwrap(), "va");
    // b is not a dependency of the first run.
    eng.write_cell(b, tv("vb2")).unwrap();
    assert!(!eng.is_dirty(sel).unwrap());
    assert_eq!(eng.recompute_count(sel).unwrap(), 1);
    // Flip the switch: the second run reads b, not a.
    eng.write_cell(switch, tv("0")).unwrap();
    assert_text(&eng.read_selector(sel).unwrap(), "vb2");
    assert_eq!(eng.recompute_count(sel).unwrap(), 2);
    // a was read on an earlier run but is no longer a dependency.
    eng.write_cell(a, tv("va2")).unwrap();
    assert!(!eng.is_dirty(sel).unwrap());
    assert_eq!(eng.recompute_count(sel).unwrap(), 2);
    // b is one now.
    eng.write_cell(b, tv("vb3")).unwrap();
    assert!(eng.is_dirty(sel).unwrap());
    assert_text(&eng.read_selector(sel).unwrap(), "vb3");
}

#[test]
fn modify_applies_function_and_propagates() {
    let mut eng = Engine::new();
    let c = eng.create_cell(tv("ba"));
    let sel = eng.create_selector(Expr::Contains(
        Box::new(Expr::Read(c)),
        Box::new(Expr::Lit(tv("an"))),
    ))
    .unwrap();
    assert!(matches!(eng.read_selector(sel).unwrap(), Value::Flag(false)));
    eng.modify(c, |v| match v {
        Value::Text(mut bytes) => {
            bytes.extend_from_slice(b"nana");
            Value::Text(bytes)
        },
        other => other,
    })
    .unwrap();
    assert_text(&eng.read_cell(c).unwrap(), "banana");
    assert_eq!(eng.cell_version(c).unwrap(), 1);
    assert!(eng.is_dirty(sel).unwrap());
    assert!(matches!(eng.read_selector(sel).unwrap(), Value::Flag(true)));
    eng.dispose_cell(c).unwrap();
    assert_eq!(
        eng.modify(c, |v| v).unwrap_err(),
        EngineError::StaleHandle
    );
}

#[test]
fn invalidate_forces_one_recompute() {
    let mut eng = Engine::new();
    let c = eng.create_cell(tv("x"));
    let sel = eng.create_selector(Expr::Read(c)).unwrap();
    eng.read_selector(sel).unwrap();
    assert!(!eng.is_dirty(sel).unwrap());
    eng.invalidate(sel).unwrap();
    assert!(eng.is_dirty(sel).unwrap());
    assert_text(&eng.read_selector(sel).unwrap(), "x");
    assert_eq!(eng.recompute_count(sel).unwrap(), 2);
}

#[test]
fn equal_recompute_reports_no_change() {
    let mut eng = Engine::new();
    let c = eng.create_cell(tv("banana"));
    let sel = eng.create_selector(Expr::Contains(
        Box::new(Expr::Read(c)),
        Box::new(Expr::Lit(tv("an"))),
    ))
    .unwrap();
    // First read: there was no cached value, so it counts as a change.
    let (v, changed) = eng.read_selector_changed(sel).unwrap();
    assert!(matches!(v, Value::Flag(true)));
    assert!(changed);
    // Cache hit: same value, no change.
    let (_, changed) = eng.read_selector_changed(sel).unwrap();
    assert!(!changed);
    // The payload moves but the visibility verdict does not: the selector
    // recomputes once more, yet reports no change downstream.
    eng.write_cell(c, tv("canal")).unwrap();
    let (v, changed) = eng.read_selector_changed(sel).unwrap();
    assert!(matches!(v, Value::Flag(true)));
    assert!(!changed);
    assert_eq!(eng.recompute_count(sel).unwrap(), 2);
    // The verdict flips: that is a change.
    eng.write_cell(c, tv("cherry")).unwrap();
    let (v, changed) = eng.read_selector_changed(sel).unwrap();
    assert!(matches!(v, Value::Flag(false)));
    assert!(changed);
}

#[test]
fn writing_an_equal_value_still_propagates() {
    // A write always bumps the version and marks dependents dirty, even
    // when the value is unchanged; recomputation then yields the same
    // output. Equality-based damping is the reconciler's job, not write's.
    let mut eng = Engine::new();
    let c = eng.create_cell(tv("same"));
    let sel = eng.create_selector(Expr::Read(c)).unwrap();
    eng.read_selector(sel).unwrap();
    eng.write_cell(c, tv("same")).unwrap();
    assert_eq!(eng.cell_version(c).unwrap(), 1);
    assert!(eng.is_dirty(sel).unwrap());
    assert_text(&eng.read_selector(sel).unwrap(), "same");
}

#[test]
fn stale_handles_are_rejected() {
    let mut eng = Engine::new();
    assert_eq!(eng.read_cell(0).unwrap_err(), EngineError::StaleHandle);
    assert_eq!(eng.write_cell(3, tv("x")).unwrap_err(), EngineError::StaleHandle);
    assert_eq!(eng.read_selector(0).unwrap_err(), EngineError::StaleHandle);
    let c = eng.create_cell(tv("x"));
    eng.dispose_cell(c).unwrap();
    assert_eq!(eng.read_cell(c).unwrap_err(), EngineError::StaleHandle);
    assert_eq!(eng.write_cell(c, tv("y")).unwrap_err(), EngineError::StaleHandle);
    assert_eq!(eng.dispose_cell(c).unwrap_err(), EngineError::StaleHandle);
    assert_eq!(eng.cell_version(c).unwrap_err(), EngineError::StaleHandle);
}

#[test]
fn selector_rejects_unknown_and_dead_cells() {
    let mut eng = Engine::new();
    assert_eq!(
        eng.create_selector(Expr::Read(7)).unwrap_err(),
        EngineError::StaleHandle
    );
    let c = eng.create_cell(tv("x"));
    eng.dispose_cell(c).unwrap();
    assert_eq!(
        eng.create_selector(Expr::Read(c)).unwrap_err(),
        EngineError::StaleHandle
    );
    // Reconciler placeholders are not accepted by the engine directly.
    assert_eq!(
        eng.create_selector(Expr::Item).unwrap_err(),
        EngineError::StaleHandle
    );
    assert_eq!(
        eng.create_selector(Expr::Provided(1)).unwrap_err(),
        EngineError::StaleHandle
    );
}

#[test]
fn disposed_selector_is_left_alone() {
    let mut eng = Engine::new();
    let c = eng.create_cell(tv("banana"));
    let sel = eng.create_selector(Expr::Read(c)).unwrap();
    eng.read_selector(sel).unwrap();
    eng.dispose_selector(sel).unwrap();
    assert_eq!(eng.read_selector(sel).unwrap_err(), EngineError::StaleHandle);
    assert_eq!(eng.is_dirty(sel).unwrap_err(), EngineError::StaleHandle);
    assert_eq!(eng.dispose_selector(sel).unwrap_err(), EngineError::StaleHandle);
    // A later write to the old dependency must not touch the freed slot.
    eng.write_cell(c, tv("pear")).unwrap();
    assert_eq!(eng.read_selector(sel).unwrap_err(), EngineError::StaleHandle);
}
