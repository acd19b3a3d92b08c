//! Scope registry behaviour: shadowing, scope exit, missing providers.
use reactive_core::EngineError;
use reactive_core::context::ContextRegistry;

#[test]
fn lookup_without_provider_fails() {
    let ctx = ContextRegistry::new();
    assert_eq!(ctx.lookup(1).unwrap_err(), EngineError::MissingProvider);
}

#[test]
fn inner_binding_shadows_outer() {
    let mut ctx = ContextRegistry::new();
    ctx.provide(1, 10);
    let outer = ctx.scope_depth();
    ctx.provide(1, 20);
    assert_eq!(ctx.lookup(1).unwrap(), 20);
    ctx.exit_to(outer);
    assert_eq!(ctx.lookup(1).unwrap(), 10);
}

#[test]
fn sibling_scopes_do_not_interfere() {
    let mut ctx = ContextRegistry::new();
    ctx.provide(1, 10);
    let depth = ctx.scope_depth();
    ctx.provide(1, 20);
    ctx.provide(2, 30);
    ctx.exit_to(depth);
    // The first sibling's bindings are gone; a second sibling starts clean.
    assert_eq!(ctx.lookup(1).unwrap(), 10);
    assert_eq!(ctx.lookup(2).unwrap_err(), EngineError::MissingProvider);
    ctx.provide(2, 40);
    assert_eq!(ctx.lookup(2).unwrap(), 40);
}

#[test]
fn unrelated_keys_resolve_independently() {
    let mut ctx = ContextRegistry::new();
    ctx.provide(1, 10);
    ctx.provide(2, 20);
    assert_eq!(ctx.lookup(1).unwrap(), 10);
    assert_eq!(ctx.lookup(2).unwrap(), 20);
}
