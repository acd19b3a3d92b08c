//! The scope registry: a stack of key-to-cell bindings. A binding pushed
//! while a subtree is built shadows outer bindings of the same key and is
//! popped when the subtree is done; lookup never extends a cell's lifetime.
use vstd::prelude::*;
use crate::EngineError;

verus! {

/// One scoped binding: context key `key` resolves to cell `cell`.
#[derive(Clone, Copy)]
pub struct Binding {
    pub key: u64,
    pub cell: usize,
}

/// Innermost-first resolution over a binding stack.
pub open spec fn lookup_spec(binds: Seq<Binding>, key: u64) -> Option<usize>
    decreases binds.len(),
{
    if binds.len() == 0 {
        None
    } else if binds.last().key == key {
        Some(binds.last().cell)
    } else {
        lookup_spec(binds.drop_last(), key)
    }
}

/// The stack-scoped mapping from context keys to provided cells. Each
/// engine instance owns its own registry; nothing here is process-global.
pub struct ContextRegistry {
    pub binds: Vec<Binding>,
}

impl ContextRegistry {
    /// An empty registry: nothing provided yet.
    pub fn new() -> (r: ContextRegistry)
        ensures
            r.binds@.len() == 0,
    {
        ContextRegistry { binds: Vec::new() }
    }

    /// The current stack depth; pass it back to `exit_to` to leave the
    /// scope entered after taking it.
    pub fn scope_depth(&self) -> (d: usize)
        ensures
            d == self.binds@.len(),
    {
        self.binds.len()
    }

    /// Binds `key` to `cell` for the subtree being built, shadowing any
    /// outer binding of the same key until the scope is exited.
    pub fn provide(&mut self, key: u64, cell: usize)
        ensures
            final(self).binds@ == old(self).binds@.push(Binding { key, cell }),
    {
        self.binds.push(Binding { key, cell });
    }

    /// Leaves scopes: pops every binding made after `depth` was taken.
    /// Sibling subtrees built afterwards start from the same stack again.
    pub fn exit_to(&mut self, depth: usize)
        requires
            depth <= old(self).binds@.len(),
        ensures
            final(self).binds@ == old(self).binds@.take(depth as int),
    {
        self.binds.truncate(depth);
    }

    /// Resolves `key` innermost-first; a miss is the caller's structural
    /// error (no ancestor provided the key), reported immediately.
    pub fn lookup(&self, key: u64) -> (r: Result<usize, EngineError>)
        ensures
            (r is Ok) == (lookup_spec(self.binds@, key) is Some),
            r matches Ok(c) ==> lookup_spec(self.binds@, key) == Some(c),
            r matches Err(e) ==> e == EngineError::MissingProvider,
    {
        let mut i: usize = self.binds.len();
        proof {
            assert(self.binds@.take(i as int) =~= self.binds@);
        }
        while i > 0
            invariant
                i <= self.binds@.len(),
                lookup_spec(self.binds@, key) == lookup_spec(self.binds@.take(i as int), key),
            decreases i,
        {
            i = i - 1;
            let b = self.binds[i];
            proof {
                assert(self.binds@.take(i + 1).last() == self.binds@[i as int]);
                assert(self.binds@.take(i + 1).drop_last() =~= self.binds@.take(i as int));
            }
            if b.key == key {
                return Ok(b.cell);
            }
        }
        proof {
            assert(self.binds@.take(0) =~= Seq::<Binding>::empty());
        }
        Err(EngineError::MissingProvider)
    }
}

/// Law: context shadowing. Providing `key -> inner` on top of any stack
/// makes lookup resolve to `inner`; exiting back to the depth taken before
/// restores exactly the outer resolution, whatever it was.
pub proof fn law_context_shadowing(binds: Seq<Binding>, key: u64, inner: usize)
    ensures
        lookup_spec(binds.push(Binding { key, cell: inner }), key) == Some(inner),
        binds.push(Binding { key, cell: inner }).take(binds.len() as int) == binds,
{
    assert(binds.push(Binding { key, cell: inner }).last().key == key);
    assert(binds.push(Binding { key, cell: inner }).take(binds.len() as int) =~= binds);
}

/// Law: an unrelated binding is transparent. Providing some other key on
/// top of the stack leaves every other key's resolution unchanged.
pub proof fn law_unrelated_binding_transparent(binds: Seq<Binding>, key: u64, b: Binding)
    requires
        b.key != key,
    ensures
        lookup_spec(binds.push(b), key) == lookup_spec(binds, key),
{
    assert(binds.push(b).drop_last() =~= binds);
}

} // verus!
