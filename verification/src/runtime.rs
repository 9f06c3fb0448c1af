//! The state of hot-patching in a running program.

use std::sync::Arc;
use vstd::prelude::*;
use crate::jump_table::{
    JumpTable, is_relocated, law_relocated_table, relocate_native_jump_table,
};

verus! {

/// What a running program knows of the patches that it was given. `H` is the type of the
/// handlers that are called after a patch.
pub struct Runtime<H: ?Sized> {
    /// The functions that the last patch replaced.
    pub jump_table: Option<JumpTable>,
    /// The handlers, in the order in which they were registered.
    pub handlers: Vec<Arc<H>>,
    /// Whether there was a patch that nobody has asked about.
    pub changed: bool,
}

/// Calls `<Arc<H> as Clone>::clone`. Claims that the two point to the same value.
#[verifier::external_body]
fn share<H: ?Sized>(handler: &Arc<H>) -> (r: Arc<H>)
    ensures
        r == *handler,
{
    Arc::clone(handler)
}

/// The state of a program that was not patched.
pub fn unpatched<H: ?Sized>() -> (r: Runtime<H>)
    ensures
        r.jump_table is None,
        r.handlers@ == Seq::<Arc<H>>::empty(),
        !r.changed,
{
    Runtime { jump_table: None, handlers: Vec::new(), changed: false }
}

/// What registering a handler does to the state.
pub open spec fn registered<H: ?Sized>(before: Runtime<H>, after: Runtime<H>, handler: Arc<H>) -> bool {
    &&& after.handlers@ == before.handlers@.push(handler)
    &&& after.jump_table == before.jump_table
    &&& after.changed == before.changed
}

/// What asking about changes does to the state, and what is answered: whether there was
/// a patch since the last time, which is then forgotten.
pub open spec fn asked<H: ?Sized>(before: Runtime<H>, after: Runtime<H>, answer: bool) -> bool {
    &&& answer == before.changed
    &&& !after.changed
    &&& after.jump_table == before.jump_table
    &&& after.handlers@ == before.handlers@
}

/// What a patch does to the state, where the known symbol was found at `old_symbol` in
/// the program and at `new_symbol` in the patch.
pub open spec fn patched_by<H: ?Sized>(
    before: Runtime<H>,
    after: Runtime<H>,
    jump_table: JumpTable,
    old_symbol: usize,
    new_symbol: usize,
) -> bool {
    &&& after.jump_table is Some
    &&& is_relocated(after.jump_table->0, jump_table, old_symbol, new_symbol)
    &&& after.changed
    &&& after.handlers@ == before.handlers@
}

/// Adds a handler to those that are called after each patch.
pub fn register_handler<H: ?Sized>(runtime: &mut Runtime<H>, handler: Arc<H>)
    ensures
        registered(*old(runtime), *final(runtime), handler),
{
    runtime.handlers.push(handler);
}

/// Whether there was a patch since this was last asked.
pub fn changed<H: ?Sized>(runtime: &mut Runtime<H>) -> (r: bool)
    ensures
        asked(*old(runtime), *final(runtime), r),
{
    let changed = runtime.changed;
    runtime.changed = false;
    changed
}

/// Applies a patch: from now on its functions replace those of the program. `old_symbol`
/// and `new_symbol` are the addresses at which the known symbol was found in the program
/// and in the patch. Returns the handlers that are to be called now, in order: all that
/// are registered at this time.
pub fn run_patch<H: ?Sized>(
    runtime: &mut Runtime<H>,
    jump_table: JumpTable,
    old_symbol: Option<usize>,
    new_symbol: Option<usize>,
) -> (r: Vec<Arc<H>>)
    requires
        old_symbol is Some,
        new_symbol is Some,
    ensures
        patched_by(*old(runtime), *final(runtime), jump_table, old_symbol->0, new_symbol->0),
        r@ == old(runtime).handlers@,
{
    let jump_table = relocate_native_jump_table(jump_table, old_symbol, new_symbol);
    runtime.jump_table = Some(jump_table);
    runtime.changed = true;
    let mut handlers: Vec<Arc<H>> = Vec::new();
    let mut i: usize = 0;
    while i < runtime.handlers.len()
        invariant
            i <= runtime.handlers@.len(),
            handlers@ == runtime.handlers@.take(i as int),
        decreases runtime.handlers@.len() - i,
    {
        handlers.push(share(&runtime.handlers[i]));
        i += 1;
    }
    handlers
}

/// Each patch is reported once, to the first who asks.
pub proof fn law_patch_is_reported_once<H: ?Sized>(
    start: Runtime<H>,
    patched: Runtime<H>,
    asked_once: Runtime<H>,
    asked_twice: Runtime<H>,
    jump_table: JumpTable,
    old_symbol: usize,
    new_symbol: usize,
    first: bool,
    second: bool,
)
    requires
        patched_by(start, patched, jump_table, old_symbol, new_symbol),
        asked(patched, asked_once, first),
        asked(asked_once, asked_twice, second),
    ensures
        first,
        !second,
{
}

/// Of two patches in a row the second counts: it replaces the first whole.
pub proof fn law_last_patch_counts<H: ?Sized>(
    start: Runtime<H>,
    between: Runtime<H>,
    end: Runtime<H>,
    first: JumpTable,
    second: JumpTable,
    old_symbol: usize,
    first_symbol: usize,
    second_symbol: usize,
)
    requires
        patched_by(start, between, first, old_symbol, first_symbol),
        patched_by(between, end, second, old_symbol, second_symbol),
    ensures
        patched_by(start, end, second, old_symbol, second_symbol),
{
}

/// A registered handler is the last of those that the next patch calls, behind the ones
/// that were there before, and the patch keeps them all.
pub proof fn law_registered_handler_is_called<H: ?Sized>(
    start: Runtime<H>,
    ready: Runtime<H>,
    handler: Arc<H>,
    patched: Runtime<H>,
    jump_table: JumpTable,
    old_symbol: usize,
    new_symbol: usize,
)
    requires
        registered(start, ready, handler),
        patched_by(ready, patched, jump_table, old_symbol, new_symbol),
    ensures
        ready.handlers@.last() == handler,
        ready.handlers@.drop_last() == start.handlers@,
        patched.handlers@ == ready.handlers@,
{
}

/// Registering a handler adds it behind the others and changes nothing else: no patch is
/// applied, reported or forgotten.
pub proof fn law_registering_only_adds<H: ?Sized>(
    before: Runtime<H>,
    after: Runtime<H>,
    handler: Arc<H>,
)
    requires
        registered(before, after, handler),
    ensures
        after.handlers@.len() == before.handlers@.len() + 1,
        after.handlers@[before.handlers@.len() as int] == handler,
        forall|i: int|
            0 <= i < before.handlers@.len() ==> after.handlers@[i] == before.handlers@[i],
        after.jump_table == before.jump_table,
        after.changed == before.changed,
{
}

/// Asking tells whether there was a patch that nobody asked about, forgets that, and changes
/// nothing else.
pub proof fn law_asking_only_forgets<H: ?Sized>(
    before: Runtime<H>,
    after: Runtime<H>,
    answer: bool,
)
    requires
        asked(before, after, answer),
    ensures
        before.changed ==> answer,
        !before.changed ==> !answer,
        !after.changed,
        after.jump_table == before.jump_table,
        after.handlers@ == before.handlers@,
{
}

/// After a patch the state holds the moved table of that patch, the patch is to be reported,
/// and the handlers are those there were.
pub proof fn law_patch_takes_effect<H: ?Sized>(
    before: Runtime<H>,
    after: Runtime<H>,
    jump_table: JumpTable,
    old_symbol: usize,
    new_symbol: usize,
    function: u64,
    moved: u64,
)
    requires
        patched_by(before, after, jump_table, old_symbol, new_symbol),
        usize::MAX == u64::MAX,
        (moved - (function + old_symbol - jump_table.old_base_address))
            % 0x1_0000_0000_0000_0000 == 0,
    ensures
        after.changed,
        after.handlers@ == before.handlers@,
        after.jump_table is Some,
        (after.jump_table->0).map@.contains_key(moved) <==> jump_table.map@.contains_key(
            function,
        ),
        jump_table.map@.contains_key(function) ==> ((after.jump_table->0).map@[moved] - (
        jump_table.map@[function] + new_symbol - jump_table.new_base_address))
            % 0x1_0000_0000_0000_0000 == 0,
        (after.jump_table->0).lib == jump_table.lib,
{
    law_relocated_table(
        after.jump_table->0,
        jump_table,
        old_symbol,
        new_symbol,
        function,
        moved,
    );
}

} // verus!
