//! Functions that can be replaced while the program runs.

use std::marker::PhantomData;
use vstd::layout::size_of;
use vstd::prelude::*;
use crate::jump_table::{JumpTable, law_relocated_lookup, slide};
use crate::runtime::{Runtime, patched_by};
use crate::stub::offset_by;

verus! {

/// The payload of the panic that unwinds to the next point at which patched code can
/// take over.
pub struct HotFnPanic {}

/// A function that can be called with arguments `A`. `M` tells the implementations for
/// functions of different shapes apart.
pub trait HotFunction<A, M> {
    type Return;

    /// Calls the function itself.
    fn call_it(&mut self, args: A) -> Self::Return;

    /// Calls the function as what it is to the machine, the address of code.
    fn call_as_ptr(&mut self, args: A) -> Self::Return;

    /// Calls the code at an address in place of the function.
    fn call_detour(&mut self, address: u64, args: A) -> Self::Return;
}

/// A function that calls its latest version.
#[verifier::reject_recursive_types(A)]
#[verifier::reject_recursive_types(M)]
pub struct HotFn<A, M, T: HotFunction<A, M>> {
    inner: T,
    _marker: PhantomData<(A, M)>,
}

/// How a call of a function is carried out.
#[derive(Clone, Copy, Debug, PartialEq, Eq, Structural)]
pub enum Dispatch {
    /// By the function's address: it is a function pointer.
    Pointer,
    /// By a replacement at this address.
    Detour(u64),
    /// By the function itself: the last patch has no replacement for it.
    Undetoured,
    /// By the function itself: there was no patch.
    Direct,
}

/// How to call a function of the given size in bytes whose code is at `address`.
pub open spec fn dispatched(size: nat, table: Option<JumpTable>, address: u64) -> Dispatch {
    if size == size_of::<usize>() {
        Dispatch::Pointer
    } else {
        match table {
            None => Dispatch::Direct,
            Some(table) => if table.map@.contains_key(address) {
                Dispatch::Detour(table.map@[address])
            } else {
                Dispatch::Undetoured
            },
        }
    }
}

/// Whether a call of `function` with `args` that is made in the given way can return `r`.
pub open spec fn carried_out<A, M, T: HotFunction<A, M>>(
    way: Dispatch,
    function: &mut T,
    args: A,
    r: T::Return,
) -> bool {
    match way {
        Dispatch::Pointer => call_ensures(T::call_as_ptr, (function, args), r),
        Dispatch::Detour(detour) => call_ensures(T::call_detour, (function, detour, args), r),
        Dispatch::Undetoured | Dispatch::Direct => call_ensures(T::call_it, (function, args), r),
    }
}

/// Makes a function one that calls its latest version.
pub fn current<A, M, F>(f: F) -> (r: HotFn<A, M, F>) where F: HotFunction<A, M>
    ensures
        r.function() == f,
{
    HotFn { inner: f, _marker: PhantomData }
}

impl<A, M, T: HotFunction<A, M>> HotFn<A, M, T> {
    /// The function.
    pub closed spec fn function(self) -> T {
        self.inner
    }

    /// Decides how to carry out a call, after the last patch put `table` in place.
    /// `address` is where the code of the function is that was compiled in.
    ///
    /// What has the size of an address is taken for a function pointer. Other functions
    /// are known by the address of their code, under which the jump table has them.
    pub fn dispatch(&self, table: &Option<JumpTable>, address: u64) -> (r: Dispatch)
        ensures
            r == dispatched(size_of::<T>(), *table, address),
    {
        broadcast use vstd::std_specs::hash::group_hash_axioms;

        if core::mem::size_of::<T>() == core::mem::size_of::<usize>() {
            return Dispatch::Pointer;
        }
        match table {
            None => Dispatch::Direct,
            Some(table) => match table.map.get(&address) {
                Some(detour) => Dispatch::Detour(*detour),
                None => Dispatch::Undetoured,
            },
        }
    }

    /// Carries out a call in the given way.
    pub fn call_by(&mut self, way: Dispatch, args: A) -> (r: T::Return)
        ensures
            exists|function: &mut T|
                #![trigger carried_out::<A, M, T>(way, function, args, r)]
                #![trigger call_ensures(T::call_as_ptr, (function, args), r)]
                #![trigger call_ensures(T::call_detour, (function, way->Detour_0, args), r)]
                #![trigger call_ensures(T::call_it, (function, args), r)]
                {
                    &&& carried_out::<A, M, T>(way, function, args, r)
                    &&& way is Pointer ==> call_ensures(T::call_as_ptr, (function, args), r)
                    &&& way is Detour ==> call_ensures(
                        T::call_detour,
                        (function, way->Detour_0, args),
                        r,
                    )
                    &&& way is Undetoured || way is Direct ==> call_ensures(
                        T::call_it,
                        (function, args),
                        r,
                    )
                    &&& *function == old(self).function()
                    &&& *final(function) == final(self).function()
                },
    {
        match way {
            Dispatch::Pointer => self.inner.call_as_ptr(args),
            Dispatch::Detour(detour) => self.inner.call_detour(detour, args),
            Dispatch::Undetoured | Dispatch::Direct => self.inner.call_it(args),
        }
    }

    /// Calls the latest version of the function, after the last patch put `table` in
    /// place. `address` is where the code of the function is that was compiled in.
    pub fn call(&mut self, args: A, table: &Option<JumpTable>, address: u64) -> (r: T::Return)
        ensures
            exists|function: &mut T|
                {
                    &&& #[trigger] carried_out::<A, M, T>(
                        dispatched(size_of::<T>(), *table, address),
                        function,
                        args,
                        r,
                    )
                    &&& size_of::<T>() == size_of::<usize>() ==> call_ensures(
                        T::call_as_ptr,
                        (function, args),
                        r,
                    )
                    &&& size_of::<T>() != size_of::<usize>() && table is Some
                        && table->0.map@.contains_key(address) ==> call_ensures(
                        T::call_detour,
                        (function, table->0.map@[address], args),
                        r,
                    )
                    &&& size_of::<T>() != size_of::<usize>() && (table is None
                        || !table->0.map@.contains_key(address)) ==> call_ensures(
                        T::call_it,
                        (function, args),
                        r,
                    )
                    &&& *function == old(self).function()
                    &&& *final(function) == final(self).function()
                },
    {
        let way = self.dispatch(table, address);
        self.call_by(way, args)
    }
}

/// What came of one attempt at a call.
#[derive(Clone, Copy, Debug, PartialEq, Eq, Structural)]
pub enum Attempt {
    /// The call returned.
    Returned,
    /// It panicked with a [`HotFnPanic`].
    HotPanic,
    /// It panicked with anything else.
    OtherPanic,
}

/// What to do after an attempt at a call.
#[derive(Clone, Copy, Debug, PartialEq, Eq, Structural)]
pub enum AfterAttempt {
    /// Return what the call returned.
    Return,
    /// Call once more: the function may have been replaced.
    Retry,
    /// Go on with the panic, which is none of ours.
    Resume,
}

/// What to do after an attempt at a call.
pub open spec fn after(attempt: Attempt) -> AfterAttempt {
    match attempt {
        Attempt::Returned => AfterAttempt::Return,
        Attempt::HotPanic => AfterAttempt::Retry,
        Attempt::OtherPanic => AfterAttempt::Resume,
    }
}

/// Decides what to do after an attempt at a call that is made with hot-patching: a call
/// that was unwound for a patch is made again, everything else goes to the caller.
pub fn after_attempt(attempt: Attempt) -> (r: AfterAttempt)
    ensures
        r == after(attempt),
{
    match attempt {
        Attempt::Returned => AfterAttempt::Return,
        Attempt::HotPanic => AfterAttempt::Retry,
        Attempt::OtherPanic => AfterAttempt::Resume,
    }
}

/// How a call that is made with hot-patching ends, if its attempts come out as given: after
/// how many of them, and what is then done. `None` where all of them are made and the call
/// is still to be made again.
pub open spec fn ended(attempts: Seq<Attempt>) -> Option<(nat, AfterAttempt)>
    decreases attempts.len(),
{
    if attempts.len() == 0 {
        None
    } else {
        match ended(attempts.drop_last()) {
            Some(end) => Some(end),
            None => if after(attempts.last()) is Retry {
                None
            } else {
                Some((attempts.len(), after(attempts.last())))
            },
        }
    }
}

/// A call ends with its first attempt that is not unwound for a patch, whatever would come
/// of later ones: it returns what that attempt returned, or goes on with its panic. No panic
/// for a patch leaves the call, and a call that is unwound every time does not end.
pub proof fn law_call_ends_at_first_other_outcome(attempts: Seq<Attempt>, k: int)
    requires
        0 <= k <= attempts.len(),
        forall|i: int| 0 <= i < k ==> (#[trigger] attempts[i]) == Attempt::HotPanic,
        k < attempts.len() ==> attempts[k] != Attempt::HotPanic,
    ensures
        k == attempts.len() ==> ended(attempts) is None,
        k < attempts.len() ==> ended(attempts) == Some(
            (
                (k + 1) as nat,
                if attempts[k] == Attempt::Returned {
                    AfterAttempt::Return
                } else {
                    AfterAttempt::Resume
                },
            ),
        ),
    decreases attempts.len(),
{
    if attempts.len() > 0 {
        let rest = attempts.drop_last();
        if k < attempts.len() {
            if k < rest.len() {
                law_call_ends_at_first_other_outcome(rest, k);
            } else {
                law_call_ends_at_first_other_outcome(rest, rest.len() as int);
            }
        } else {
            assert(attempts[k - 1] == Attempt::HotPanic);
            law_call_ends_at_first_other_outcome(rest, k - 1);
        }
    }
}

/// After a patch, a function that the jump table replaces is called through its
/// replacement: the function that is at `function` in the file of the program through
/// what the table gives for it in the file of the patch, each where it was loaded.
pub proof fn law_patched_function_is_detoured<H: ?Sized>(
    before: Runtime<H>,
    patched: Runtime<H>,
    jump_table: JumpTable,
    old_symbol: usize,
    new_symbol: usize,
    size: nat,
    function: u64,
)
    requires
        patched_by(before, patched, jump_table, old_symbol, new_symbol),
        size != size_of::<usize>(),
        jump_table.map@.contains_key(function),
    ensures
        dispatched(
            size,
            patched.jump_table,
            offset_by(
                function,
                slide(jump_table.old_base_address as usize, old_symbol) as u64,
            ),
        ) == Dispatch::Detour(
            offset_by(
                jump_table.map@[function],
                slide(jump_table.new_base_address as usize, new_symbol) as u64,
            ),
        ),
{
    law_relocated_lookup(
        jump_table.map@,
        slide(jump_table.old_base_address as usize, old_symbol) as u64,
        slide(jump_table.new_base_address as usize, new_symbol) as u64,
        function,
    );
}

/// After a patch, a function that the jump table does not replace is called itself.
pub proof fn law_other_functions_are_kept<H: ?Sized>(
    before: Runtime<H>,
    patched: Runtime<H>,
    jump_table: JumpTable,
    old_symbol: usize,
    new_symbol: usize,
    size: nat,
    function: u64,
)
    requires
        patched_by(before, patched, jump_table, old_symbol, new_symbol),
        size != size_of::<usize>(),
        !jump_table.map@.contains_key(function),
    ensures
        dispatched(
            size,
            patched.jump_table,
            offset_by(
                function,
                slide(jump_table.old_base_address as usize, old_symbol) as u64,
            ),
        ) == Dispatch::Undetoured,
{
    law_relocated_lookup(
        jump_table.map@,
        slide(jump_table.old_base_address as usize, old_symbol) as u64,
        slide(jump_table.new_base_address as usize, new_symbol) as u64,
        function,
    );
}

/// What has the size of an address is called as a function pointer, whatever jump table there
/// is and wherever its code is.
pub proof fn law_pointers_are_called_as_such(
    size: nat,
    table: Option<JumpTable>,
    address: u64,
)
    ensures
        dispatched(size, table, address) is Pointer <==> size == size_of::<usize>(),
{
}

/// Without a patch, everything else is called itself.
pub proof fn law_unpatched_functions_are_called_themselves(
    size: nat,
    table: Option<JumpTable>,
    address: u64,
)
    requires
        size != size_of::<usize>(),
    ensures
        dispatched(size, table, address) is Direct <==> table is None,
{
}

/// With a jump table, everything else is called through what the table gives for its address,
/// and itself where the table gives nothing.
pub proof fn law_table_decides(size: nat, table: JumpTable, address: u64)
    requires
        size != size_of::<usize>(),
    ensures
        table.map@.contains_key(address) <==> dispatched(size, Some(table), address) is Detour,
        table.map@.contains_key(address) ==> dispatched(size, Some(table), address)->Detour_0
            == table.map@[address],
        !table.map@.contains_key(address) ==> dispatched(size, Some(table), address) is Undetoured,
{
}

/// After one attempt at a call it is over, unless the attempt was unwound for a patch: what
/// was returned is returned, and any other panic goes on.
pub proof fn law_after_one_attempt(attempt: Attempt)
    ensures
        attempt is Returned <==> after(attempt) is Return,
        attempt is HotPanic <==> after(attempt) is Retry,
        attempt is OtherPanic <==> after(attempt) is Resume,
{
}

} // verus!
