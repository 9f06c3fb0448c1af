//! What each step of resolving does, in terms of what the files hold.

use vstd::prelude::*;
use crate::incremental::Incremental;
use crate::object_file::{file_base, file_links, file_offsets, file_symbols};
use crate::resolve::{
    Failure, ResolveError, Resolved, collected, file_bytes, full_resolution, incremental_links,
    name_error, outcome, placed, program_symbols, reference, resolution,
};
use crate::stub::law_offset_is_added;
use crate::symbols::{Link, Symbol, Unplaced, lacks_name, last_of_name, law_lookup_finds_the_last};
use crate::target::{BinaryFormat, Target};

verus! {

/// The reference symbol is the last one of the name `_aslr_reference`, whatever other symbols
/// there are. Without one it is, in ELF, the last one of the name `aslr_reference`. Otherwise
/// there is none.
pub proof fn law_reference_symbol(source: Seq<Symbol>, target: Target, i: int)
    ensures
        last_of_name(source, "_aslr_reference"@, i) ==> reference(source, target) == Some(
            source[i],
        ),
        lacks_name(source, "_aslr_reference"@) && target.binary_format == Some(BinaryFormat::Elf)
            && last_of_name(source, "aslr_reference"@, i) ==> reference(source, target) == Some(
            source[i],
        ),
        lacks_name(source, "_aslr_reference"@) && lacks_name(source, "aslr_reference"@)
            ==> reference(source, target) is None,
        lacks_name(source, "_aslr_reference"@) && target.binary_format != Some(BinaryFormat::Elf)
            ==> reference(source, target) is None,
{
    law_lookup_finds_the_last(source, "_aslr_reference"@, i);
    law_lookup_finds_the_last(source, "aslr_reference"@, i);
}

/// Symbols that are neither undefined nor global need no name. Where one of the others has no
/// readable name, the reason is that of the first such one.
pub proof fn law_first_unreadable_name(table: Seq<Link>, i: int)
    requires
        0 <= i <= table.len(),
        forall|j: int|
            0 <= j < i ==> ((#[trigger] table[j]).undefined || table[j].global ==> table[j].name
                is Ok),
        i < table.len() ==> (table[i].undefined || table[i].global) && table[i].name is Err,
    ensures
        i == table.len() ==> name_error(table) is None,
        i < table.len() ==> name_error(table) == Some(table[i].name->Err_0),
    decreases table.len(),
{
    if table.len() > 0 {
        let rest = table.drop_last();
        assert(forall|j: int| 0 <= j < rest.len() ==> rest[j] == #[trigger] table[j]);
        if i < rest.len() {
            law_first_unreadable_name(rest, i);
        } else {
            law_first_unreadable_name(rest, rest.len() as int);
            if i == table.len() {
                assert(table[table.len() - 1] == table.last());
            }
        }
    }
}

/// Whether all symbols of a table that are undefined or global have a readable name.
pub open spec fn readable(table: Seq<Link>) -> bool {
    forall|i: int|
        0 <= i < table.len() && ((#[trigger] table[i]).undefined || table[i].global)
            ==> table[i].name is Ok
}

/// Whether an object file can be used: it could be read, is an object file, and has readable
/// names.
pub open spec fn usable(file: Incremental) -> bool {
    &&& file.bytes is Some
    &&& file_links((file.bytes->0)@) is Ok
    &&& readable(file_links((file.bytes->0)@)->Ok_0)
}

proof fn lemma_readable(table: Seq<Link>)
    ensures
        name_error(table) is None <==> readable(table),
    decreases table.len(),
{
    if table.len() > 0 {
        let rest = table.drop_last();
        lemma_readable(rest);
        assert(table[table.len() - 1] == table.last());
        if readable(table) {
            assert forall|i: int|
                0 <= i < rest.len() && ((#[trigger] rest[i]).undefined || rest[i].global) implies
                rest[i].name is Ok by {
                assert(rest[i] == table[i]);
            }
        }
        if readable(rest) && !((table.last().undefined || table.last().global) && table.last().name
            is Err) {
            assert forall|i: int|
                0 <= i < table.len() && ((#[trigger] table[i]).undefined || table[i].global) implies
                table[i].name is Ok by {
                if i < rest.len() {
                    assert(rest[i] == table[i]);
                }
            }
        }
    }
}

/// An object file gives the symbols that it holds if it can be used. Otherwise the failure
/// names its place in the list and says what is wrong: that it could not be read, why it is no
/// object file, or that a name is unreadable.
pub proof fn law_symbols_of_a_file(file: Incremental, i: usize)
    ensures
        usable(file) <==> incremental_links(file, i) is Ok,
        usable(file) ==> incremental_links(file, i)->Ok_0 == file_links(
            (file.bytes->0)@,
        )->Ok_0,
        file.bytes is None ==> incremental_links(file, i)->Err_0 == Failure::ReadIncremental(i),
        file.bytes is Some && file_links((file.bytes->0)@) is Err ==> incremental_links(
            file,
            i,
        )->Err_0 == Failure::ParseIncremental(i, file_links((file.bytes->0)@)->Err_0),
        file.bytes is Some && file_links((file.bytes->0)@) is Ok && !readable(
            file_links((file.bytes->0)@)->Ok_0,
        ) ==> incremental_links(file, i)->Err_0 is NameIncremental && incremental_links(
            file,
            i,
        )->Err_0->NameIncremental_0 == i && Some(
            incremental_links(file, i)->Err_0->NameIncremental_1,
        ) == name_error(file_links((file.bytes->0)@)->Ok_0),
{
    if file.bytes is Some && file_links((file.bytes->0)@) is Ok {
        lemma_readable(file_links((file.bytes->0)@)->Ok_0);
    }
}

/// No files give no symbols, and one file more gives its symbols behind those of the others.
pub proof fn law_files_are_concatenated(
    files: Seq<Incremental>,
    order: Seq<usize>,
    i: usize,
)
    ensures
        order.len() == 0 ==> collected(files, order) is Ok && (collected(
            files,
            order,
        )->Ok_0).len() == 0,
        collected(files, order) is Ok && usable(files[i as int]) ==> collected(
            files,
            order.push(i),
        ) is Ok && collected(files, order.push(i))->Ok_0 == collected(files, order)->Ok_0
            + file_links((files[i as int].bytes->0)@)->Ok_0,
        collected(files, order) is Ok && !usable(files[i as int]) ==> collected(
            files,
            order.push(i),
        ) is Err && collected(files, order.push(i))->Err_0 == incremental_links(
            files[i as int],
            i,
        )->Err_0,
        collected(files, order) is Err ==> collected(files, order.push(i)) is Err && collected(
            files,
            order.push(i),
        )->Err_0 == collected(files, order)->Err_0,
{
    assert(order.push(i).drop_last() == order);
    law_symbols_of_a_file(files[i as int], i);
}

/// The symbols of a program are those that its file gives, in the same order and with the same
/// names, kinds and bindings. Each is as far from the base address as the file says, up to a
/// multiple of the size of the address space. Those without a distance are at 0.
pub proof fn law_symbols_of_the_program(bytes: Seq<u8>, i: int)
    requires
        file_symbols(bytes) is Ok,
        file_offsets(bytes) is Ok,
        file_base(bytes) is Ok,
        0 <= i < (file_symbols(bytes)->Ok_0).len(),
    ensures
        program_symbols(Some(bytes)) is Ok,
        (program_symbols(Some(bytes))->Ok_0).len() == (file_symbols(bytes)->Ok_0).len(),
        ({
            let symbol = (program_symbols(Some(bytes))->Ok_0)[i];
            let given = (file_symbols(bytes)->Ok_0)[i];
            let offset = (file_offsets(bytes)->Ok_0)[i];
            let base = file_base(bytes)->Ok_0;
            &&& symbol.name == given.name
            &&& symbol.kind == given.kind
            &&& symbol.weak == given.weak
            &&& offset is Some ==> (symbol.address - base - offset->0)
                % 0x1_0000_0000_0000_0000 == 0
            &&& offset is Some && base + offset->0 < 0x1_0000_0000_0000_0000 ==> symbol.address
                == base + offset->0
            &&& offset is None ==> symbol.address == 0
        }),
{
    let offset = (file_offsets(bytes)->Ok_0)[i];
    if offset is Some {
        law_offset_is_added(file_base(bytes)->Ok_0, offset->0);
    }
}

/// A symbol that is put in its place keeps its name, kind and binding, and is as far from the
/// base as it should be.
pub proof fn law_placed_symbol(symbol: Unplaced, offset: u64, base: u64)
    ensures
        placed(symbol, Some(offset), base).name == symbol.name,
        placed(symbol, Some(offset), base).kind == symbol.kind,
        placed(symbol, Some(offset), base).weak == symbol.weak,
        (placed(symbol, Some(offset), base).address - base - offset) % 0x1_0000_0000_0000_0000
            == 0,
        placed(symbol, None, base).name == symbol.name,
        placed(symbol, None, base).kind == symbol.kind,
        placed(symbol, None, base).weak == symbol.weak,
        placed(symbol, None, base).address == 0,
{
    law_offset_is_added(base, offset);
}

/// A program that could not be read or is no object file is reported as such.
pub proof fn law_unusable_program(bytes: Seq<u8>)
    ensures
        program_symbols(None) == Err::<Seq<Symbol>, _>(Failure::ReadSource),
        program_symbols(Some(bytes)) is Ok <==> file_symbols(bytes) is Ok && file_offsets(bytes)
            is Ok && file_base(bytes) is Ok,
        file_symbols(bytes) is Err ==> program_symbols(Some(bytes)) == Err::<Seq<Symbol>, _>(
            Failure::ParseSource(file_symbols(bytes)->Err_0),
        ),
        program_symbols(Some(bytes)) is Err ==> program_symbols(Some(bytes))->Err_0
            is ParseSource,
{
}

/// The object files come first, then the program, then what is made of both: a failure of an
/// earlier one hides those of later ones.
pub proof fn law_steps_of_a_resolution(
    source: Option<Seq<u8>>,
    files: Seq<Incremental>,
    order: Seq<usize>,
    target: Target,
    aslr_reference: u64,
)
    ensures
        collected(files, order) is Err ==> full_resolution(
            source,
            files,
            order,
            target,
            aslr_reference,
        ) is Err && full_resolution(source, files, order, target, aslr_reference)->Err_0
            == collected(files, order)->Err_0,
        collected(files, order) is Ok && program_symbols(source) is Err ==> full_resolution(
            source,
            files,
            order,
            target,
            aslr_reference,
        ) is Err && full_resolution(source, files, order, target, aslr_reference)->Err_0
            == program_symbols(source)->Err_0,
        collected(files, order) is Ok && program_symbols(source) is Ok ==> full_resolution(
            source,
            files,
            order,
            target,
            aslr_reference,
        ) == resolution(
            collected(files, order)->Ok_0,
            program_symbols(source)->Ok_0,
            target,
            aslr_reference,
        ),
{
}

/// The value of what reading a file gave has its bytes.
pub proof fn law_file_bytes(file: Option<Vec<u8>>)
    ensures
        file is Some <==> file_bytes(file) is Some,
        file is Some ==> file_bytes(file)->0 == (file->0)@,
{
}

/// The value of an outcome has the object's bytes and the characters of the missing names,
/// or the failure with all that it carries.
pub proof fn law_outcome_values(r: Result<Resolved, ResolveError>)
    ensures
        r is Ok <==> outcome(r) is Ok,
        r is Ok ==> (outcome(r)->Ok_0).object == (r->Ok_0).object@,
        r is Ok ==> (outcome(r)->Ok_0).missing.len() == (r->Ok_0).missing@.len(),
        r is Ok ==> forall|i: int|
            0 <= i < (r->Ok_0).missing@.len() ==> #[trigger] (outcome(r)->Ok_0).missing[i]
                == (r->Ok_0).missing@[i]@,
        r is Err ==> match r->Err_0 {
            ResolveError::ReadIncremental(i) => outcome(r)->Err_0 == Failure::ReadIncremental(i),
            ResolveError::ParseIncremental(i, error) => outcome(r)->Err_0
                == Failure::ParseIncremental(i, error),
            ResolveError::NameIncremental(i, error) => outcome(r)->Err_0
                == Failure::NameIncremental(i, error),
            ResolveError::ReadSource => outcome(r)->Err_0 == Failure::ReadSource,
            ResolveError::ParseSource(error) => outcome(r)->Err_0 == Failure::ParseSource(error),
            ResolveError::MissingReference => outcome(r)->Err_0 == Failure::MissingReference,
            ResolveError::Unpatchable(name) => outcome(r)->Err_0 == Failure::Unpatchable(name@),
            ResolveError::Write(error) => outcome(r)->Err_0 == Failure::Write(error),
        },
{
}

} // verus!
