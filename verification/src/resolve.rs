//! Resolving what freshly compiled object files leave undefined against the program
//! that they are going to patch.

use vstd::prelude::*;
use crate::incremental::{Incremental, ascending, is_permutation, sorted_order};
use crate::object_file::{
    ObjectContents, file_base, file_links, file_offsets, file_symbols, object_bytes, read_base,
    read_links, read_offsets, read_symbols, unencodable,
};
use crate::patch::{
    PatchSymbol, find_unpatchable, first_unpatchable, lemma_all_patchable, missing_names,
    name_patchable, patch_symbols, patched, plan_patch,
};
use crate::patch_object::{addable, patch_contents, write_patch};
use crate::stub::{aslr_offset, distance, offset_by, process_address};
use crate::symbols::{
    Link, LinkEntry, Symbol, SymbolEntry, SymbolTable, Unplaced, UnplacedEntry, links, lookup,
    names, symbols, unplaced, unresolved, unresolved_names,
};
use crate::target::{BinaryFormat, Target};

verus! {

/// Why no patch object was made.
#[derive(Debug, PartialEq, Eq)]
pub enum ResolveError {
    /// The object file at this place of the list could not be read.
    ReadIncremental(usize),
    /// The object file at this place of the list is malformed.
    ParseIncremental(usize, object::read::Error),
    /// The object file at this place of the list has an undefined or global symbol
    /// without a readable name.
    NameIncremental(usize, object::read::Error),
    /// The program to patch could not be read.
    ReadSource,
    /// The program to patch is malformed.
    ParseSource(object::read::Error),
    /// The program to patch has no reference symbol.
    MissingReference,
    /// No object can define this name, though the program to patch has it.
    Unpatchable(String),
    /// The object writer has no encoding for one of the symbols.
    Write(object::write::Error),
}

/// The value of a [`ResolveError`].
pub enum Failure {
    ReadIncremental(usize),
    ParseIncremental(usize, object::read::Error),
    NameIncremental(usize, object::read::Error),
    ReadSource,
    ParseSource(object::read::Error),
    MissingReference,
    Unpatchable(Seq<char>),
    Write(object::write::Error),
}

impl View for ResolveError {
    type V = Failure;

    open spec fn view(&self) -> Failure {
        match *self {
            ResolveError::ReadIncremental(i) => Failure::ReadIncremental(i),
            ResolveError::ParseIncremental(i, error) => Failure::ParseIncremental(i, error),
            ResolveError::NameIncremental(i, error) => Failure::NameIncremental(i, error),
            ResolveError::ReadSource => Failure::ReadSource,
            ResolveError::ParseSource(error) => Failure::ParseSource(error),
            ResolveError::MissingReference => Failure::MissingReference,
            ResolveError::Unpatchable(name) => Failure::Unpatchable(name@),
            ResolveError::Write(error) => Failure::Write(error),
        }
    }
}

/// A patch object.
#[derive(Debug, PartialEq, Eq)]
pub struct Resolved {
    /// The bytes of the object file.
    pub object: Vec<u8>,
    /// The undefined names that the program to patch does not have either.
    pub missing: Vec<String>,
}

/// The value of a [`Resolved`].
#[verifier::ext_equal]
pub struct Resolution {
    pub object: Seq<u8>,
    pub missing: Seq<Seq<char>>,
}

impl View for Resolved {
    type V = Resolution;

    open spec fn view(&self) -> Resolution {
        Resolution { object: self.object@, missing: names(self.missing@) }
    }
}

/// The value of what a resolution returns.
pub open spec fn outcome(r: Result<Resolved, ResolveError>) -> Result<Resolution, Failure> {
    match r {
        Ok(resolved) => Ok(resolved@),
        Err(error) => Err(error@),
    }
}

/// The symbol whose address ties a running process to its file: `_aslr_reference`, or in
/// ELF, where names get no underscore in front, `aslr_reference`.
pub open spec fn reference(source: Seq<Symbol>, target: Target) -> Option<Symbol> {
    match lookup(source, "_aslr_reference"@) {
        Some(symbol) => Some(symbol),
        None => if target.binary_format == Some(BinaryFormat::Elf) {
            lookup(source, "aslr_reference"@)
        } else {
            None
        },
    }
}

/// Why the first of the symbols that matter to other files, the undefined and the global
/// ones, and that have no readable name, has none.
pub open spec fn name_error(table: Seq<Link>) -> Option<object::read::Error>
    decreases table.len(),
{
    if table.len() == 0 {
        None
    } else {
        match name_error(table.drop_last()) {
            Some(error) => Some(error),
            None => if (table.last().undefined || table.last().global) && table.last().name is Err {
                Some(table.last().name->Err_0)
            } else {
                None
            },
        }
    }
}

/// The symbols of one object file, or why it cannot be used.
pub open spec fn incremental_links(file: Incremental, i: usize) -> Result<Seq<Link>, Failure> {
    match file.bytes {
        None => Err(Failure::ReadIncremental(i)),
        Some(bytes) => match file_links(bytes@) {
            Err(error) => Err(Failure::ParseIncremental(i, error)),
            Ok(table) => match name_error(table) {
                Some(error) => Err(Failure::NameIncremental(i, error)),
                None => Ok(table),
            },
        },
    }
}

/// The symbols of the object files, one file after the other in the given order, or why
/// the first of them that cannot be used cannot.
pub open spec fn collected(files: Seq<Incremental>, order: Seq<usize>) -> Result<
    Seq<Link>,
    Failure,
>
    decreases order.len(),
{
    if order.len() == 0 {
        Ok(Seq::empty())
    } else {
        match collected(files, order.drop_last()) {
            Err(failure) => Err(failure),
            Ok(table) => match incremental_links(files[order.last() as int], order.last()) {
                Err(failure) => Err(failure),
                Ok(more) => Ok(table + more),
            },
        }
    }
}

/// The symbols that the patch object for what `table` leaves undefined is to define, with
/// the addresses they have in a process in which the reference symbol is at
/// `aslr_reference`.
pub open spec fn planned(
    table: Seq<Link>,
    source: Seq<Symbol>,
    target: Target,
    aslr_reference: u64,
) -> Seq<PatchSymbol<Seq<u8>>> {
    patch_symbols(
        unresolved(table),
        source,
        target,
        distance((reference(source, target)->0).address, aslr_reference),
    )
}

/// What the patch object for what `table` leaves undefined holds.
pub open spec fn patch_object(
    table: Seq<Link>,
    source: Seq<Symbol>,
    target: Target,
    aslr_reference: u64,
) -> ObjectContents {
    patch_contents(target, planned(table, source, target, aslr_reference))
}

/// The patch object for what `table` leaves undefined, made from the symbols of the
/// program to patch, or why there is none.
pub open spec fn resolution(
    table: Seq<Link>,
    source: Seq<Symbol>,
    target: Target,
    aslr_reference: u64,
) -> Result<Resolution, Failure> {
    let object = patch_object(table, source, target, aslr_reference);
    if reference(source, target) is None {
        Err(Failure::MissingReference)
    } else {
        match first_unpatchable(unresolved(table), source) {
            Some(name) => Err(Failure::Unpatchable(name)),
            None => if unencodable(object) {
                Err(Failure::Write(object_bytes(object)->Err_0))
            } else {
                Ok(
                    Resolution {
                        object: object_bytes(object)->Ok_0,
                        missing: missing_names(unresolved(table), source),
                    },
                )
            },
        }
    }
}

/// The value of what reading a file gave.
pub open spec fn file_bytes(file: Option<Vec<u8>>) -> Option<Seq<u8>> {
    match file {
        Some(bytes) => Some(bytes@),
        None => None,
    }
}

/// A symbol at the given distance from the base address of its file. Without a distance it
/// has no address, and 0 stands for one.
pub open spec fn placed(symbol: Unplaced, offset: Option<u64>, base: u64) -> Symbol {
    Symbol {
        name: symbol.name,
        address: match offset {
            Some(offset) => offset_by(base, offset),
            None => 0,
        },
        kind: symbol.kind,
        weak: symbol.weak,
    }
}

/// The symbols of the program to patch, or why it cannot be used.
pub open spec fn program_symbols(source: Option<Seq<u8>>) -> Result<Seq<Symbol>, Failure> {
    match source {
        None => Err(Failure::ReadSource),
        Some(bytes) => match (file_symbols(bytes), file_offsets(bytes), file_base(bytes)) {
            (Ok(table), Ok(offsets), Ok(base)) => Ok(
                Seq::new(table.len(), |i: int| placed(table[i], offsets[i], base)),
            ),
            (Err(error), _, _) => Err(Failure::ParseSource(error)),
            (_, Err(error), _) => Err(Failure::ParseSource(error)),
            (_, _, Err(error)) => Err(Failure::ParseSource(error)),
        },
    }
}

/// The patch object for what the object files leave undefined, or why there is none, if
/// the files are taken in the given order.
pub open spec fn full_resolution(
    source: Option<Seq<u8>>,
    files: Seq<Incremental>,
    order: Seq<usize>,
    target: Target,
    aslr_reference: u64,
) -> Result<Resolution, Failure> {
    match collected(files, order) {
        Err(failure) => Err(failure),
        Ok(table) => match program_symbols(source) {
            Err(failure) => Err(failure),
            Ok(symbols) => resolution(table, symbols, target, aslr_reference),
        },
    }
}

/// Finds the first of the symbols that matter to other files, the undefined and the global
/// ones, that has no readable name, and returns why it has none.
pub fn find_name_error(entries: &Vec<LinkEntry>) -> (r: Option<object::read::Error>)
    ensures
        r == name_error(links(entries@)),
{
    let ghost table = links(entries@);
    let mut i: usize = 0;
    while i < entries.len()
        invariant
            i <= entries@.len(),
            table == links(entries@),
            name_error(table.take(i as int)) is None,
        decreases entries@.len() - i,
    {
        let entry = &entries[i];
        let ghost more = table.take(i + 1);
        assert(more.drop_last() == table.take(i as int));
        assert(more.last() == entry@);
        if entry.undefined || entry.global {
            if let Err(error) = &entry.name {
                proof {
                    lemma_name_error_prefix(table, i + 1);
                }
                return Some(*error);
            }
        }
        i += 1;
    }
    assert(table.take(entries@.len() as int) == table);
    None
}

proof fn lemma_name_error_prefix(table: Seq<Link>, k: int)
    requires
        0 <= k <= table.len(),
        name_error(table.take(k)) is Some,
    ensures
        name_error(table) == name_error(table.take(k)),
    decreases table.len(),
{
    if k < table.len() {
        assert(table.drop_last().take(k) == table.take(k));
        lemma_name_error_prefix(table.drop_last(), k);
    } else {
        assert(table.take(k) == table);
    }
}

/// Reads the symbols of the object files, one file after the other in the given order.
pub fn collect_symbols(files: &Vec<Incremental>, order: &Vec<usize>) -> (r: Result<
    Vec<LinkEntry>,
    ResolveError,
>)
    requires
        forall|k: int| 0 <= k < order@.len() ==> (#[trigger] order@[k]) < files@.len(),
    ensures
        match r {
            Ok(entries) => collected(files@, order@) == Ok::<_, Failure>(links(entries@)),
            Err(error) => collected(files@, order@) == Err::<Seq<Link>, _>(error@),
        },
{
    let mut all: Vec<LinkEntry> = Vec::new();
    let mut k: usize = 0;
    assert(links(all@) =~= Seq::empty());
    while k < order.len()
        invariant
            k <= order@.len(),
            forall|k: int| 0 <= k < order@.len() ==> (#[trigger] order@[k]) < files@.len(),
            collected(files@, order@.take(k as int)) == Ok::<_, Failure>(links(all@)),
        decreases order@.len() - k,
    {
        let i = order[k];
        let ghost more = order@.take(k + 1);
        proof {
            assert(more.drop_last() == order@.take(k as int));
            assert(more.last() == i);
        }
        let result = match &files[i].bytes {
            None => Err(ResolveError::ReadIncremental(i)),
            Some(bytes) => match read_links(bytes) {
                Err(error) => Err(ResolveError::ParseIncremental(i, error)),
                Ok(entries) => match find_name_error(&entries) {
                    Some(error) => Err(ResolveError::NameIncremental(i, error)),
                    None => Ok(entries),
                },
            },
        };
        match result {
            Ok(mut entries) => {
                let ghost before = all@;
                let ghost added = entries@;
                all.append(&mut entries);
                assert(links(all@) == links(before) + links(added));
            },
            Err(error) => {
                proof {
                    lemma_failed_prefix(files@, order@, k + 1);
                }
                return Err(error);
            },
        }
        k += 1;
    }
    assert(order@.take(order@.len() as int) == order@);
    Ok(all)
}

proof fn lemma_failed_prefix(files: Seq<Incremental>, order: Seq<usize>, k: int)
    requires
        0 <= k <= order.len(),
        collected(files, order.take(k)) is Err,
    ensures
        collected(files, order) == collected(files, order.take(k)),
    decreases order.len(),
{
    if k < order.len() {
        assert(order.drop_last().take(k) == order.take(k));
        lemma_failed_prefix(files, order.drop_last(), k);
    } else {
        assert(order.take(k) == order);
    }
}

/// Finds the symbol whose address ties a running process to its file, and returns the
/// address that the file gives for it.
pub fn find_reference(table: &SymbolTable, target: &Target) -> (r: Option<u64>)
    ensures
        r == (match reference(table@, *target) {
            Some(symbol) => Some(symbol.address),
            None => None,
        }),
{
    if let Some(entry) = table.get("_aslr_reference") {
        return Some(entry.address);
    }
    match target.binary_format {
        Some(BinaryFormat::Elf) => match table.get("aslr_reference") {
            Some(entry) => Some(entry.address),
            None => None,
        },
        _ => None,
    }
}

/// Makes the patch object for what the given symbols leave undefined, from the symbols
/// of the program to patch.
pub fn resolve_symbols(
    entries: &Vec<LinkEntry>,
    source: Vec<SymbolEntry>,
    target: &Target,
    aslr_reference: u64,
) -> (r: Result<Resolved, ResolveError>)
    requires
        target.supported(),
    ensures
        outcome(r) == resolution(links(entries@), symbols(source@), *target, aslr_reference),
{
    let table = SymbolTable::new(source);
    let offset = match find_reference(&table, target) {
        Some(address) => aslr_offset(aslr_reference, address),
        None => {
            return Err(ResolveError::MissingReference);
        },
    };
    let list = unresolved_names(entries);
    if let Some(name) = find_unpatchable(&list, &table) {
        return Err(ResolveError::Unpatchable(name));
    }
    let patch = plan_patch(&list, &table, target, offset);
    proof {
        lemma_addable(names(list@), table@, *target, offset);
        assert forall|i: int| 0 <= i < patch.symbols@.len() implies addable(
            (#[trigger] patch.symbols@[i])@,
        ) by {
            assert(patched(patch.symbols@)[i] == patch.symbols@[i]@);
        }
    }
    match write_patch(target, &patch.symbols) {
        Ok(object) => Ok(Resolved { object, missing: patch.missing }),
        Err(error) => Err(ResolveError::Write(error)),
    }
}

proof fn lemma_addable(
    list: Seq<Seq<char>>,
    table: Seq<Symbol>,
    target: Target,
    aslr_offset: u64,
)
    requires
        first_unpatchable(list, table) is None,
    ensures
        forall|i: int|
            0 <= i < patch_symbols(list, table, target, aslr_offset).len() ==> addable(
                #[trigger] patch_symbols(list, table, target, aslr_offset)[i],
            ),
    decreases list.len(),
{
    if list.len() > 0 {
        lemma_addable(list.drop_last(), table, target, aslr_offset);
        lemma_all_patchable(list, table);
        let name = list[list.len() - 1];
        assert(name_patchable(name, table));
        let all = patch_symbols(list, table, target, aslr_offset);
        let rest = patch_symbols(list.drop_last(), table, target, aslr_offset);
        assert forall|i: int| 0 <= i < all.len() implies addable(#[trigger] all[i]) by {
            if i < rest.len() {
                assert(all[i] == rest[i]);
            }
        }
    }
}

/// Puts the symbols of a program where they are in its file: each at its distance from the
/// base address.
pub fn place_symbols(
    entries: Vec<UnplacedEntry>,
    offsets: &Vec<Option<u64>>,
    base: u64,
) -> (r: Vec<SymbolEntry>)
    requires
        offsets@.len() == entries@.len(),
    ensures
        symbols(r@) == Seq::new(
            entries@.len(),
            |i: int| placed(entries@[i]@, offsets@[i], base),
        ),
{
    let mut r: Vec<SymbolEntry> = Vec::new();
    let mut i: usize = 0;
    while i < entries.len()
        invariant
            i <= entries@.len(),
            offsets@.len() == entries@.len(),
            r@.len() == i,
            forall|j: int|
                0 <= j < i ==> (#[trigger] r@[j])@ == placed(entries@[j]@, offsets@[j], base),
        decreases entries@.len() - i,
    {
        let entry = &entries[i];
        let address: u64 = match offsets[i] {
            Some(offset) => process_address(base, offset),
            None => 0,
        };
        let name = match &entry.name {
            Some(name) => Some(name.clone()),
            None => None,
        };
        r.push(SymbolEntry { name, address, kind: entry.kind, weak: entry.weak });
        i += 1;
    }
    r
}

/// Reads the symbols of the program to patch.
pub fn read_program(source: &Option<Vec<u8>>) -> (r: Result<Vec<SymbolEntry>, ResolveError>)
    ensures
        match r {
            Ok(entries) => program_symbols(file_bytes(*source)) == Ok::<_, Failure>(
                symbols(entries@),
            ),
            Err(error) => program_symbols(file_bytes(*source)) == Err::<Seq<Symbol>, _>(error@),
        },
{
    let bytes = match source {
        Some(bytes) => bytes,
        None => {
            return Err(ResolveError::ReadSource);
        },
    };
    match (read_symbols(bytes), read_offsets(bytes), read_base(bytes)) {
        (Ok(entries), Ok(offsets), Ok(base)) => {
            let ghost table = unplaced(entries@);
            let r = place_symbols(entries, &offsets, base);
            assert(symbols(r@) == Seq::new(
                table.len(),
                |i: int| placed(table[i], offsets@[i], base),
            ));
            Ok(r)
        },
        (Err(error), _, _) => Err(ResolveError::ParseSource(error)),
        (_, Err(error), _) => Err(ResolveError::ParseSource(error)),
        (_, _, Err(error)) => Err(ResolveError::ParseSource(error)),
    }
}

/// Makes the patch object for what the object files leave undefined, taking the files in
/// the given order.
pub fn resolve_ordered(
    source: &Option<Vec<u8>>,
    files: &Vec<Incremental>,
    order: &Vec<usize>,
    target: &Target,
    aslr_reference: u64,
) -> (r: Result<Resolved, ResolveError>)
    requires
        target.supported(),
        forall|k: int| 0 <= k < order@.len() ==> (#[trigger] order@[k]) < files@.len(),
    ensures
        outcome(r) == full_resolution(
            file_bytes(*source),
            files@,
            order@,
            *target,
            aslr_reference,
        ),
{
    match collect_symbols(files, order) {
        Err(error) => Err(error),
        Ok(entries) => match read_program(source) {
            Err(error) => Err(error),
            Ok(symbols) => resolve_symbols(&entries, symbols, target, aslr_reference),
        },
    }
}

/// Reads the symbols of the object files, one file after the other in the order of their
/// paths.
pub fn scan_incrementals(incrementals: &Vec<Incremental>) -> (r: Result<
    Vec<LinkEntry>,
    ResolveError,
>)
    ensures
        exists|order: Seq<usize>|
            {
                &&& #[trigger] is_permutation(order, incrementals@.len())
                &&& ascending(incrementals@, order)
                &&& match r {
                    Ok(entries) => collected(incrementals@, order) == Ok::<_, Failure>(
                        links(entries@),
                    ),
                    Err(error) => collected(incrementals@, order) == Err::<Seq<Link>, _>(error@),
                }
            },
{
    let order = sorted_order(incrementals);
    collect_symbols(incrementals, &order)
}

/// Resolves the undefined symbols of the object files against the program to patch, and
/// returns an object file that can be linked along with them. Loading the result makes
/// the patched code use the symbols of the running program, past the dynamic linker.
///
/// The files are taken in the order of their paths. `aslr_reference` is the address of
/// the reference symbol in the running program.
pub fn resolve_undefined(
    source: &Option<Vec<u8>>,
    incrementals: &Vec<Incremental>,
    target: &Target,
    aslr_reference: u64,
) -> (r: Result<Resolved, ResolveError>)
    requires
        target.supported(),
    ensures
        exists|order: Seq<usize>|
            {
                &&& #[trigger] is_permutation(order, incrementals@.len())
                &&& ascending(incrementals@, order)
                &&& outcome(r) == full_resolution(
                    file_bytes(*source),
                    incrementals@,
                    order,
                    *target,
                    aslr_reference,
                )
            },
{
    let order = sorted_order(incrementals);
    resolve_ordered(source, incrementals, &order, target, aslr_reference)
}

} // verus!
