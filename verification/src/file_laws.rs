//! What holds of lists of object files, whatever order they come in.

use vstd::prelude::*;
use crate::incremental::{
    Incremental, ascending, is_permutation, lemma_paths, lemma_permutation_is_complete, not_behind,
    paths_ordered, same_path,
};
use crate::object_laws::{
    address_in_process, is_moved, law_moved_reference_moves_all, law_same_names_same_object,
    law_symbols_of_an_object, resolved_address, resolves, same_names, stands_for,
};
use crate::patch::found_names;
use crate::resolve::{
    Failure, Resolution, collected, file_bytes, full_resolution, incremental_links, patch_object,
    program_symbols, resolution,
};
use crate::stub::{law_offsets_can_be_undone, offset_by};
use crate::symbols::{
    Link, Symbol, SymbolKind, defines, first_occurrences, lemma_first_occurrences, lemma_push_contains,
    not_defined, undefined_names, unresolved, wants,
};
use crate::target::Target;

verus! {

/// Whether one of the object files has this symbol, if they are taken in this order.
pub open spec fn some_file_has(
    files: Seq<Incremental>,
    order: Seq<usize>,
    symbol: Link,
) -> bool {
    exists|k: int|
        0 <= k < order.len() && (incremental_links(
            files[#[trigger] order[k] as int],
            order[k],
        )->Ok_0).contains(symbol)
}

/// The symbols of the object files are at hand exactly if each file can be used, and
/// then they are those of all the files.
pub proof fn law_collected_symbols(files: Seq<Incremental>, order: Seq<usize>)
    ensures
        collected(files, order) is Ok <==> forall|k: int|
            0 <= k < order.len() ==> incremental_links(
                files[#[trigger] order[k] as int],
                order[k],
            ) is Ok,
        collected(files, order) is Ok ==> forall|symbol: Link| #[trigger]
            (collected(files, order)->Ok_0).contains(symbol) <==> some_file_has(
                files,
                order,
                symbol,
            ),
    decreases order.len(),
{
    if order.len() > 0 {
        let rest = order.drop_last();
        law_collected_symbols(files, rest);
        assert(forall|k: int| 0 <= k < rest.len() ==> rest[k] == #[trigger] order[k]);
        assert(order[order.len() - 1] == order.last());
        if collected(files, rest) is Ok {
            assert forall|k: int| 0 <= k < rest.len() implies incremental_links(
                files[#[trigger] order[k] as int],
                order[k],
            ) is Ok by {
                assert(rest[k] == order[k]);
            }
        } else {
            let k = choose|k: int|
                0 <= k < rest.len() && incremental_links(
                    files[#[trigger] rest[k] as int],
                    rest[k],
                ) is Err;
            assert(order[k] == rest[k]);
        }
        if collected(files, order) is Ok {
            let table = collected(files, order)->Ok_0;
            let before = collected(files, rest)->Ok_0;
            let more = incremental_links(files[order.last() as int], order.last())->Ok_0;
            assert(table == before + more);
            assert forall|symbol: Link| #[trigger] table.contains(symbol) <==> some_file_has(
                files,
                order,
                symbol,
            ) by {
                assert(before.contains(symbol) <==> some_file_has(files, rest, symbol));
                if table.contains(symbol) {
                    let i = table.index_of(symbol);
                    if i < before.len() {
                        assert(before[i] == symbol);
                        let k = choose|k: int|
                            0 <= k < rest.len() && (incremental_links(
                                files[#[trigger] rest[k] as int],
                                rest[k],
                            )->Ok_0).contains(symbol);
                        assert(order[k] == rest[k]);
                    } else {
                        assert(more[i - before.len()] == symbol);
                    }
                }
                if some_file_has(files, order, symbol) {
                    let k = choose|k: int|
                        0 <= k < order.len() && (incremental_links(
                            files[#[trigger] order[k] as int],
                            order[k],
                        )->Ok_0).contains(symbol);
                    if k < rest.len() {
                        assert(rest[k] == order[k]);
                        assert(table[before.index_of(symbol)] == symbol);
                    } else {
                        assert(table[before.len() + more.index_of(symbol)] == symbol);
                    }
                }
            }
        }
    }
}

/// Whether one of the files holds the same as the given one, or cannot be read either.
pub open spec fn has_copy(files: Seq<Incremental>, file: Incremental) -> bool {
    exists|i: int|
        0 <= i < files.len() && file_bytes((#[trigger] files[i]).bytes) == file_bytes(file.bytes)
}

/// Whether two lists of files hold the same, however often and in whatever order.
pub open spec fn same_contents(files: Seq<Incremental>, others: Seq<Incremental>) -> bool {
    &&& forall|i: int| 0 <= i < files.len() ==> has_copy(others, #[trigger] files[i])
    &&& forall|i: int| 0 <= i < others.len() ==> has_copy(files, #[trigger] others[i])
}

proof fn lemma_copy(
    files: Seq<Incremental>,
    others: Seq<Incremental>,
    other: Seq<usize>,
    i: usize,
) -> (k: int)
    requires
        is_permutation(other, others.len()),
        others.len() <= usize::MAX,
        has_copy(others, files[i as int]),
    ensures
        0 <= k < other.len(),
        file_bytes(others[other[k] as int].bytes) == file_bytes(files[i as int].bytes),
{
    let j = choose|j: int|
        0 <= j < others.len() && file_bytes((#[trigger] others[j]).bytes) == file_bytes(
            files[i as int].bytes,
        );
    lemma_permutation_is_complete(other, others.len(), j as usize);
    other.index_of(j as usize)
}

proof fn lemma_links_of_copy(file: Incremental, i: usize, copy: Incremental, j: usize)
    requires
        file_bytes(file.bytes) == file_bytes(copy.bytes),
    ensures
        incremental_links(file, i) is Ok <==> incremental_links(copy, j) is Ok,
        incremental_links(file, i) is Ok ==> incremental_links(file, i)->Ok_0
            == incremental_links(copy, j)->Ok_0,
{
}

proof fn lemma_collected_copies(
    files: Seq<Incremental>,
    order: Seq<usize>,
    others: Seq<Incremental>,
    other: Seq<usize>,
)
    requires
        is_permutation(order, files.len()),
        is_permutation(other, others.len()),
        files.len() <= usize::MAX,
        others.len() <= usize::MAX,
        same_contents(files, others),
        collected(files, order) is Ok,
    ensures
        collected(others, other) is Ok,
        forall|name: Seq<char>| #[trigger]
            wants(collected(files, order)->Ok_0, name) ==> wants(
                collected(others, other)->Ok_0,
                name,
            ),
        forall|name: Seq<char>| #[trigger]
            defines(collected(files, order)->Ok_0, name) ==> defines(
                collected(others, other)->Ok_0,
                name,
            ),
{
    law_collected_symbols(files, order);
    law_collected_symbols(others, other);
    assert forall|k: int| 0 <= k < other.len() implies incremental_links(
        others[#[trigger] other[k] as int],
        other[k],
    ) is Ok by {
        let m = lemma_copy(others, files, order, other[k]);
        lemma_links_of_copy(
            files[order[m] as int],
            order[m],
            others[other[k] as int],
            other[k],
        );
    }
    let first = collected(files, order)->Ok_0;
    let second = collected(others, other)->Ok_0;
    assert forall|link: Link| first.contains(link) implies #[trigger] second.contains(link) by {
        let k = choose|k: int|
            0 <= k < order.len() && (incremental_links(
                files[#[trigger] order[k] as int],
                order[k],
            )->Ok_0).contains(link);
        let m = lemma_copy(files, others, other, order[k]);
        lemma_links_of_copy(
            files[order[k] as int],
            order[k],
            others[other[m] as int],
            other[m],
        );
        assert(some_file_has(others, other, link));
    }
    assert forall|name: Seq<char>| #[trigger] wants(first, name) implies wants(second, name) by {
        let i = choose|i: int| 0 <= i < first.len() && (#[trigger] first[i]).asks_for(name);
        assert(second.contains(first[i]));
        assert(second[second.index_of(first[i])].asks_for(name));
    }
    assert forall|name: Seq<char>| #[trigger] defines(first, name) implies defines(
        second,
        name,
    ) by {
        let i = choose|i: int| 0 <= i < first.len() && (#[trigger] first[i]).provides(name);
        assert(second.contains(first[i]));
        assert(second[second.index_of(first[i])].provides(name));
    }
}

/// Lists of files that hold the same, however often and in whatever order they are taken,
/// lead to a patch object under the same conditions. The objects have symbols of the same
/// names, kinds and bindings that lead to the same addresses, and the same names are
/// missing.
pub proof fn law_order_of_files_is_immaterial(
    source: Option<Seq<u8>>,
    files: Seq<Incremental>,
    order: Seq<usize>,
    others: Seq<Incremental>,
    other: Seq<usize>,
    target: Target,
    aslr_reference: u64,
)
    requires
        target.supported(),
        is_permutation(order, files.len()),
        is_permutation(other, others.len()),
        files.len() <= usize::MAX,
        others.len() <= usize::MAX,
        same_contents(files, others),
    ensures
        full_resolution(source, files, order, target, aslr_reference) is Ok <==> full_resolution(
            source,
            others,
            other,
            target,
            aslr_reference,
        ) is Ok,
        full_resolution(source, files, order, target, aslr_reference) is Ok ==> {
            let table = collected(files, order)->Ok_0;
            let again = collected(others, other)->Ok_0;
            let program = program_symbols(source)->Ok_0;
            &&& same_names(table, again)
            &&& forall|name: Seq<u8>, kind: SymbolKind, weak: bool, address: int| #[trigger]
                resolves(
                    patch_object(table, program, target, aslr_reference),
                    name,
                    kind,
                    weak,
                    address,
                ) <==> resolves(
                    patch_object(again, program, target, aslr_reference),
                    name,
                    kind,
                    weak,
                    address,
                )
            &&& forall|name: Seq<char>| #[trigger]
                (full_resolution(
                    source,
                    files,
                    order,
                    target,
                    aslr_reference,
                )->Ok_0).missing.contains(name) <==> (full_resolution(
                    source,
                    others,
                    other,
                    target,
                    aslr_reference,
                )->Ok_0).missing.contains(name)
        },
{
    if collected(files, order) is Ok {
        lemma_collected_copies(files, order, others, other);
    }
    if collected(others, other) is Ok {
        lemma_collected_copies(others, other, files, order);
        if program_symbols(source) is Ok {
            law_same_names_same_object(
                collected(files, order)->Ok_0,
                collected(others, other)->Ok_0,
                program_symbols(source)->Ok_0,
                target,
                aslr_reference,
            );
        }
    }
}

proof fn lemma_resolves_moved(
    table: Seq<Link>,
    source: Seq<Symbol>,
    target: Target,
    aslr_reference: u64,
    d: u64,
    name: Seq<u8>,
    kind: SymbolKind,
    weak: bool,
    address: u64,
)
    requires
        target.supported(),
        resolution(table, source, target, aslr_reference) is Ok,
    ensures
        resolves(
            patch_object(table, source, target, aslr_reference),
            name,
            kind,
            weak,
            address as int,
        ) <==> resolves(
            patch_object(table, source, target, offset_by(aslr_reference, d)),
            name,
            kind,
            weak,
            offset_by(address, d) as int,
        ),
{
    let here = patch_object(table, source, target, aslr_reference);
    let there = patch_object(table, source, target, offset_by(aslr_reference, d));
    law_moved_reference_moves_all(table, source, target, aslr_reference, d);
    law_symbols_of_an_object(table, source, target, aslr_reference);
    let found = found_names(unresolved(table), source);
    if resolves(here, name, kind, weak, address as int) {
        let i = choose|i: int|
            {
                &&& 0 <= i < here.symbols.len()
                &&& (#[trigger] here.symbols[i]).name == name
                &&& here.symbols[i].kind == kind
                &&& here.symbols[i].weak == weak
                &&& resolved_address(here, here.symbols[i]) == address
            };
        assert(is_moved(here, here.symbols[i], there, there.symbols[i], d));
        assert(there.symbols[i].name == name);
    }
    if resolves(there, name, kind, weak, offset_by(address, d) as int) {
        let i = choose|i: int|
            {
                &&& 0 <= i < there.symbols.len()
                &&& (#[trigger] there.symbols[i]).name == name
                &&& there.symbols[i].kind == kind
                &&& there.symbols[i].weak == weak
                &&& resolved_address(there, there.symbols[i]) == offset_by(address, d)
            };
        assert(is_moved(here, here.symbols[i], there, there.symbols[i], d));
        let before = address_in_process(source, target, aslr_reference, found[i]);
        assert(stands_for(here, here.symbols[i], found[i], source, before));
        law_offsets_can_be_undone(before, d);
        law_offsets_can_be_undone(address, d);
    }
}

/// If the reference symbol is `d` bytes further on in the process, the same files in whatever
/// order lead to a patch object with symbols of the same names, kinds and bindings, and each
/// leads `d` bytes further on.
pub proof fn law_moved_reference_for_files(
    source: Option<Seq<u8>>,
    files: Seq<Incremental>,
    order: Seq<usize>,
    other: Seq<usize>,
    target: Target,
    aslr_reference: u64,
    d: u64,
)
    requires
        target.supported(),
        is_permutation(order, files.len()),
        is_permutation(other, files.len()),
        files.len() <= usize::MAX,
        full_resolution(source, files, order, target, aslr_reference) is Ok,
    ensures
        full_resolution(source, files, other, target, offset_by(aslr_reference, d)) is Ok,
        forall|name: Seq<u8>, kind: SymbolKind, weak: bool, address: u64|
            #![trigger resolves(
                patch_object(
                    collected(files, order)->Ok_0,
                    program_symbols(source)->Ok_0,
                    target,
                    aslr_reference,
                ),
                name,
                kind,
                weak,
                address as int,
            )]
            resolves(
                patch_object(
                    collected(files, order)->Ok_0,
                    program_symbols(source)->Ok_0,
                    target,
                    aslr_reference,
                ),
                name,
                kind,
                weak,
                address as int,
            ) <==> resolves(
                patch_object(
                    collected(files, other)->Ok_0,
                    program_symbols(source)->Ok_0,
                    target,
                    offset_by(aslr_reference, d),
                ),
                name,
                kind,
                weak,
                offset_by(address, d) as int,
            ),
{
    assert forall|i: int| 0 <= i < files.len() implies has_copy(files, #[trigger] files[i]) by {
    }
    law_order_of_files_is_immaterial(source, files, order, files, other, target, aslr_reference);
    let table = collected(files, order)->Ok_0;
    let again = collected(files, other)->Ok_0;
    let program = program_symbols(source)->Ok_0;
    law_moved_reference_moves_all(again, program, target, aslr_reference, d);
    assert forall|name: Seq<u8>, kind: SymbolKind, weak: bool, address: u64|
        #![trigger resolves(
            patch_object(table, program, target, aslr_reference),
            name,
            kind,
            weak,
            address as int,
        )]
        resolves(
            patch_object(table, program, target, aslr_reference),
            name,
            kind,
            weak,
            address as int,
        ) <==> resolves(
            patch_object(again, program, target, offset_by(aslr_reference, d)),
            name,
            kind,
            weak,
            offset_by(address, d) as int,
        ) by {
        lemma_resolves_moved(
            again,
            program,
            target,
            aslr_reference,
            d,
            name,
            kind,
            weak,
            address,
        );
    }
}

/// Whether two tables leave the same names undefined, in the same order, and define the same
/// names.
spec fn same_unresolved(table: Seq<Link>, other: Seq<Link>) -> bool {
    &&& first_occurrences(undefined_names(table)) == first_occurrences(undefined_names(other))
    &&& forall|name: Seq<char>| #[trigger] defines(table, name) <==> defines(other, name)
}

proof fn lemma_undefined_concat(table: Seq<Link>, more: Seq<Link>)
    ensures
        undefined_names(table + more) == undefined_names(table) + undefined_names(more),
    decreases more.len(),
{
    if more.len() == 0 {
        assert(table + more == table);
        assert(undefined_names(table) + undefined_names(more) == undefined_names(table));
    } else {
        lemma_undefined_concat(table, more.drop_last());
        assert((table + more).drop_last() == table + more.drop_last());
        assert((table + more).last() == more.last());
        assert(undefined_names(table + more) =~= undefined_names(table) + undefined_names(more));
    }
}

proof fn lemma_defines_concat(table: Seq<Link>, more: Seq<Link>, name: Seq<char>)
    ensures
        defines(table + more, name) <==> defines(table, name) || defines(more, name),
{
    let all = table + more;
    if defines(all, name) {
        let i = choose|i: int| 0 <= i < all.len() && (#[trigger] all[i]).provides(name);
        if i < table.len() {
            assert(table[i].provides(name));
        } else {
            assert(more[i - table.len()].provides(name));
        }
    }
    if defines(table, name) {
        let i = choose|i: int| 0 <= i < table.len() && (#[trigger] table[i]).provides(name);
        assert(all[i].provides(name));
    }
    if defines(more, name) {
        let i = choose|i: int| 0 <= i < more.len() && (#[trigger] more[i]).provides(name);
        assert(all[i + table.len()].provides(name));
    }
}

proof fn lemma_first_concat(x: Seq<Seq<char>>, y: Seq<Seq<char>>, more: Seq<Seq<char>>)
    requires
        first_occurrences(x) == first_occurrences(y),
    ensures
        first_occurrences(x + more) == first_occurrences(y + more),
    decreases more.len(),
{
    if more.len() == 0 {
        assert(x + more == x);
        assert(y + more == y);
    } else {
        lemma_first_concat(x, y, more.drop_last());
        assert((x + more).drop_last() == x + more.drop_last());
        assert((y + more).drop_last() == y + more.drop_last());
        lemma_first_occurrences(x + more.drop_last());
        lemma_first_occurrences(y + more.drop_last());
        assert((x + more.drop_last()).contains(more.last()) == (y + more.drop_last()).contains(
            more.last(),
        ));
    }
}

proof fn lemma_first_repeat(x: Seq<Seq<char>>, more: Seq<Seq<char>>)
    requires
        forall|name: Seq<char>| #[trigger] more.contains(name) ==> x.contains(name),
    ensures
        first_occurrences(x + more) == first_occurrences(x),
    decreases more.len(),
{
    if more.len() == 0 {
        assert(x + more == x);
    } else {
        let rest = more.drop_last();
        assert(more == rest.push(more.last()));
        assert forall|name: Seq<char>| #[trigger] rest.contains(name) implies x.contains(name) by {
            lemma_push_contains(rest, more.last(), name);
            assert(more.contains(name));
        }
        lemma_first_repeat(x, rest);
        assert((x + more).drop_last() == x + rest);
        assert(more[more.len() - 1] == more.last());
        assert(more.contains(more.last()));
        assert((x + rest)[x.index_of(more.last())] == more.last());
    }
}

proof fn lemma_more_of_the_same(table: Seq<Link>, other: Seq<Link>, more: Seq<Link>)
    requires
        same_unresolved(table, other),
    ensures
        same_unresolved(table + more, other + more),
{
    lemma_undefined_concat(table, more);
    lemma_undefined_concat(other, more);
    lemma_first_concat(undefined_names(table), undefined_names(other), undefined_names(more));
    assert forall|name: Seq<char>| #[trigger]
        defines(table + more, name) <==> defines(other + more, name) by {
        lemma_defines_concat(table, more, name);
        lemma_defines_concat(other, more, name);
    }
}

proof fn lemma_the_same_again(table: Seq<Link>, more: Seq<Link>)
    ensures
        same_unresolved(table + more + more, table + more),
{
    let once = table + more;
    lemma_undefined_concat(table, more);
    lemma_undefined_concat(once, more);
    let names = undefined_names(once);
    assert forall|name: Seq<char>| #[trigger] undefined_names(more).contains(name) implies
        names.contains(name) by {
        let i = undefined_names(more).index_of(name);
        assert(names[undefined_names(table).len() + i] == name);
    }
    lemma_first_repeat(names, undefined_names(more));
    assert forall|name: Seq<char>| #[trigger]
        defines(once + more, name) <==> defines(once, name) by {
        lemma_defines_concat(table, more, name);
        lemma_defines_concat(once, more, name);
    }
}

proof fn lemma_same_not_defined(list: Seq<Seq<char>>, table: Seq<Link>, other: Seq<Link>)
    requires
        forall|name: Seq<char>| #[trigger] defines(table, name) <==> defines(other, name),
    ensures
        not_defined(list, table) == not_defined(list, other),
    decreases list.len(),
{
    if list.len() > 0 {
        lemma_same_not_defined(list.drop_last(), table, other);
        assert(defines(table, list.last()) <==> defines(other, list.last()));
    }
}

/// Whether two lists of files failed in the same way: for the same reason, and if it is one
/// of the files, for files of the same path.
pub open spec fn same_failure(
    files: Seq<Incremental>,
    failure: Failure,
    others: Seq<Incremental>,
    other: Failure,
) -> bool {
    match (failure, other) {
        (Failure::ReadIncremental(i), Failure::ReadIncremental(j)) => same_path(
            files[i as int].path,
            others[j as int].path,
        ),
        (Failure::ParseIncremental(i, x), Failure::ParseIncremental(j, y)) => x == y && same_path(
            files[i as int].path,
            others[j as int].path,
        ),
        (Failure::NameIncremental(i, x), Failure::NameIncremental(j, y)) => x == y && same_path(
            files[i as int].path,
            others[j as int].path,
        ),
        _ => failure == other,
    }
}

spec fn agree(
    files: Seq<Incremental>,
    result: Result<Seq<Link>, Failure>,
    others: Seq<Incremental>,
    other: Result<Seq<Link>, Failure>,
) -> bool {
    match (result, other) {
        (Ok(table), Ok(again)) => same_unresolved(table, again),
        (Err(failure), Err(again)) => same_failure(files, failure, others, again),
        _ => false,
    }
}

/// Whether one of the files, taken in this order, has the same path.
spec fn has_path(files: Seq<Incremental>, order: Seq<usize>, file: Incremental) -> bool {
    exists|k: int|
        0 <= k < order.len() && same_path(files[#[trigger] order[k] as int].path, file.path)
}

/// Whether each file of the one list that has the path of a file of the other holds the same
/// as that one, or cannot be read either.
pub open spec fn consistent(files: Seq<Incremental>, others: Seq<Incremental>) -> bool {
    forall|i: int, j: int|
        0 <= i < files.len() && 0 <= j < others.len() && #[trigger] same_path(
            files[i].path,
            others[j].path,
        ) ==> file_bytes(files[i].bytes) == file_bytes(others[j].bytes)
}

spec fn sorted(files: Seq<Incremental>, order: Seq<usize>) -> bool {
    &&& ascending(files, order)
    &&& forall|k: int| 0 <= k < order.len() ==> (#[trigger] order[k]) < files.len()
}

proof fn lemma_sorted_prefix(files: Seq<Incremental>, order: Seq<usize>)
    requires
        sorted(files, order),
        order.len() > 0,
    ensures
        sorted(files, order.drop_last()),
{
    let rest = order.drop_last();
    assert forall|j: int, k: int| 0 <= j < k < rest.len() implies #[trigger] not_behind(
        files[rest[j] as int].path,
        files[rest[k] as int].path,
    ) by {
        assert(not_behind(files[order[j] as int].path, files[order[k] as int].path));
    }
    assert forall|k: int| 0 <= k < rest.len() implies (#[trigger] rest[k]) < files.len() by {
        assert(order[k] < files.len());
    }
}

/// The last of the files in order does not come before any of them.
proof fn lemma_last_is_last(files: Seq<Incremental>, order: Seq<usize>, k: int)
    requires
        paths_ordered(),
        sorted(files, order),
        0 <= k < order.len(),
    ensures
        not_behind(files[order[k] as int].path, files[order.last() as int].path),
{
    if k == order.len() - 1 {
        let path = files[order[k] as int].path;
        lemma_paths(path, path, path);
    } else {
        assert(not_behind(
            files[order[k] as int].path,
            files[order[order.len() - 1] as int].path,
        ));
    }
}

/// A file that is taken twice in a row adds nothing the second time.
proof fn lemma_repeated_last(files: Seq<Incremental>, order: Seq<usize>)
    requires
        order.len() >= 2,
        file_bytes(files[order.last() as int].bytes) == file_bytes(
            files[order[order.len() - 2] as int].bytes,
        ),
    ensures
        match (collected(files, order), collected(files, order.drop_last())) {
            (Ok(table), Ok(before)) => same_unresolved(table, before),
            (Err(failure), Err(before)) => failure == before,
            _ => false,
        },
{
    let rest = order.drop_last();
    assert(rest.last() == order[order.len() - 2]);
    if collected(files, rest) is Ok {
        let first = collected(files, rest.drop_last())->Ok_0;
        let more = incremental_links(files[rest.last() as int], rest.last())->Ok_0;
        lemma_links_of_copy(
            files[rest.last() as int],
            rest.last(),
            files[order.last() as int],
            order.last(),
        );
        lemma_the_same_again(first, more);
    }
}

/// Whether the last two of the files in order have the same path.
spec fn ends_twice(files: Seq<Incremental>, order: Seq<usize>) -> bool {
    order.len() >= 2 && same_path(
        files[order[order.len() - 2] as int].path,
        files[order.last() as int].path,
    )
}

spec fn covers(
    files: Seq<Incremental>,
    order: Seq<usize>,
    others: Seq<Incremental>,
    other: Seq<usize>,
) -> bool {
    forall|k: int|
        0 <= k < order.len() ==> has_path(others, other, files[#[trigger] order[k] as int])
}

proof fn lemma_same_path_laws(a: Incremental, b: Incremental, c: Incremental)
    requires
        paths_ordered(),
    ensures
        same_path(a.path, b.path) ==> same_path(b.path, a.path),
        same_path(a.path, b.path) && same_path(b.path, c.path) ==> same_path(a.path, c.path),
{
    lemma_paths(a.path, b.path, c.path);
    lemma_paths(b.path, a.path, a.path);
    lemma_paths(b.path, c.path, c.path);
    lemma_paths(a.path, c.path, c.path);
    lemma_paths(c.path, b.path, a.path);
}

/// Without a repetition at the end, the rest has no file of the last one's path.
proof fn lemma_rest_lacks_last(files: Seq<Incremental>, order: Seq<usize>, k: int)
    requires
        paths_ordered(),
        sorted(files, order),
        !ends_twice(files, order),
        0 <= k < order.len() - 1,
    ensures
        !same_path(files[order[k] as int].path, files[order.last() as int].path),
{
    let n = order.len();
    let a = files[order[k] as int];
    let b = files[order[n - 2] as int];
    let c = files[order.last() as int];
    lemma_sorted_prefix(files, order);
    lemma_last_is_last(files, order.drop_last(), k);
    lemma_last_is_last(files, order, n - 2);
    assert(b == files[order.drop_last().last() as int]);
    if same_path(a.path, c.path) {
        lemma_paths(a.path, c.path, c.path);
        lemma_paths(c.path, a.path, b.path);
        lemma_paths(b.path, c.path, c.path);
    }
}

proof fn lemma_last_files_match(
    files: Seq<Incremental>,
    order: Seq<usize>,
    others: Seq<Incremental>,
    other: Seq<usize>,
)
    requires
        paths_ordered(),
        sorted(files, order),
        sorted(others, other),
        covers(files, order, others, other),
        covers(others, other, files, order),
        order.len() > 0,
        other.len() > 0,
    ensures
        same_path(files[order.last() as int].path, others[other.last() as int].path),
{
    let a = files[order.last() as int];
    let b = others[other.last() as int];
    assert(has_path(others, other, files[order[order.len() - 1] as int]));
    let m = choose|m: int|
        0 <= m < other.len() && same_path(others[#[trigger] other[m] as int].path, a.path);
    lemma_last_is_last(others, other, m);
    assert(has_path(files, order, others[other[other.len() - 1] as int]));
    let k = choose|k: int|
        0 <= k < order.len() && same_path(files[#[trigger] order[k] as int].path, b.path);
    lemma_last_is_last(files, order, k);
    let c = others[other[m] as int];
    let d = files[order[k] as int];
    lemma_paths(c.path, a.path, a.path);
    lemma_paths(d.path, b.path, b.path);
    lemma_paths(a.path, c.path, b.path);
    lemma_paths(b.path, d.path, a.path);
    lemma_paths(a.path, b.path, b.path);
}

proof fn lemma_rest_covers(
    files: Seq<Incremental>,
    order: Seq<usize>,
    others: Seq<Incremental>,
    other: Seq<usize>,
)
    requires
        paths_ordered(),
        sorted(files, order),
        covers(files, order, others, other),
        !ends_twice(files, order),
        order.len() > 0,
        other.len() > 0,
        same_path(files[order.last() as int].path, others[other.last() as int].path),
    ensures
        covers(files, order.drop_last(), others, other.drop_last()),
{
    let rest = order.drop_last();
    assert forall|k: int| 0 <= k < rest.len() implies has_path(
        others,
        other.drop_last(),
        files[#[trigger] rest[k] as int],
    ) by {
        let a = files[order[k] as int];
        assert(has_path(others, other, a));
        let m = choose|m: int|
            0 <= m < other.len() && same_path(others[#[trigger] other[m] as int].path, a.path);
        if m == other.len() - 1 {
            lemma_rest_lacks_last(files, order, k);
            let b = others[other.last() as int];
            let c = files[order.last() as int];
            lemma_same_path_laws(c, b, a);
            lemma_same_path_laws(c, a, c);
        } else {
            assert(same_path(others[other.drop_last()[m] as int].path, a.path));
        }
    }
}

/// Dropping a repetition at the end leaves every path.
proof fn lemma_repetition_covers(
    files: Seq<Incremental>,
    order: Seq<usize>,
    others: Seq<Incremental>,
    other: Seq<usize>,
)
    requires
        paths_ordered(),
        covers(files, order, others, other),
        covers(others, other, files, order),
        ends_twice(files, order),
    ensures
        covers(files, order.drop_last(), others, other),
        covers(others, other, files, order.drop_last()),
{
    let rest = order.drop_last();
    assert forall|k: int| 0 <= k < rest.len() implies has_path(
        others,
        other,
        files[#[trigger] rest[k] as int],
    ) by {
        assert(has_path(others, other, files[order[k] as int]));
    }
    assert forall|m: int| 0 <= m < other.len() implies has_path(
        files,
        rest,
        others[#[trigger] other[m] as int],
    ) by {
        let b = others[other[m] as int];
        assert(has_path(files, order, b));
        let k = choose|k: int|
            0 <= k < order.len() && same_path(files[#[trigger] order[k] as int].path, b.path);
        if k == order.len() - 1 {
            lemma_same_path_laws(
                files[order[order.len() - 2] as int],
                files[order.last() as int],
                b,
            );
            assert(same_path(files[rest[rest.len() - 1] as int].path, b.path));
        } else {
            assert(same_path(files[rest[k] as int].path, b.path));
        }
    }
}

/// Two files of the same path hold the same, if the other list has that path.
proof fn lemma_repetition_holds_the_same(
    files: Seq<Incremental>,
    order: Seq<usize>,
    others: Seq<Incremental>,
    other: Seq<usize>,
)
    requires
        paths_ordered(),
        sorted(files, order),
        sorted(others, other),
        covers(files, order, others, other),
        consistent(files, others),
        ends_twice(files, order),
    ensures
        file_bytes(files[order.last() as int].bytes) == file_bytes(
            files[order[order.len() - 2] as int].bytes,
        ),
{
    let n = order.len();
    let a = files[order[n - 2] as int];
    let b = files[order[n - 1] as int];
    assert(has_path(others, other, files[order[n - 1] as int]));
    let m = choose|m: int|
        0 <= m < other.len() && same_path(others[#[trigger] other[m] as int].path, b.path);
    let c = others[other[m] as int];
    lemma_same_path_laws(c, b, c);
    lemma_same_path_laws(a, b, c);
    assert(same_path(files[order[n - 1] as int].path, others[other[m] as int].path));
    assert(same_path(files[order[n - 2] as int].path, others[other[m] as int].path));
}

proof fn lemma_consistent_both_ways(files: Seq<Incremental>, others: Seq<Incremental>)
    requires
        paths_ordered(),
        consistent(files, others),
    ensures
        consistent(others, files),
{
    assert forall|i: int, j: int|
        0 <= i < others.len() && 0 <= j < files.len() && #[trigger] same_path(
            others[i].path,
            files[j].path,
        ) implies file_bytes(others[i].bytes) == file_bytes(files[j].bytes) by {
        lemma_same_path_laws(others[i], files[j], others[i]);
        assert(same_path(files[j].path, others[i].path));
    }
}

/// Two lists that agree without their last files, which are the same, agree with them.
proof fn lemma_agree_step(
    files: Seq<Incremental>,
    order: Seq<usize>,
    others: Seq<Incremental>,
    other: Seq<usize>,
)
    requires
        order.len() > 0,
        other.len() > 0,
        same_path(files[order.last() as int].path, others[other.last() as int].path),
        file_bytes(files[order.last() as int].bytes) == file_bytes(
            others[other.last() as int].bytes,
        ),
        agree(
            files,
            collected(files, order.drop_last()),
            others,
            collected(others, other.drop_last()),
        ),
    ensures
        agree(files, collected(files, order), others, collected(others, other)),
{
    let a = files[order.last() as int];
    let b = others[other.last() as int];
    lemma_links_of_copy(a, order.last(), b, other.last());
    let first = collected(files, order.drop_last());
    let second = collected(others, other.drop_last());
    if first is Ok && incremental_links(a, order.last()) is Ok {
        lemma_more_of_the_same(
            first->Ok_0,
            second->Ok_0,
            incremental_links(a, order.last())->Ok_0,
        );
    }
}

/// Whether two lists, each taken in the order of its paths, name the same files.
#[verifier::opaque]
spec fn matched(
    files: Seq<Incremental>,
    order: Seq<usize>,
    others: Seq<Incremental>,
    other: Seq<usize>,
) -> bool {
    &&& sorted(files, order)
    &&& sorted(others, other)
    &&& covers(files, order, others, other)
    &&& covers(others, other, files, order)
    &&& consistent(files, others)
}

proof fn lemma_swapped(
    files: Seq<Incremental>,
    order: Seq<usize>,
    others: Seq<Incremental>,
    other: Seq<usize>,
)
    requires
        paths_ordered(),
        matched(files, order, others, other),
    ensures
        matched(others, other, files, order),
{
    reveal(matched);
    lemma_consistent_both_ways(files, others);
}

proof fn lemma_both_empty(
    files: Seq<Incremental>,
    order: Seq<usize>,
    others: Seq<Incremental>,
    other: Seq<usize>,
)
    requires
        matched(files, order, others, other),
        order.len() == 0,
    ensures
        other.len() == 0,
{
    reveal(matched);
    if other.len() > 0 {
        assert(has_path(files, order, others[other[0] as int]));
    }
}

proof fn lemma_without_repetition(
    files: Seq<Incremental>,
    order: Seq<usize>,
    others: Seq<Incremental>,
    other: Seq<usize>,
)
    requires
        paths_ordered(),
        matched(files, order, others, other),
        ends_twice(files, order),
    ensures
        matched(files, order.drop_last(), others, other),
        file_bytes(files[order.last() as int].bytes) == file_bytes(
            files[order[order.len() - 2] as int].bytes,
        ),
{
    reveal(matched);
    lemma_sorted_prefix(files, order);
    lemma_repetition_covers(files, order, others, other);
    lemma_repetition_holds_the_same(files, order, others, other);
}

proof fn lemma_without_last(
    files: Seq<Incremental>,
    order: Seq<usize>,
    others: Seq<Incremental>,
    other: Seq<usize>,
)
    requires
        paths_ordered(),
        matched(files, order, others, other),
        order.len() > 0,
        other.len() > 0,
        !ends_twice(files, order),
        !ends_twice(others, other),
    ensures
        matched(files, order.drop_last(), others, other.drop_last()),
        same_path(files[order.last() as int].path, others[other.last() as int].path),
        file_bytes(files[order.last() as int].bytes) == file_bytes(
            others[other.last() as int].bytes,
        ),
{
    reveal(matched);
    lemma_last_files_match(files, order, others, other);
    lemma_same_path_laws(
        files[order.last() as int],
        others[other.last() as int],
        files[order.last() as int],
    );
    lemma_rest_covers(files, order, others, other);
    lemma_rest_covers(others, other, files, order);
    lemma_sorted_prefix(files, order);
    lemma_sorted_prefix(others, other);
    assert(order[order.len() - 1] < files.len());
    assert(other[other.len() - 1] < others.len());
}

proof fn lemma_sorted_files_agree(
    files: Seq<Incremental>,
    order: Seq<usize>,
    others: Seq<Incremental>,
    other: Seq<usize>,
)
    requires
        paths_ordered(),
        matched(files, order, others, other),
    ensures
        agree(files, collected(files, order), others, collected(others, other)),
    decreases order.len() + other.len(),
{
    lemma_swapped(files, order, others, other);
    if order.len() == 0 {
        lemma_both_empty(files, order, others, other);
    } else if other.len() == 0 {
        lemma_both_empty(others, other, files, order);
    } else if ends_twice(files, order) {
        lemma_without_repetition(files, order, others, other);
        lemma_repeated_last(files, order);
        lemma_sorted_files_agree(files, order.drop_last(), others, other);
    } else if ends_twice(others, other) {
        lemma_without_repetition(others, other, files, order);
        lemma_repeated_last(others, other);
        lemma_swapped(others, other.drop_last(), files, order);
        lemma_sorted_files_agree(files, order, others, other.drop_last());
    } else {
        lemma_without_last(files, order, others, other);
        lemma_sorted_files_agree(files, order.drop_last(), others, other.drop_last());
        lemma_agree_step(files, order, others, other);
    }
}

/// Whether two outcomes are the same: the same object with the same names missing, or a
/// failure of the same reason, and if it is one of the files, for files of the same path.
pub open spec fn same_outcome(
    files: Seq<Incremental>,
    result: Result<Resolution, Failure>,
    others: Seq<Incremental>,
    other: Result<Resolution, Failure>,
) -> bool {
    match (result, other) {
        (Ok(resolution), Ok(again)) => resolution == again,
        (Err(failure), Err(again)) => same_failure(files, failure, others, again),
        _ => false,
    }
}

/// Whether one of the files has the same path.
pub open spec fn has_file(files: Seq<Incremental>, file: Incremental) -> bool {
    exists|i: int| 0 <= i < files.len() && same_path((#[trigger] files[i]).path, file.path)
}

proof fn lemma_list_covers(
    files: Seq<Incremental>,
    order: Seq<usize>,
    others: Seq<Incremental>,
    other: Seq<usize>,
)
    requires
        is_permutation(order, files.len()),
        is_permutation(other, others.len()),
        others.len() <= usize::MAX,
        forall|i: int| 0 <= i < files.len() ==> has_file(others, #[trigger] files[i]),
    ensures
        covers(files, order, others, other),
{
    assert forall|k: int| 0 <= k < order.len() implies has_path(
        others,
        other,
        files[#[trigger] order[k] as int],
    ) by {
        let a = files[order[k] as int];
        assert(has_file(others, a));
        let j = choose|j: int|
            0 <= j < others.len() && same_path((#[trigger] others[j]).path, a.path);
        lemma_permutation_is_complete(other, others.len(), j as usize);
        assert(same_path(others[other[other.index_of(j as usize)] as int].path, a.path));
    }
}

/// Lists that name the same files, however often and in whatever order, lead to the same
/// outcome if each is taken in the order of its paths: the same object byte by byte, or the
/// same failure.
pub proof fn law_permuted_files_give_the_same_outcome(
    source: Option<Seq<u8>>,
    files: Seq<Incremental>,
    order: Seq<usize>,
    others: Seq<Incremental>,
    other: Seq<usize>,
    target: Target,
    aslr_reference: u64,
)
    requires
        is_permutation(order, files.len()),
        is_permutation(other, others.len()),
        files.len() <= usize::MAX,
        others.len() <= usize::MAX,
        ascending(files, order),
        ascending(others, other),
        forall|i: int| 0 <= i < files.len() ==> has_file(others, #[trigger] files[i]),
        forall|i: int| 0 <= i < others.len() ==> has_file(files, #[trigger] others[i]),
        consistent(files, others),
    ensures
        same_outcome(
            files,
            full_resolution(source, files, order, target, aslr_reference),
            others,
            full_resolution(source, others, other, target, aslr_reference),
        ),
{
    lemma_list_covers(files, order, others, other);
    lemma_list_covers(others, other, files, order);
    assert(matched(files, order, others, other)) by {
        reveal(matched);
    }
    lemma_sorted_files_agree(files, order, others, other);
    if collected(files, order) is Ok {
        let table = collected(files, order)->Ok_0;
        let again = collected(others, other)->Ok_0;
        lemma_same_not_defined(first_occurrences(undefined_names(table)), table, again);
        assert(unresolved(table) == unresolved(again));
        if program_symbols(source) is Ok {
            let program = program_symbols(source)->Ok_0;
            assert(patch_object(table, program, target, aslr_reference) == patch_object(
                again,
                program,
                target,
                aslr_reference,
            ));
            assert(resolution(table, program, target, aslr_reference) == resolution(
                again,
                program,
                target,
                aslr_reference,
            ));
        }
    }
}

} // verus!
