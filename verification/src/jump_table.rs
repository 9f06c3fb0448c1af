//! Jump tables: where the functions of a program are found after a patch.

use std::collections::HashMap;
use std::path::PathBuf;
use vstd::prelude::*;
use vstd::std_specs::iter::IteratorSpec;
use crate::stub::{
    distance, law_address_in_process, law_offsets_add_up, law_offsets_can_be_undone, offset_by,
};

verus! {

/// The functions that a patch replaces.
#[derive(Debug)]
pub struct JumpTable {
    /// The library that holds the patch.
    pub lib: PathBuf,
    /// The address of each replaced function, and that of its replacement.
    pub map: HashMap<u64, u64>,
    /// The address that the file of the program gives for the known symbol.
    pub old_base_address: u64,
    /// The address that the file of the patch gives for the known symbol.
    pub new_base_address: u64,
}

/// The offset of a loaded file against the file on disk, modulo the size of the address
/// space, from the address of a symbol in memory and in the file.
pub open spec fn slide(base_address: usize, symbol: usize) -> usize {
    if base_address <= symbol {
        (symbol - base_address) as usize
    } else {
        (symbol - base_address + usize::MAX + 1) as usize
    }
}

/// A table of addresses with `old` added to each replaced function and `new` to each
/// replacement.
pub open spec fn relocated(map: Map<u64, u64>, old: u64, new: u64) -> Map<u64, u64> {
    Map::new(
        |address: u64| map.contains_key(distance(old, address)),
        |address: u64| offset_by(map[distance(old, address)], new),
    )
}

/// The offset of a loaded file in the address space of the current process, from the
/// address at which a symbol was found there and the one that the file gives for it.
/// There is none where the symbol was not found.
pub fn alsr_offset(base_address: usize, symbol: Option<usize>) -> (r: Option<usize>)
    ensures
        r == (match symbol {
            Some(address) => Some(slide(base_address, address)),
            None => None,
        }),
{
    match symbol {
        Some(address) => Some(address.wrapping_sub(base_address)),
        None => None,
    }
}

proof fn lemma_distances_add_up(address: u64, x: u64, y: u64)
    ensures
        distance(x, distance(y, address)) == distance(offset_by(x, y), address),
{
}

/// Adds `old` to the address of each replaced function and `new` to that of each
/// replacement.
fn relocate_map(map: &HashMap<u64, u64>, old: u64, new: u64) -> (r: HashMap<u64, u64>)
    ensures
        r@ == relocated(map@, old, new),
{
    broadcast use vstd::std_specs::hash::group_hash_axioms;

    let mut r: HashMap<u64, u64> = HashMap::new();
    for entry in entries: map.iter()
        invariant
            entries.seq() == map.iter().remaining(),
            forall|j: int|
                0 <= j < entries.index() ==> r@.contains_key(
                    offset_by(*(#[trigger] entries.seq()[j]).0, old),
                ),
            forall|address: u64| #[trigger]
                r@.contains_key(address) ==> map@.contains_key(distance(old, address))
                    && r@[address] == offset_by(map@[distance(old, address)], new),
    {
        proof {
            law_offsets_can_be_undone(*entry.0, old);
            assert(map@.contains_key(*map.iter().remaining()[entries.index()].0));
        }
        r.insert(entry.0.wrapping_add(old), entry.1.wrapping_add(new));
    }
    proof {
        assert forall|address: u64| map@.contains_key(distance(old, address)) implies #[trigger]
            r@.contains_key(address) by {
            let k = distance(old, address);
            law_offsets_can_be_undone(address, old);
            assert(map.iter().remaining().contains((&k, &map@[k])));
        }
        assert(r@ =~= relocated(map@, old, new));
    }
    r
}

/// Whether a jump table is another one with its addresses moved to where the program and
/// the patch were loaded, which is known from the addresses of the known symbol in both.
pub open spec fn is_relocated(
    table: JumpTable,
    original: JumpTable,
    old_symbol: usize,
    new_symbol: usize,
) -> bool {
    &&& table.map@ == relocated(
        original.map@,
        slide(original.old_base_address as usize, old_symbol) as u64,
        slide(original.new_base_address as usize, new_symbol) as u64,
    )
    &&& table.lib == original.lib
    &&& table.old_base_address == original.old_base_address
    &&& table.new_base_address == original.new_base_address
}

/// Makes a jump table relative to where the program and the patch were loaded.
/// `old_symbol` and `new_symbol` are the addresses at which the known symbol was found
/// in the program and in the patch.
pub fn relocate_native_jump_table(
    jump_table: JumpTable,
    old_symbol: Option<usize>,
    new_symbol: Option<usize>,
) -> (r: JumpTable)
    requires
        old_symbol is Some,
        new_symbol is Some,
    ensures
        is_relocated(r, jump_table, old_symbol->0, new_symbol->0),
{
    let old_offset = alsr_offset(jump_table.old_base_address as usize, old_symbol).unwrap();
    let new_offset = alsr_offset(jump_table.new_base_address as usize, new_symbol).unwrap();
    let map = relocate_map(&jump_table.map, old_offset as u64, new_offset as u64);
    JumpTable {
        lib: jump_table.lib,
        map,
        old_base_address: jump_table.old_base_address,
        new_base_address: jump_table.new_base_address,
    }
}

/// A relocated table says of a moved function what the table said of the function, moved.
pub proof fn law_relocated_lookup(map: Map<u64, u64>, old: u64, new: u64, function: u64)
    ensures
        relocated(map, old, new).contains_key(offset_by(function, old)) <==> map.contains_key(
            function,
        ),
        map.contains_key(function) ==> relocated(map, old, new)[offset_by(function, old)]
            == offset_by(map[function], new),
{
    law_offsets_can_be_undone(function, old);
}

/// Relocation by nothing changes nothing.
pub proof fn law_relocation_by_nothing(map: Map<u64, u64>)
    ensures
        relocated(map, 0, 0) == map,
{
    assert(relocated(map, 0, 0) =~= map);
}

/// Two relocations do what one by both offsets does.
pub proof fn law_relocations_add_up(
    map: Map<u64, u64>,
    old1: u64,
    new1: u64,
    old2: u64,
    new2: u64,
)
    ensures
        relocated(relocated(map, old1, new1), old2, new2) == relocated(
            map,
            offset_by(old1, old2),
            offset_by(new1, new2),
        ),
{
    let twice = relocated(relocated(map, old1, new1), old2, new2);
    let once = relocated(map, offset_by(old1, old2), offset_by(new1, new2));
    assert forall|address: u64| #[trigger]
        twice.contains_key(address) == once.contains_key(address) && (once.contains_key(address)
            ==> twice[address] == once[address]) by {
        law_offsets_add_up(map[distance(offset_by(old1, old2), address)], new1, new2);
        lemma_distances_add_up(address, old1, old2);
    }
    assert(twice =~= once);
}

/// A relocated table has as many functions as the table it was made from.
pub proof fn law_relocation_keeps_size(map: Map<u64, u64>, old: u64, new: u64)
    requires
        map.dom().finite(),
    ensures
        relocated(map, old, new).dom().finite(),
        relocated(map, old, new).len() == map.len(),
    decreases map.len(),
{
    if map.len() == 0 {
        assert(map =~= Map::empty());
        assert(relocated(map, old, new) =~= Map::empty());
    } else {
        let k = map.dom().choose();
        assert(map.dom().contains(k));
        let rest = map.remove(k);
        law_relocation_keeps_size(rest, old, new);
        assert(relocated(map, old, new) =~= relocated(rest, old, new).insert(
            offset_by(k, old),
            offset_by(map[k], new),
        )) by {
            law_offsets_can_be_undone(k, old);
            assert forall|address: u64| #[trigger] distance(old, address) == k implies address
                == offset_by(k, old) by {
                law_offsets_can_be_undone(address, old);
            }
        }
        assert(!relocated(rest, old, new).contains_key(offset_by(k, old))) by {
            law_offsets_can_be_undone(k, old);
        }
    }
}

/// The address that a file gives for the known symbol is moved to where the symbol was
/// found: always where addresses have the width of `u64`, and otherwise where the file
/// was loaded no lower than it says.
pub proof fn law_known_symbol_lands_on_itself(base_address: u64, symbol: usize)
    requires
        usize::MAX == u64::MAX || base_address <= symbol,
    ensures
        offset_by(base_address, slide(base_address as usize, symbol) as u64) == symbol,
{
    assert(base_address as usize == base_address);
}

/// The offset of a loaded file is where a symbol was found less what the file gives for it,
/// and the size of the address space more where the symbol was found lower.
pub proof fn law_slide_is_a_difference(base_address: usize, symbol: usize)
    ensures
        base_address <= symbol ==> slide(base_address, symbol) == symbol - base_address,
        symbol < base_address ==> slide(base_address, symbol) + base_address == symbol
            + usize::MAX + 1,
{
}

/// A relocated jump table has the functions of the original, each moved by the offset of the
/// program, with its replacement moved by the offset of the patch, and no others. The library
/// and the addresses that the files give for the known symbol stay.
pub proof fn law_relocated_table(
    table: JumpTable,
    original: JumpTable,
    old_symbol: usize,
    new_symbol: usize,
    function: u64,
    moved: u64,
)
    requires
        is_relocated(table, original, old_symbol, new_symbol),
        usize::MAX == u64::MAX,
        (moved - (function + old_symbol - original.old_base_address)) % 0x1_0000_0000_0000_0000
            == 0,
    ensures
        table.map@.contains_key(moved) <==> original.map@.contains_key(function),
        original.map@.contains_key(function) ==> (table.map@[moved] - (original.map@[function]
            + new_symbol - original.new_base_address)) % 0x1_0000_0000_0000_0000 == 0,
        table.lib == original.lib,
        table.old_base_address == original.old_base_address,
        table.new_base_address == original.new_base_address,
{
    let old = slide(original.old_base_address as usize, old_symbol) as u64;
    let new = slide(original.new_base_address as usize, new_symbol) as u64;
    assert(original.old_base_address as usize == original.old_base_address);
    assert(original.new_base_address as usize == original.new_base_address);
    assert(old == distance(original.old_base_address, old_symbol as u64));
    assert(new == distance(original.new_base_address, new_symbol as u64));
    law_address_in_process(function, original.old_base_address, old_symbol as u64);
    assert(moved == offset_by(function, old));
    law_relocated_lookup(original.map@, old, new, function);
    law_address_in_process(
        original.map@[function],
        original.new_base_address,
        new_symbol as u64,
    );
}

} // verus!
