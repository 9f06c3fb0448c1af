//! Addresses in a running process, and the code that jumps to them.

use vstd::prelude::*;
use crate::target::Architecture;

verus! {

/// Addition of addresses, modulo the size of the address space.
pub open spec fn offset_by(address: u64, offset: u64) -> u64 {
    ((address + offset) % 0x1_0000_0000_0000_0000) as u64
}

/// The offset that takes one address to another, modulo the size of the address space.
pub open spec fn distance(from: u64, to: u64) -> u64 {
    ((to - from) % 0x1_0000_0000_0000_0000) as u64
}

/// The eight bytes of a number, the lowest first.
pub open spec fn le_bytes(x: u64) -> Seq<u8> {
    seq![
        (x % 0x100) as u8,
        (x / 0x100 % 0x100) as u8,
        (x / 0x1_0000 % 0x100) as u8,
        (x / 0x100_0000 % 0x100) as u8,
        (x / 0x1_0000_0000 % 0x100) as u8,
        (x / 0x100_0000_0000 % 0x100) as u8,
        (x / 0x1_0000_0000_0000 % 0x100) as u8,
        (x / 0x100_0000_0000_0000 % 0x100) as u8,
    ]
}

/// The number that eight bytes stand for, the lowest first.
pub open spec fn le_value(bytes: Seq<u8>) -> int {
    bytes[0] + bytes[1] * 0x100 + bytes[2] * 0x1_0000 + bytes[3] * 0x100_0000 + bytes[4]
        * 0x1_0000_0000 + bytes[5] * 0x100_0000_0000 + bytes[6] * 0x1_0000_0000_0000 + bytes[7]
        * 0x100_0000_0000_0000
}

/// The instructions of a stub. They load the eight bytes right behind them and jump
/// there: `jmp [rip+0]` on x86-64; `ldr x16, #8` and `br x16` on AArch64.
pub open spec fn jump_instructions(architecture: Architecture) -> Seq<u8> {
    match architecture {
        Architecture::X86_64 => seq![0xFFu8, 0x25, 0x00, 0x00, 0x00, 0x00],
        Architecture::Aarch64 => seq![0x50u8, 0x00, 0x00, 0x58, 0x00, 0x02, 0x1F, 0xD6],
    }
}

/// The code of a stub that jumps to an address.
pub open spec fn stub(architecture: Architecture, address: u64) -> Seq<u8> {
    jump_instructions(architecture) + le_bytes(address)
}

/// The address that a stub jumps to.
pub open spec fn stub_target(architecture: Architecture, code: Seq<u8>) -> int {
    le_value(code.skip(jump_instructions(architecture).len() as int))
}

/// The offset of a running process against its file on disk, from the address that a
/// symbol has in the process and the one that the file gives for it.
pub fn aslr_offset(aslr_reference: u64, file_address: u64) -> (r: u64)
    ensures
        r == distance(file_address, aslr_reference),
{
    aslr_reference.wrapping_sub(file_address)
}

/// The address in the running process of what is at `file_address` in the file.
pub fn process_address(file_address: u64, aslr_offset: u64) -> (r: u64)
    ensures
        r == offset_by(file_address, aslr_offset),
{
    file_address.wrapping_add(aslr_offset)
}

/// An address without the tag that some systems keep in its highest byte.
pub open spec fn without_tag(address: u64) -> u64 {
    address % 0x100_0000_0000_0000
}

/// Takes the tag off an address: the highest byte, in which some systems keep one.
pub fn untagged(address: u64) -> (r: u64)
    ensures
        r == without_tag(address),
{
    assert(address & 0x00FF_FFFF_FFFF_FFFF == address % 0x100_0000_0000_0000) by (bit_vector);
    address & 0x00FF_FFFF_FFFF_FFFF
}

/// Takes the tag off the offset of one particular process. It carries none.
pub fn fix_endian() -> (r: u64)
    ensures
        r == 0x71_9C54_6000,
{
    untagged(0x71_9C54_6000)
}

fn push_le_bytes(code: &mut Vec<u8>, x: u64)
    ensures
        final(code)@ == old(code)@ + le_bytes(x),
{
    code.push((x % 0x100) as u8);
    code.push((x / 0x100 % 0x100) as u8);
    code.push((x / 0x1_0000 % 0x100) as u8);
    code.push((x / 0x100_0000 % 0x100) as u8);
    code.push((x / 0x1_0000_0000 % 0x100) as u8);
    code.push((x / 0x100_0000_0000 % 0x100) as u8);
    code.push((x / 0x1_0000_0000_0000 % 0x100) as u8);
    code.push((x / 0x100_0000_0000_0000 % 0x100) as u8);
}

/// The code of a stub that jumps to an address.
pub fn jump_code(architecture: Architecture, address: u64) -> (r: Vec<u8>)
    ensures
        r@ == stub(architecture, address),
{
    let mut code: Vec<u8> = match architecture {
        Architecture::X86_64 => vec![0xFFu8, 0x25, 0x00, 0x00, 0x00, 0x00],
        Architecture::Aarch64 => vec![0x50u8, 0x00, 0x00, 0x58, 0x00, 0x02, 0x1F, 0xD6],
    };
    assert(code@ == jump_instructions(architecture));
    push_le_bytes(&mut code, address);
    code
}

/// A stub jumps to the address that it was made for.
pub proof fn law_stub_jumps_to_its_address(architecture: Architecture, address: u64)
    ensures
        stub_target(architecture, stub(architecture, address)) == address,
        stub(architecture, address).len() == jump_instructions(architecture).len() + 8,
{
    let code = stub(architecture, address);
    assert(code.skip(jump_instructions(architecture).len() as int) == le_bytes(address));
    lemma_le_value(address);
}

proof fn lemma_le_value(x: u64)
    ensures
        le_value(le_bytes(x)) == x,
{
    assert(x == x % 0x100 + (x / 0x100 % 0x100) * 0x100 + (x / 0x1_0000 % 0x100) * 0x1_0000 + (x
        / 0x100_0000 % 0x100) * 0x100_0000 + (x / 0x1_0000_0000 % 0x100) * 0x1_0000_0000 + (x
        / 0x100_0000_0000 % 0x100) * 0x100_0000_0000 + (x / 0x1_0000_0000_0000 % 0x100)
        * 0x1_0000_0000_0000 + (x / 0x100_0000_0000_0000 % 0x100) * 0x100_0000_0000_0000)
        by (bit_vector);
}

/// Taking the tag off an address again changes nothing.
pub proof fn law_untagged_addresses_stay(address: u64)
    ensures
        without_tag(without_tag(address)) == without_tag(address),
{
}

proof fn lemma_offset_by(address: u64, offset: u64)
    ensures
        offset_by(address, offset) == if address + offset <= u64::MAX {
            address + offset
        } else {
            address + offset - u64::MAX - 1
        },
{
}

proof fn lemma_distance(from: u64, to: u64)
    ensures
        distance(from, to) == if from <= to {
            to - from
        } else {
            to - from + u64::MAX + 1
        },
{
}

/// The reference symbol itself ends up at the address it was seen at in the process.
pub proof fn law_reference_lands_on_itself(file_address: u64, aslr_reference: u64)
    ensures
        offset_by(file_address, distance(file_address, aslr_reference)) == aslr_reference,
{
    lemma_distance(file_address, aslr_reference);
    lemma_offset_by(file_address, distance(file_address, aslr_reference));
}

/// Adding two offsets is adding their sum.
pub proof fn law_offsets_add_up(address: u64, x: u64, y: u64)
    ensures
        offset_by(offset_by(address, x), y) == offset_by(address, offset_by(x, y)),
{
    lemma_offset_by(address, x);
    lemma_offset_by(x, y);
    lemma_offset_by(offset_by(address, x), y);
    lemma_offset_by(address, offset_by(x, y));
}

/// Adding an offset is undone by taking the distance to it.
pub proof fn law_offsets_can_be_undone(address: u64, offset: u64)
    ensures
        distance(offset, offset_by(address, offset)) == address,
        offset_by(distance(offset, address), offset) == address,
{
    lemma_offset_by(address, offset);
    lemma_distance(offset, offset_by(address, offset));
    lemma_distance(offset, address);
    lemma_offset_by(distance(offset, address), offset);
}

/// Moving the end of a distance lengthens it.
pub proof fn law_moved_end(from: u64, to: u64, offset: u64)
    ensures
        distance(from, offset_by(to, offset)) == offset_by(distance(from, to), offset),
{
    lemma_distance(from, to);
    lemma_offset_by(to, offset);
    lemma_distance(from, offset_by(to, offset));
    lemma_offset_by(distance(from, to), offset);
}

/// Two addresses of the file are as far apart in the process as they are in the file.
pub proof fn law_distances_are_kept(a: u64, b: u64, aslr_offset: u64)
    ensures
        distance(offset_by(a, aslr_offset), offset_by(b, aslr_offset)) == distance(a, b),
{
    lemma_offset_by(a, aslr_offset);
    lemma_offset_by(b, aslr_offset);
    lemma_distance(a, b);
    lemma_distance(offset_by(a, aslr_offset), offset_by(b, aslr_offset));
}

/// The number that eight bytes of a code stand for, the lowest first, from the given place
/// on.
pub open spec fn number_at(code: Seq<u8>, at: int) -> int {
    code[at] + 0x100 * code[at + 1] + 0x1_0000 * code[at + 2] + 0x100_0000 * code[at + 3]
        + 0x1_0000_0000 * code[at + 4] + 0x100_0000_0000 * code[at + 5] + 0x1_0000_0000_0000
        * code[at + 6] + 0x100_0000_0000_0000 * code[at + 7]
}

/// The bytes of a number, the lowest first, add up to it.
pub proof fn law_bytes_of_a_number(x: u64)
    ensures
        le_bytes(x).len() == 8,
        number_at(le_bytes(x), 0) == x,
{
    lemma_le_value(x);
}

/// A stub on AArch64 has sixteen bytes. Whatever its address, the first four load the eight
/// bytes at the stub's end into `x16`, the next four branch to `x16`, and the last eight are
/// the address.
pub proof fn law_aarch64_stub(address: u64)
    ensures
        stub(Architecture::Aarch64, address).len() == 16,
        stub(Architecture::Aarch64, address)[0] == 0x50,
        stub(Architecture::Aarch64, address)[1] == 0x00,
        stub(Architecture::Aarch64, address)[2] == 0x00,
        stub(Architecture::Aarch64, address)[3] == 0x58,
        stub(Architecture::Aarch64, address)[4] == 0x00,
        stub(Architecture::Aarch64, address)[5] == 0x02,
        stub(Architecture::Aarch64, address)[6] == 0x1F,
        stub(Architecture::Aarch64, address)[7] == 0xD6,
        number_at(stub(Architecture::Aarch64, address), 8) == address,
{
    let code = stub(Architecture::Aarch64, address);
    law_bytes_of_a_number(address);
    assert(code.subrange(8, 16) =~= le_bytes(address));
    assert(forall|k: int| 0 <= k < 8 ==> #[trigger] le_bytes(address)[k] == code[8 + k]);
}

/// A stub on x86-64 has fourteen bytes. Whatever its address, the first six jump to what the
/// eight bytes behind them say, and those are the address.
pub proof fn law_x86_64_stub(address: u64)
    ensures
        stub(Architecture::X86_64, address).len() == 14,
        stub(Architecture::X86_64, address)[0] == 0xFF,
        stub(Architecture::X86_64, address)[1] == 0x25,
        stub(Architecture::X86_64, address)[2] == 0x00,
        stub(Architecture::X86_64, address)[3] == 0x00,
        stub(Architecture::X86_64, address)[4] == 0x00,
        stub(Architecture::X86_64, address)[5] == 0x00,
        number_at(stub(Architecture::X86_64, address), 6) == address,
{
    let code = stub(Architecture::X86_64, address);
    law_bytes_of_a_number(address);
    assert(code.subrange(6, 14) =~= le_bytes(address));
    assert(forall|k: int| 0 <= k < 8 ==> #[trigger] le_bytes(address)[k] == code[6 + k]);
}

/// Stubs for two addresses are the same but for their last eight bytes.
pub proof fn law_stubs_differ_in_their_address(architecture: Architecture, x: u64, y: u64)
    ensures
        stub(architecture, x).len() == stub(architecture, y).len(),
        forall|k: int|
            0 <= k < stub(architecture, x).len() - 8 ==> stub(architecture, x)[k] == stub(
                architecture,
                y,
            )[k],
        x != y ==> stub(architecture, x) != stub(architecture, y),
{
    law_stub_jumps_to_its_address(architecture, x);
    law_stub_jumps_to_its_address(architecture, y);
}

/// Adding an offset to an address gives their sum, up to a multiple of the size of the
/// address space: the sum itself where it fits.
pub proof fn law_offset_is_added(address: u64, offset: u64)
    ensures
        (offset_by(address, offset) - address - offset) % 0x1_0000_0000_0000_0000 == 0,
        address + offset < 0x1_0000_0000_0000_0000 ==> offset_by(address, offset) == address
            + offset,
{
    lemma_offset_by(address, offset);
}

/// The distance between two addresses is their difference, up to a multiple of the size of
/// the address space: the difference itself where the second is the higher one.
pub proof fn law_distance_is_a_difference(from: u64, to: u64)
    ensures
        (distance(from, to) + from - to) % 0x1_0000_0000_0000_0000 == 0,
        from <= to ==> distance(from, to) == to - from,
{
    lemma_distance(from, to);
}

/// What is at `file_address` in the file is in the process as far from the reference symbol
/// as it is in the file, up to a multiple of the size of the address space.
pub proof fn law_address_in_process(file_address: u64, reference: u64, aslr_reference: u64)
    ensures
        (offset_by(file_address, distance(reference, aslr_reference)) - (file_address
            + aslr_reference - reference)) % 0x1_0000_0000_0000_0000 == 0,
        reference <= aslr_reference && file_address + aslr_reference - reference
            < 0x1_0000_0000_0000_0000 ==> offset_by(
            file_address,
            distance(reference, aslr_reference),
        ) == file_address + aslr_reference - reference,
{
    lemma_distance(reference, aslr_reference);
    lemma_offset_by(file_address, distance(reference, aslr_reference));
}

/// Taking the tag off an address takes away its highest byte and nothing else.
pub proof fn law_tag_is_the_highest_byte(address: u64)
    ensures
        without_tag(address) < 0x100_0000_0000_0000,
        (address - without_tag(address)) % 0x100_0000_0000_0000 == 0,
        address < 0x100_0000_0000_0000 ==> without_tag(address) == address,
{
}

} // verus!
