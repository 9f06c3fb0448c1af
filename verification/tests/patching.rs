use std::collections::HashMap;
use std::path::PathBuf;
use std::sync::atomic::{AtomicUsize, Ordering};
use std::sync::Arc;
use subsecond::hot::{after_attempt, AfterAttempt, Attempt, Dispatch};
use subsecond::jump_table::{alsr_offset, relocate_native_jump_table};
use subsecond::patch::{find_unpatchable, is_patchable, plan_patch, PatchSymbol, Placement};
use subsecond::runtime::{unpatched, Runtime};
use subsecond::stub::{aslr_offset, fix_endian, jump_code, process_address, untagged};
use subsecond::symbols::{unresolved_names, LinkEntry, SymbolEntry, SymbolKind, SymbolTable};
use subsecond::target::{Architecture, Target};
use subsecond::{changed, current, register_handler, run_patch, HotFunction, JumpTable};

type Handler = dyn Fn() + Send + Sync;

fn table(pairs: &[(u64, u64)], old_base_address: u64, new_base_address: u64) -> JumpTable {
    JumpTable {
        lib: PathBuf::from("libpatch.so"),
        map: pairs.iter().copied().collect(),
        old_base_address,
        new_base_address,
    }
}

fn symbol(name: Option<&str>) -> SymbolEntry {
    SymbolEntry { name: name.map(String::from), address: 0x40, kind: SymbolKind::Text, weak: false }
}

fn link(name: &str, undefined: bool, global: bool) -> LinkEntry {
    LinkEntry { name: Ok(name.to_string()), undefined, global }
}

#[test]
fn test_endian() {
    let notag = fix_endian();
    println!("{:#x}", notag);
    assert_eq!(notag, 0x719c546000);
}

#[test]
fn tags_are_taken_off() {
    assert_eq!(untagged(0xB400_0071_9C54_6000), 0x0000_0071_9C54_6000);
    assert_eq!(untagged(untagged(u64::MAX)), 0x00FF_FFFF_FFFF_FFFF);
    assert_eq!(untagged(0), 0);
}

#[test]
fn offsets_tie_a_process_to_its_file() {
    let offset = aslr_offset(0x7186feb118, 0x1eb8118);
    assert_eq!(offset, 0x7185133000);
    assert_eq!(process_address(0x1eb8118, offset), 0x7186feb118);
    assert_eq!(process_address(0x1135FAC, offset), 0x7186268fac);
    assert_eq!(process_address(0x1000, aslr_offset(0, 0x1000)), 0);
    assert_eq!(aslr_offset(0, 1), u64::MAX);
}

#[test]
fn stubs_jump_to_their_address() {
    assert_eq!(
        jump_code(Architecture::X86_64, 0x1122334455667788),
        vec![0xFF, 0x25, 0, 0, 0, 0, 0x88, 0x77, 0x66, 0x55, 0x44, 0x33, 0x22, 0x11]
    );
    assert_eq!(
        jump_code(Architecture::Aarch64, 0x1122334455667788),
        vec![
            0x50, 0x00, 0x00, 0x58, 0x00, 0x02, 0x1F, 0xD6, 0x88, 0x77, 0x66, 0x55, 0x44, 0x33,
            0x22, 0x11
        ]
    );
    let code = jump_code(Architecture::Aarch64, u64::MAX - 1);
    assert_eq!(code[8..].to_vec(), (u64::MAX - 1).to_le_bytes().to_vec());
}

#[test]
fn names_with_a_global_definition_are_resolved() {
    let unreadable = object::File::parse([0u8; 4].as_slice()).err().unwrap();
    let entries = vec![
        link("b", true, true),
        link("a", true, true),
        link("b", true, true),
        link("c", true, true),
        link("a", false, true),
        link("c", false, false),
        LinkEntry { name: Err(unreadable), undefined: true, global: true },
        link("d", false, true),
    ];
    assert_eq!(unresolved_names(&entries), vec!["b".to_string(), "c".to_string()]);
    assert_eq!(unresolved_names(&Vec::new()).len(), 0);
}

#[test]
fn tables_give_the_last_symbol_of_a_name() {
    let mut first = symbol(Some("a"));
    first.address = 1;
    let mut second = symbol(Some("a"));
    second.address = 2;
    let table = SymbolTable::new(vec![first, symbol(None), second]);
    assert_eq!(table.get("a").unwrap().address, 2);
    assert!(table.get("b").is_none());
    assert!(table.get("").is_none());
}

#[test]
fn names_are_patched_or_missing() {
    let target = Target::parse("aarch64-apple-darwin").unwrap();
    let mut data = symbol(Some("_data"));
    data.kind = SymbolKind::Tls;
    data.weak = true;
    let mut unknown = symbol(Some("_odd"));
    unknown.kind = SymbolKind::Unknown;
    unknown.weak = true;
    let mut section = symbol(Some("__text"));
    section.kind = SymbolKind::Section;
    let table = SymbolTable::new(vec![data, unknown, section, symbol(Some(""))]);
    let list = vec!["_data".to_string(), "_gone".to_string(), "_odd".to_string()];
    assert_eq!(find_unpatchable(&list, &table), None);
    let patch = plan_patch(&list, &table, &target, 0x1000);
    assert_eq!(patch.missing, vec!["_gone".to_string()]);
    assert_eq!(
        patch.symbols,
        vec![
            PatchSymbol {
                name: b"_data".to_vec(),
                kind: SymbolKind::Tls,
                weak: true,
                placement: Placement::Absolute(0x1040),
            },
            PatchSymbol {
                name: b"_odd".to_vec(),
                kind: SymbolKind::Text,
                weak: false,
                placement: Placement::Stub(jump_code(Architecture::Aarch64, 0x1040)),
            },
        ]
    );
    assert!(is_patchable("_gone", &table));
    assert!(!is_patchable("__text", &table));
    assert!(is_patchable("", &table));
    let list = vec!["_odd".to_string(), "".to_string(), "__text".to_string()];
    assert_eq!(find_unpatchable(&list, &table), Some("__text".to_string()));
}

#[test]
fn names_longer_than_a_byte_per_character_keep_their_bytes() {
    let target = Target::parse("aarch64-unknown-linux-gnu").unwrap();
    let table = SymbolTable::new(vec![symbol(Some("\u{e9}t\u{e9}"))]);
    let patch = plan_patch(&vec!["\u{e9}t\u{e9}".to_string()], &table, &target, 0);
    assert_eq!(patch.symbols[0].name, "\u{e9}t\u{e9}".as_bytes().to_vec());
}

#[test]
fn offsets_of_loaded_files() {
    assert_eq!(alsr_offset(354356, Some(0x71ff1ef834)), Some(0x71ff199000));
    assert_eq!(alsr_offset(0x10, None), None);
    assert_eq!(alsr_offset(1, Some(0)), Some(usize::MAX));
}

#[test]
fn jump_tables_are_moved_to_where_the_files_are() {
    let original = table(&[(18092028, 360016), (19054588, 377400)], 0x114766c, 0x56834);
    let old = 0x719E03C000 + 0x114766c;
    let new = 0x71ff199000 + 0x56834;
    let moved = relocate_native_jump_table(original, Some(old), Some(new));
    assert_eq!(moved.lib, PathBuf::from("libpatch.so"));
    assert_eq!(moved.old_base_address, 0x114766c);
    assert_eq!(moved.new_base_address, 0x56834);
    let mut expected: HashMap<u64, u64> = HashMap::new();
    expected.insert(0x719E03C000 + 18092028, 0x71ff199000 + 360016);
    expected.insert(0x719E03C000 + 19054588, 0x71ff199000 + 377400);
    assert_eq!(moved.map, expected);
}

#[test]
fn relocations_add_up() {
    let once = relocate_native_jump_table(table(&[(5, 6), (7, 8)], 0, 0), Some(30), Some(70));
    let half = relocate_native_jump_table(table(&[(5, 6), (7, 8)], 0, 0), Some(10), Some(20));
    let twice = relocate_native_jump_table(half, Some(20), Some(50));
    assert_eq!(once.map, twice.map);
    let same = relocate_native_jump_table(table(&[(5, 6), (7, 8)], 9, 9), Some(9), Some(9));
    assert_eq!(same.map, table(&[(5, 6), (7, 8)], 0, 0).map);
}

#[test]
fn files_may_be_loaded_below_their_addresses() {
    let original = table(&[(0x5000, 0x6000)], 0x5000, 0x6000);
    let moved = relocate_native_jump_table(original, Some(0x1000), Some(0x2000));
    assert_eq!(moved.map.get(&0x1000), Some(&0x2000));
    assert_eq!(moved.map.len(), 1);
}

#[test]
fn a_patch_is_reported_once() {
    let mut runtime: Runtime<Handler> = unpatched();
    assert!(runtime.jump_table.is_none());
    assert!(!changed(&mut runtime));
    run_patch(&mut runtime, table(&[(1, 2)], 0, 0), Some(0), Some(0));
    assert!(changed(&mut runtime));
    assert!(!changed(&mut runtime));
    assert!(runtime.jump_table.is_some());
}

#[test]
fn the_last_patch_counts() {
    let mut runtime: Runtime<Handler> = unpatched();
    run_patch(&mut runtime, table(&[(1, 2)], 0, 0), Some(0), Some(0));
    run_patch(&mut runtime, table(&[(3, 4)], 0, 0), Some(0), Some(0));
    let map = &runtime.jump_table.as_ref().unwrap().map;
    assert_eq!(map.len(), 1);
    assert_eq!(map.get(&3), Some(&4));
}

#[test]
fn handlers_come_in_the_order_of_their_registration() {
    let calls = Arc::new(AtomicUsize::new(0));
    let mut runtime: Runtime<Handler> = unpatched();
    let (a, b) = (calls.clone(), calls.clone());
    let first: Arc<Handler> = Arc::new(move || {
        a.store(a.load(Ordering::SeqCst) * 10 + 1, Ordering::SeqCst);
    });
    let second: Arc<Handler> = Arc::new(move || {
        b.store(b.load(Ordering::SeqCst) * 10 + 2, Ordering::SeqCst);
    });
    register_handler(&mut runtime, first);
    register_handler(&mut runtime, second);
    let handlers = run_patch(&mut runtime, table(&[], 0, 0), Some(0), Some(0));
    assert_eq!(runtime.handlers.len(), 2);
    for handler in &handlers {
        handler();
    }
    assert_eq!(calls.load(Ordering::SeqCst), 12);
}

struct Small;

struct Pointer(usize);

struct Large([u64; 4]);

impl HotFunction<u64, ()> for Small {
    type Return = (String, u64);

    fn call_it(&mut self, args: u64) -> (String, u64) {
        ("it".to_string(), args)
    }

    fn call_as_ptr(&mut self, args: u64) -> (String, u64) {
        ("ptr".to_string(), args)
    }

    fn call_detour(&mut self, address: u64, args: u64) -> (String, u64) {
        ("detour".to_string(), address + args)
    }
}

impl HotFunction<u64, ()> for Pointer {
    type Return = (String, u64);

    fn call_it(&mut self, args: u64) -> (String, u64) {
        ("it".to_string(), args)
    }

    fn call_as_ptr(&mut self, args: u64) -> (String, u64) {
        self.0 += 1;
        ("ptr".to_string(), args + self.0 as u64)
    }

    fn call_detour(&mut self, address: u64, args: u64) -> (String, u64) {
        ("detour".to_string(), address + args)
    }
}

impl HotFunction<u64, ()> for Large {
    type Return = u64;

    fn call_it(&mut self, args: u64) -> u64 {
        self.0[0] += args;
        self.0[0]
    }

    fn call_as_ptr(&mut self, _args: u64) -> u64 {
        0
    }

    fn call_detour(&mut self, address: u64, args: u64) -> u64 {
        address * args
    }
}

#[test]
fn functions_are_called_through_their_replacement() {
    let patched = Some(table(&[(0x100, 0x900)], 0, 0));
    let mut small = current(Small);
    assert_eq!(small.dispatch(&None, 0x100), Dispatch::Direct);
    assert_eq!(small.dispatch(&patched, 0x100), Dispatch::Detour(0x900));
    assert_eq!(small.dispatch(&patched, 0x101), Dispatch::Undetoured);
    assert_eq!(small.call(5, &None, 0x100), ("it".to_string(), 5));
    assert_eq!(small.call(5, &patched, 0x100), ("detour".to_string(), 0x905));
    assert_eq!(small.call(5, &patched, 0x101), ("it".to_string(), 5));
    assert_eq!(small.call_by(Dispatch::Detour(1), 5), ("detour".to_string(), 6));
}

#[test]
fn function_pointers_are_called_as_such() {
    let patched = Some(table(&[(0x100, 0x900)], 0, 0));
    let mut pointer = current(Pointer(1));
    assert_eq!(pointer.dispatch(&patched, 0x100), Dispatch::Pointer);
    assert_eq!(pointer.call(5, &patched, 0x100), ("ptr".to_string(), 7));
    assert_eq!(pointer.call(5, &None, 0x100), ("ptr".to_string(), 8));
}

#[test]
fn functions_keep_their_state_between_calls() {
    let mut large = current(Large([1, 0, 0, 0]));
    assert_eq!(large.call(2, &None, 0), 3);
    assert_eq!(large.call(2, &None, 0), 5);
    assert_eq!(large.call(3, &Some(table(&[(0, 7)], 0, 0)), 0), 21);
}

#[test]
fn a_patch_detours_the_functions_of_its_table() {
    let mut runtime: Runtime<Handler> = unpatched();
    let jump_table = table(&[(0x40, 0x80)], 0x10, 0x20);
    run_patch(&mut runtime, jump_table, Some(0x1010), Some(0x5020));
    let small = current(Small);
    assert_eq!(small.dispatch(&runtime.jump_table, 0x1040), Dispatch::Detour(0x5080));
    assert_eq!(small.dispatch(&runtime.jump_table, 0x40), Dispatch::Undetoured);
}

#[test]
fn only_hot_panics_are_retried() {
    assert_eq!(after_attempt(Attempt::Returned), AfterAttempt::Return);
    assert_eq!(after_attempt(Attempt::HotPanic), AfterAttempt::Retry);
    assert_eq!(after_attempt(Attempt::OtherPanic), AfterAttempt::Resume);
}

#[test]
fn a_call_ends_with_its_first_other_outcome() {
    let outcomes = [
        Attempt::HotPanic,
        Attempt::HotPanic,
        Attempt::Returned,
        Attempt::HotPanic,
        Attempt::OtherPanic,
    ];
    let end = outcomes.iter().position(|o| after_attempt(*o) != AfterAttempt::Retry);
    assert_eq!(end, Some(2));
    assert_eq!(after_attempt(outcomes[2]), AfterAttempt::Return);
    let end = outcomes[3..].iter().position(|o| after_attempt(*o) != AfterAttempt::Retry);
    assert_eq!(end, Some(1));
    assert_eq!(after_attempt(outcomes[4]), AfterAttempt::Resume);
    assert!(outcomes[..2].iter().all(|o| after_attempt(*o) == AfterAttempt::Retry));
}
