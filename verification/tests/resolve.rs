use object::write::{Object, StandardSection, Symbol, SymbolSection};
use object::{
    Architecture, BinaryFormat, Endianness, Object as _, ObjectSection, ObjectSymbol, SymbolFlags,
    SymbolKind, SymbolScope,
};
use std::path::PathBuf;
use subsecond::incremental::Incremental;
use subsecond::patch::{PatchSymbol, Placement};
use subsecond::patch_object::write_patch;
use subsecond::resolve::{
    collect_symbols, find_name_error, find_reference, place_symbols, read_program, resolve_ordered,
    resolve_symbols, resolve_undefined, scan_incrementals, ResolveError,
};
use subsecond::symbols::{LinkEntry, SymbolEntry, SymbolTable, UnplacedEntry};
use subsecond::target::{OperatingSystem, Target};

fn symbol(name: &[u8], value: u64, kind: SymbolKind, weak: bool, section: SymbolSection) -> Symbol {
    Symbol {
        name: name.to_vec(),
        value,
        size: 0,
        kind,
        scope: SymbolScope::Dynamic,
        weak,
        section,
        flags: SymbolFlags::None,
    }
}

fn program(format: BinaryFormat) -> Vec<u8> {
    let mut file = Object::new(format, Architecture::Aarch64, Endianness::Little);
    let text = file.section_id(StandardSection::Text);
    file.append_section_data(text, &[0; 0x40], 16);
    let data = file.section_id(StandardSection::Data);
    file.append_section_data(data, &[0; 0x20], 8);
    file.add_symbol(symbol(b"aslr_reference", 0x10, SymbolKind::Text, false, SymbolSection::Section(text)));
    file.add_symbol(symbol(b"compute", 0x20, SymbolKind::Text, false, SymbolSection::Section(text)));
    file.add_symbol(symbol(b"TABLE", 8, SymbolKind::Data, true, SymbolSection::Section(data)));
    file.add_symbol(symbol(b"render", 0x30, SymbolKind::Text, false, SymbolSection::Section(text)));
    file.write().unwrap()
}

fn incremental(format: BinaryFormat, wanted: &[&[u8]], defined: &[&[u8]]) -> Vec<u8> {
    let mut file = Object::new(format, Architecture::Aarch64, Endianness::Little);
    let text = file.section_id(StandardSection::Text);
    file.append_section_data(text, &[0; 0x40], 16);
    for name in wanted {
        file.add_symbol(symbol(name, 0, SymbolKind::Text, false, SymbolSection::Undefined));
    }
    for name in defined {
        file.add_symbol(symbol(name, 4, SymbolKind::Text, false, SymbolSection::Section(text)));
    }
    file.write().unwrap()
}

fn file(path: &str, bytes: Vec<u8>) -> Incremental {
    Incremental { path: PathBuf::from(path), bytes: Some(bytes) }
}

fn linux() -> Target {
    Target::parse("aarch64-unknown-linux-gnu").unwrap()
}

fn entry(name: &str, kind: subsecond::symbols::SymbolKind, address: u64) -> SymbolEntry {
    SymbolEntry { name: Some(name.to_string()), address, kind, weak: false }
}

fn wanted(name: &str) -> LinkEntry {
    LinkEntry { name: Ok(name.to_string()), undefined: true, global: true }
}

fn names(object: &[u8]) -> Vec<String> {
    let object = object::File::parse(object).unwrap();
    object.symbols().map(|s| s.name().unwrap().to_string()).collect()
}

fn aarch64_stub(address: u64) -> Vec<u8> {
    let mut code = vec![0x50, 0x00, 0x00, 0x58, 0x00, 0x02, 0x1F, 0xD6];
    code.extend_from_slice(&address.to_le_bytes());
    code
}

#[test]
fn resolves_against_an_elf_program() {
    let files = vec![
        file("b.o", incremental(BinaryFormat::Elf, &[b"nowhere", b"TABLE"], &[b"helper"])),
        file("a.o", incremental(BinaryFormat::Elf, &[b"compute", b"helper", b"compute", b"render"], &[])),
    ];
    let resolved =
        resolve_undefined(&Some(program(BinaryFormat::Elf)), &files, &linux(), 0x7000_0010).unwrap();
    assert_eq!(resolved.missing, vec!["nowhere".to_string()]);

    let object = object::File::parse(resolved.object.as_slice()).unwrap();
    let text = object.section_by_name(".text").unwrap();
    let mut code = aarch64_stub(0x7000_0020);
    code.extend(aarch64_stub(0x7000_0030));
    assert_eq!(text.data().unwrap(), code.as_slice());
    assert_eq!(text.align(), 8);

    let found: Vec<(String, u64, u64, SymbolKind, bool, bool)> = object
        .symbols()
        .map(|s| {
            let absolute = s.section() == object::SymbolSection::Absolute;
            (s.name().unwrap().to_string(), s.address(), s.size(), s.kind(), s.is_weak(), absolute)
        })
        .collect();
    assert_eq!(
        found,
        vec![
            ("compute".to_string(), 0, 16, SymbolKind::Text, false, false),
            ("render".to_string(), 16, 16, SymbolKind::Text, false, false),
            ("TABLE".to_string(), 0x7000_0008, 0, SymbolKind::Data, true, true),
        ]
    );
}

#[test]
fn writes_the_object_that_the_calls_of_the_writer_make() {
    let files = vec![file("a.o", incremental(BinaryFormat::MachO, &[b"compute", b"TABLE"], &[]))];
    let target = Target::parse("aarch64-apple-darwin").unwrap();
    let resolved =
        resolve_undefined(&Some(program(BinaryFormat::MachO)), &files, &target, 0x9000_0010).unwrap();

    let source = program(BinaryFormat::MachO);
    let parsed = object::File::parse(source.as_slice()).unwrap();
    let table = parsed.symbols().find(|s| s.name() == Ok("_TABLE")).unwrap();
    assert!(table.is_weak());

    let mut expected = Object::new(BinaryFormat::MachO, Architecture::Aarch64, Endianness::Little);
    let mut version = object::write::MachOBuildVersion::default();
    version.platform = object::macho::PLATFORM_MACOS;
    version.minos = (11 << 16) | (0 << 8) | 0;
    version.sdk = (11 << 16) | (0 << 8) | 0;
    expected.set_macho_build_version(version);
    let text = expected.section_id(StandardSection::Text);
    let stub = aarch64_stub(0x9000_0020);
    let absolute = table.address() + 0x9000_0000;
    // Undefined and external symbols of a Mach-O file are sorted by name.
    expected.add_symbol(Symbol {
        scope: SymbolScope::Linkage,
        ..symbol(b"TABLE", absolute, SymbolKind::Data, true, SymbolSection::Absolute)
    });
    let offset = expected.append_section_data(text, &stub, 8);
    expected.add_symbol(Symbol {
        scope: SymbolScope::Linkage,
        size: 16,
        ..symbol(b"compute", offset, SymbolKind::Text, false, SymbolSection::Section(text))
    });
    assert_eq!(resolved.object, expected.write().unwrap());
    assert_eq!(resolved.missing.len(), 0);
}

#[test]
fn mach_o_objects_define_the_names_that_are_asked_for() {
    let files = vec![file("a.o", incremental(BinaryFormat::MachO, &[b"compute", b"TABLE"], &[]))];
    for triple in [
        "aarch64-apple-darwin",
        "aarch64-apple-ios",
        "aarch64-apple-ios-sim",
        "aarch64-apple-macosx",
    ] {
        let target = Target::parse(triple).unwrap();
        let resolved =
            resolve_undefined(&Some(program(BinaryFormat::MachO)), &files, &target, 0x10).unwrap();
        assert_eq!(names(&resolved.object), vec!["_TABLE".to_string(), "_compute".to_string()]);
        assert_eq!(resolved.missing.len(), 0);
    }
}

#[test]
fn elf_objects_keep_whole_names_on_every_system() {
    let files = vec![file("a.o", incremental(BinaryFormat::Elf, &[b"compute"], &[]))];
    let mut target = linux();
    target.operating_system = Some(OperatingSystem::Darwin);
    let resolved =
        resolve_undefined(&Some(program(BinaryFormat::Elf)), &files, &target, 0x10).unwrap();
    assert_eq!(names(&resolved.object), vec!["compute".to_string()]);
}

#[test]
fn the_reference_has_no_underscore_in_elf() {
    let data = subsecond::symbols::SymbolKind::Data;
    let plain = || vec![entry("aslr_reference", data, 5)];
    let both = || vec![entry("_aslr_reference", data, 7), entry("aslr_reference", data, 5)];
    let mac = Target::parse("aarch64-apple-darwin").unwrap();
    assert_eq!(find_reference(&SymbolTable::new(plain()), &linux()), Some(5));
    assert_eq!(find_reference(&SymbolTable::new(plain()), &mac), None);
    assert_eq!(find_reference(&SymbolTable::new(both()), &linux()), Some(7));
    assert_eq!(find_reference(&SymbolTable::new(both()), &mac), Some(7));
    assert_eq!(find_reference(&SymbolTable::new(Vec::new()), &linux()), None);
}

/// A PE32+ file with one section at 0x1000 and one symbol at 0x20 of it.
fn pe(image_base: u64) -> Vec<u8> {
    let mut bytes = vec![0; 64];
    bytes[0] = b'M';
    bytes[1] = b'Z';
    bytes[60] = 64;
    bytes.extend_from_slice(b"PE\0\0");
    let symbols: u32 = 64 + 4 + 20 + 112 + 40;
    bytes.extend_from_slice(&0xAA64u16.to_le_bytes());
    bytes.extend_from_slice(&1u16.to_le_bytes());
    bytes.extend_from_slice(&0u32.to_le_bytes());
    bytes.extend_from_slice(&symbols.to_le_bytes());
    bytes.extend_from_slice(&1u32.to_le_bytes());
    bytes.extend_from_slice(&112u16.to_le_bytes());
    bytes.extend_from_slice(&0x22u16.to_le_bytes());
    let mut header = vec![0; 112];
    header[0..2].copy_from_slice(&0x20Bu16.to_le_bytes());
    header[24..32].copy_from_slice(&image_base.to_le_bytes());
    bytes.extend_from_slice(&header);
    let mut section = vec![0; 40];
    section[0..5].copy_from_slice(b".text");
    section[8..12].copy_from_slice(&0x100u32.to_le_bytes());
    section[12..16].copy_from_slice(&0x1000u32.to_le_bytes());
    section[36..40].copy_from_slice(&0x6000_0020u32.to_le_bytes());
    bytes.extend_from_slice(&section);
    bytes.extend_from_slice(b"compute\0");
    bytes.extend_from_slice(&0x20u32.to_le_bytes());
    bytes.extend_from_slice(&1u16.to_le_bytes());
    bytes.extend_from_slice(&0x20u16.to_le_bytes());
    bytes.extend_from_slice(&[2, 0]);
    bytes.extend_from_slice(&4u32.to_le_bytes());
    bytes
}

#[test]
fn addresses_of_pe_programs_count_from_their_base() {
    for base in [0x1_4000_0000, 0, 0xFFFF_FFFE_0000_0002, u64::MAX - 0x1020] {
        let entries = read_program(&Some(pe(base))).unwrap();
        assert_eq!(entries.len(), 1);
        assert_eq!(entries[0].name, Some("compute".to_string()));
        assert_eq!(entries[0].address, base + 0x1020);
        let bytes = pe(base);
        let object = object::File::parse(bytes.as_slice()).unwrap();
        assert_eq!(object.symbols().next().unwrap().address(), base + 0x1020);
    }
    // Where there is no room for the address, it wraps around.
    assert_eq!(read_program(&Some(pe(u64::MAX))).unwrap()[0].address, 0x101F);
    let r = resolve_undefined(&Some(pe(u64::MAX)), &Vec::new(), &linux(), 0);
    assert_eq!(r, Err(ResolveError::MissingReference));
}

#[test]
fn symbols_without_an_address_are_at_zero() {
    let unplaced = |name: &str| UnplacedEntry {
        name: Some(name.to_string()),
        kind: subsecond::symbols::SymbolKind::Data,
        weak: true,
    };
    let placed =
        place_symbols(vec![unplaced("a"), unplaced("b")], &vec![Some(0x10), None], 0x1000);
    assert_eq!(placed[0].address, 0x1010);
    assert_eq!(placed[1].address, 0);
    assert_eq!(placed[1].name, Some("b".to_string()));
    assert!(placed[1].weak);
}

#[test]
fn the_base_of_an_incremental_does_not_matter() {
    let entries = scan_incrementals(&vec![file("a.obj", pe(u64::MAX))]).unwrap();
    assert_eq!(
        entries,
        vec![LinkEntry { name: Ok("compute".to_string()), undefined: false, global: true }]
    );
}

#[test]
fn a_moved_reference_moves_every_address() {
    let files =
        vec![file("a.o", incremental(BinaryFormat::Elf, &[b"compute", b"TABLE", b"render"], &[]))];
    let source = Some(program(BinaryFormat::Elf));
    let here = resolve_undefined(&source, &files, &linux(), 0x10).unwrap();
    let there = resolve_undefined(&source, &files, &linux(), 0x5010).unwrap();
    assert_eq!(names(&here.object), names(&there.object));
    let text = |bytes: &[u8]| {
        let object = object::File::parse(bytes).unwrap();
        object.section_by_name(".text").unwrap().data().unwrap().to_vec()
    };
    assert_eq!(text(&here.object), [aarch64_stub(0x20), aarch64_stub(0x30)].concat());
    assert_eq!(text(&there.object), [aarch64_stub(0x5020), aarch64_stub(0x5030)].concat());
    let table = |bytes: &[u8]| {
        let object = object::File::parse(bytes).unwrap();
        let address = object.symbols().find(|s| s.name() == Ok("TABLE")).unwrap().address();
        address
    };
    assert_eq!(table(&here.object), 0x8);
    assert_eq!(table(&there.object), 0x5008);
}

#[test]
fn repeated_and_permuted_files_change_nothing() {
    let a = || file("a.o", incremental(BinaryFormat::Elf, &[b"render", b"gone"], &[b"compute"]));
    let b = || file("b.o", incremental(BinaryFormat::Elf, &[b"compute", b"TABLE", b"render"], &[]));
    let source = Some(program(BinaryFormat::Elf));
    let once = resolve_undefined(&source, &vec![a(), b()], &linux(), 0x10).unwrap();
    assert_eq!(names(&once.object), vec!["render".to_string(), "TABLE".to_string()]);
    assert_eq!(once.missing, vec!["gone".to_string()]);
    let files = vec![b(), a(), b(), a(), a()];
    assert_eq!(resolve_undefined(&source, &files, &linux(), 0x10).unwrap(), once);
    let bad = || file("aa.o", Vec::new());
    let r = resolve_undefined(&source, &vec![b(), bad(), a()], &linux(), 0x10);
    assert!(matches!(r, Err(ResolveError::ParseIncremental(1, _))));
    let r = resolve_undefined(&source, &vec![bad(), a(), b(), bad()], &linux(), 0x10);
    assert!(matches!(r, Err(ResolveError::ParseIncremental(0, _))));
}

#[test]
fn the_reference_may_be_below_its_address_in_the_file() {
    let files = vec![file("a.o", incremental(BinaryFormat::Elf, &[b"compute"], &[]))];
    let resolved =
        resolve_undefined(&Some(program(BinaryFormat::Elf)), &files, &linux(), 0).unwrap();
    let object = object::File::parse(resolved.object.as_slice()).unwrap();
    let text = object.section_by_name(".text").unwrap();
    assert_eq!(text.data().unwrap(), aarch64_stub(0x10).as_slice());
}

#[test]
fn big_endian_targets_get_big_endian_objects() {
    let files = vec![file("a.o", incremental(BinaryFormat::Elf, &[b"compute"], &[]))];
    let target = Target::parse("aarch64_be-unknown-linux-gnu").unwrap();
    let resolved =
        resolve_undefined(&Some(program(BinaryFormat::Elf)), &files, &target, 0x10).unwrap();
    let object = object::File::parse(resolved.object.as_slice()).unwrap();
    assert!(!object.is_little_endian());
    // The code of a stub keeps its byte order.
    let text = object.section_by_name(".text").unwrap();
    assert_eq!(text.data().unwrap(), aarch64_stub(0x20).as_slice());
}

#[test]
fn files_are_taken_in_the_order_of_their_paths() {
    let files = vec![
        file("a-b/x.o", incremental(BinaryFormat::Elf, &[b"third"], &[])),
        file("b.o", incremental(BinaryFormat::Elf, &[b"fourth"], &[])),
        file("a/x.o", incremental(BinaryFormat::Elf, &[b"second"], &[])),
        file("a/w.o", incremental(BinaryFormat::Elf, &[b"first"], &[])),
    ];
    let resolved =
        resolve_undefined(&Some(program(BinaryFormat::Elf)), &files, &linux(), 0x10).unwrap();
    assert_eq!(
        resolved.missing,
        vec!["first".to_string(), "second".to_string(), "third".to_string(), "fourth".to_string()]
    );
}

#[test]
fn the_order_of_files_does_not_change_what_is_undefined() {
    let files = vec![
        file("a.o", incremental(BinaryFormat::Elf, &[b"one", b"two"], &[b"three"])),
        file("b.o", incremental(BinaryFormat::Elf, &[b"three", b"one"], &[])),
    ];
    let source = Some(program(BinaryFormat::Elf));
    let there = resolve_ordered(&source, &files, &vec![0, 1], &linux(), 0x10).unwrap();
    let back = resolve_ordered(&source, &files, &vec![1, 0], &linux(), 0x10).unwrap();
    assert_eq!(there.missing, vec!["one".to_string(), "two".to_string()]);
    assert_eq!(back.missing, vec!["one".to_string(), "two".to_string()]);
}

#[test]
fn nothing_undefined_gives_an_object_without_symbols() {
    let files = vec![file("a.o", incremental(BinaryFormat::Elf, &[], &[b"helper"]))];
    let resolved =
        resolve_undefined(&Some(program(BinaryFormat::Elf)), &files, &linux(), 0x10).unwrap();
    let object = object::File::parse(resolved.object.as_slice()).unwrap();
    assert_eq!(object.symbols().count(), 0);
    assert_eq!(object.section_by_name(".text").unwrap().data().unwrap().len(), 0);
    assert_eq!(resolved.missing.len(), 0);
}

#[test]
fn reports_an_unreadable_incremental() {
    let mut files = vec![
        file("b.o", incremental(BinaryFormat::Elf, &[b"compute"], &[])),
        file("a.o", incremental(BinaryFormat::Elf, &[b"compute"], &[])),
    ];
    files[1].bytes = None;
    let source = Some(program(BinaryFormat::Elf));
    assert_eq!(
        resolve_undefined(&source, &files, &linux(), 0x10),
        Err(ResolveError::ReadIncremental(1))
    );
    assert_eq!(scan_incrementals(&files), Err(ResolveError::ReadIncremental(1)));
    // The first file in the order of the paths is the one that is reported.
    files[0].bytes = None;
    assert_eq!(
        resolve_undefined(&source, &files, &linux(), 0x10),
        Err(ResolveError::ReadIncremental(1))
    );
    assert_eq!(collect_symbols(&files, &vec![0, 1]), Err(ResolveError::ReadIncremental(0)));
}

#[test]
fn reports_a_malformed_incremental() {
    let files = vec![
        file("a.o", incremental(BinaryFormat::Elf, &[b"compute"], &[])),
        file("b.o", b"no object".to_vec()),
    ];
    let r = resolve_undefined(&None, &files, &linux(), 0x10);
    assert!(matches!(r, Err(ResolveError::ParseIncremental(1, _))));
}

#[test]
fn reports_a_symbol_without_a_readable_name() {
    let bytes = incremental(BinaryFormat::Elf, &[b"\xff"], &[]);
    let error = object::File::parse(bytes.as_slice())
        .unwrap()
        .symbols()
        .find_map(|s| s.name().err())
        .unwrap();
    let files = vec![file("a.o", bytes)];
    let r = resolve_undefined(&Some(program(BinaryFormat::Elf)), &files, &linux(), 0x10);
    assert_eq!(r, Err(ResolveError::NameIncremental(0, error)));
    // Names of local symbols do not matter.
    let local = LinkEntry { name: Err(error), undefined: false, global: false };
    assert_eq!(find_name_error(&vec![local]), None);
    let global = LinkEntry { name: Err(error), undefined: false, global: true };
    assert_eq!(find_name_error(&vec![wanted("a"), global]), Some(error));
}

#[test]
fn reports_an_unreadable_program() {
    let files = vec![file("a.o", incremental(BinaryFormat::Elf, &[b"compute"], &[]))];
    assert_eq!(resolve_undefined(&None, &files, &linux(), 0x10), Err(ResolveError::ReadSource));
}

#[test]
fn reports_a_malformed_program() {
    let files = vec![file("a.o", incremental(BinaryFormat::Elf, &[b"compute"], &[]))];
    let r = resolve_undefined(&Some(b"no program".to_vec()), &files, &linux(), 0x10);
    assert!(matches!(r, Err(ResolveError::ParseSource(_))));
}

#[test]
fn reports_a_program_without_reference() {
    let files = vec![file("a.o", incremental(BinaryFormat::Elf, &[b"compute"], &[]))];
    let source = Some(incremental(BinaryFormat::Elf, &[], &[b"compute"]));
    assert_eq!(
        resolve_undefined(&source, &files, &linux(), 0x10),
        Err(ResolveError::MissingReference)
    );
}

#[test]
fn every_name_is_defined_whole() {
    let reference =
        || entry("_aslr_reference", subsecond::symbols::SymbolKind::Data, 0);
    for triple in ["aarch64-apple-darwin", "aarch64-apple-ios", "aarch64-unknown-linux-gnu"] {
        let target = Target::parse(triple).unwrap();
        for name in ["", "_", "foo", "_foo", "__foo"] {
            for kind in [
                subsecond::symbols::SymbolKind::Text,
                subsecond::symbols::SymbolKind::Unknown,
                subsecond::symbols::SymbolKind::Data,
                subsecond::symbols::SymbolKind::Tls,
            ] {
                let source = vec![reference(), entry(name, kind, 0)];
                let resolved = resolve_symbols(&vec![wanted(name)], source, &target, 0).unwrap();
                assert_eq!(names(&resolved.object), vec![name.to_string()]);
            }
        }
    }
}

#[test]
fn reports_names_that_no_object_can_define() {
    let kind = subsecond::symbols::SymbolKind::Data;
    let reference = || entry("_aslr_reference", kind, 0);
    let r = resolve_symbols(
        &vec![wanted("fine"), wanted("a\0b")],
        vec![reference(), entry("a\0b", kind, 0)],
        &linux(),
        0,
    );
    assert_eq!(r, Err(ResolveError::Unpatchable("a\0b".to_string())));
    let section = subsecond::symbols::SymbolKind::Section;
    let r = resolve_symbols(
        &vec![wanted(".data")],
        vec![reference(), entry(".data", section, 0)],
        &linux(),
        0,
    );
    assert_eq!(r, Err(ResolveError::Unpatchable(".data".to_string())));
}

#[test]
fn reports_symbols_that_the_writer_has_no_encoding_for() {
    let label = subsecond::symbols::SymbolKind::Label;
    let ios = Target::parse("aarch64-apple-ios").unwrap();
    let list = vec![wanted("spot")];
    let source = || vec![entry("_aslr_reference", label, 0), entry("spot", label, 4)];
    let r = resolve_symbols(&list, source(), &ios, 0);
    assert!(matches!(r, Err(ResolveError::Write(_))));
    assert!(resolve_symbols(&list, source(), &linux(), 0).is_ok());

    let unknown = vec![PatchSymbol {
        name: b"odd".to_vec(),
        kind: subsecond::symbols::SymbolKind::Unknown,
        weak: false,
        placement: Placement::Absolute(1),
    }];
    assert!(write_patch(&linux(), &unknown).is_err());
    assert!(write_patch(&ios, &unknown).is_ok());
}

#[test]
fn the_last_symbol_of_a_name_counts() {
    let data = subsecond::symbols::SymbolKind::Data;
    let resolved = resolve_symbols(
        &vec![wanted("value")],
        vec![
            entry("value", data, 0x100),
            entry("_aslr_reference", data, 0),
            entry("value", data, 0x200),
        ],
        &linux(),
        0x1000,
    )
    .unwrap();
    let object = object::File::parse(resolved.object.as_slice()).unwrap();
    let addresses: Vec<u64> = object.symbols().map(|s| s.address()).collect();
    assert_eq!(addresses, vec![0x1200]);
}
