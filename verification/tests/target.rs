use subsecond::target::{
    Architecture, BinaryFormat, BuildVersion, Endianness, Environment, OperatingSystem, Target,
    UnrecognizedTriple, PLATFORM_IOS, PLATFORM_IOSSIMULATOR, PLATFORM_MACOS,
};

#[test]
fn reads_the_triple_of_a_mac() {
    let target = Target::parse("aarch64-apple-darwin").unwrap();
    assert_eq!(
        target,
        Target {
            binary_format: Some(BinaryFormat::MachO),
            architecture: Some(Architecture::Aarch64),
            endianness: Some(Endianness::Little),
            operating_system: Some(OperatingSystem::Darwin),
            environment: None,
        }
    );
    assert!(target.is_supported());
    assert_eq!(
        target.build_version(),
        Some(BuildVersion { platform: 1, minos: 11 << 16, sdk: 11 << 16 })
    );
}

#[test]
fn reads_the_triples_of_phones() {
    let phone = Target::parse("aarch64-apple-ios").unwrap();
    assert_eq!(phone.operating_system, Some(OperatingSystem::IOS));
    assert_eq!(phone.environment, None);
    assert_eq!(
        phone.build_version(),
        Some(BuildVersion { platform: 2, minos: 14 << 16, sdk: 14 << 16 })
    );

    let simulator = Target::parse("aarch64-apple-ios-sim").unwrap();
    assert_eq!(simulator.environment, Some(Environment::Sim));
    assert_eq!(
        simulator.build_version(),
        Some(BuildVersion { platform: 7, minos: 14 << 16, sdk: 14 << 16 })
    );

    let android = Target::parse("aarch64-linux-android").unwrap();
    assert_eq!(android.binary_format, Some(BinaryFormat::Elf));
    assert_eq!(android.operating_system, None);
    assert_eq!(android.build_version(), None);
    assert!(android.is_supported());
}

#[test]
fn byte_order_is_little_unless_known_to_be_big() {
    let big = Target::parse("aarch64_be-unknown-linux-gnu").unwrap();
    assert_eq!(big.endianness, Some(Endianness::Big));
    assert_eq!(big.object_endianness(), Endianness::Big);
    let unknown = Target::parse("unknown-unknown-unknown").unwrap();
    assert_eq!(unknown.endianness, None);
    assert_eq!(unknown.object_endianness(), Endianness::Little);
    assert_eq!(
        Target::parse("x86_64-unknown-linux-gnu").unwrap().object_endianness(),
        Endianness::Little
    );
}

#[test]
fn other_formats_and_architectures_are_not_supported() {
    let desktop = Target::parse("x86_64-unknown-linux-gnu").unwrap();
    assert_eq!(desktop.architecture, Some(Architecture::X86_64));
    assert!(!desktop.is_supported());
    let windows = Target::parse("aarch64-pc-windows-msvc").unwrap();
    assert_eq!(windows.binary_format, None);
    assert!(!windows.is_supported());
    let web = Target::parse("wasm32-unknown-unknown").unwrap();
    assert_eq!(web.architecture, None);
    assert!(!web.is_supported());
}

#[test]
fn refuses_what_is_no_triple() {
    assert_eq!(Target::parse(""), Err(UnrecognizedTriple));
    assert_eq!(Target::parse("nonsense"), Err(UnrecognizedTriple));
}

#[test]
fn platform_numbers_are_those_of_mach_o() {
    assert_eq!(PLATFORM_MACOS, object::macho::PLATFORM_MACOS);
    assert_eq!(PLATFORM_IOS, object::macho::PLATFORM_IOS);
    assert_eq!(PLATFORM_IOSSIMULATOR, object::macho::PLATFORM_IOSSIMULATOR);
}
