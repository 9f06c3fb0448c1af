//! Reading and writing object files with the `object` crate.

use vstd::prelude::*;
use object::read::coff::ImageSymbol as _;
use object::read::File;
use object::write::SymbolSection as Place;
use object::{Object as _, ObjectSymbol as _, SymbolKind as Kind, SymbolScope as Scope};
use crate::symbols::{Link, LinkEntry, SymbolKind, Unplaced, UnplacedEntry, links, unplaced};
use crate::target::{Architecture, BinaryFormat, BuildVersion, Endianness};

verus! {

/// Where a symbol may be seen from.
#[derive(Clone, Copy, Debug, PartialEq, Eq, Structural)]
pub enum SymbolScope {
    Compilation,
    Linkage,
    Dynamic,
}

/// Where a symbol of an object under construction lives.
pub enum SymbolPlace {
    /// At an offset into the text section.
    Text,
    /// At an absolute address.
    Absolute,
}

/// A symbol of an object under construction.
pub struct ObjectSymbol {
    pub name: Seq<u8>,
    pub value: int,
    pub size: int,
    pub kind: SymbolKind,
    pub scope: SymbolScope,
    pub weak: bool,
    pub place: SymbolPlace,
}

/// The text section of an object under construction.
#[verifier::ext_equal]
pub struct TextSection {
    pub align: u64,
    pub data: Seq<u8>,
}

/// All that an object under construction holds.
#[verifier::ext_equal]
pub struct ObjectContents {
    pub format: BinaryFormat,
    pub architecture: Architecture,
    pub endianness: Endianness,
    /// Whether symbols for code and data that are added get an underscore in front of
    /// their names.
    pub underscores: bool,
    pub build_version: Option<BuildVersion>,
    pub text: Option<TextSection>,
    pub symbols: Seq<ObjectSymbol>,
}

/// A symbol to be added to an object under construction.
pub struct NewSymbol {
    pub name: Vec<u8>,
    pub value: u64,
    pub size: u64,
    pub kind: SymbolKind,
    pub scope: SymbolScope,
    pub weak: bool,
    /// The section that `value` is an offset into; `None` where it is an address.
    pub section: Option<object::write::SectionId>,
}

impl View for NewSymbol {
    type V = ObjectSymbol;

    open spec fn view(&self) -> ObjectSymbol {
        ObjectSymbol {
            name: self.name@,
            value: self.value as int,
            size: self.size as int,
            kind: self.kind,
            scope: self.scope,
            weak: self.weak,
            place: if self.section is Some {
                SymbolPlace::Text
            } else {
                SymbolPlace::Absolute
            },
        }
    }
}

/// The smallest multiple of `align` that is at least `n`.
pub open spec fn align_up(n: nat, align: nat) -> nat {
    if n % align == 0 {
        n
    } else {
        (n + align - n % align) as nat
    }
}

/// A section's data once `code` was put at its next multiple of `align`, with zeros
/// in between.
pub open spec fn appended(data: Seq<u8>, code: Seq<u8>, align: nat) -> Seq<u8> {
    data + Seq::new((align_up(data.len(), align) - data.len()) as nat, |i: int| 0u8) + code
}

/// Whether the `object` crate has no encoding for one of an object's symbols.
pub open spec fn unencodable(contents: ObjectContents) -> bool {
    exists|i: int|
        0 <= i < contents.symbols.len() && (#[trigger] contents.symbols[i]).kind == (
        match contents.format {
            BinaryFormat::Elf => SymbolKind::Unknown,
            BinaryFormat::MachO => SymbolKind::Label,
        })
}

/// The error of the `object` crate's readers.
#[verifier::external_type_specification]
#[verifier::external_body]
pub struct ExReadError(object::read::Error);

/// The error of the `object` crate's writers.
#[verifier::external_type_specification]
#[verifier::external_body]
pub struct ExWriteError(object::write::Error);

/// An object file under construction.
#[verifier::external_type_specification]
#[verifier::external_body]
pub struct ExObject<'a>(object::write::Object<'a>);

/// The handle of one section of an object file under construction.
#[verifier::external_type_specification]
#[verifier::external_body]
pub struct ExSectionId(object::write::SectionId);

/// The symbol table of a program that the `object` crate reads out of a file's bytes, in
/// the file's order and without addresses, or why it does not take the bytes for an object
/// file.
pub uninterp spec fn file_symbols(bytes: Seq<u8>) -> Result<Seq<Unplaced>, object::read::Error>;

/// How far each of these symbols is from the base address of the file, or `None` for those
/// without an address, or why the `object` crate does not take the bytes for an object file.
pub uninterp spec fn file_offsets(bytes: Seq<u8>) -> Result<
    Seq<Option<u64>>,
    object::read::Error,
>;

/// What the symbol table that the `object` crate reads out of a file's bytes says to other
/// files, in the file's order, or why the crate does not take the bytes for an object file.
pub uninterp spec fn file_links(bytes: Seq<u8>) -> Result<Seq<Link>, object::read::Error>;

/// The address that the `object` crate says a file is meant to be loaded at, or why it does
/// not take the bytes for an object file.
pub uninterp spec fn file_base(bytes: Seq<u8>) -> Result<u64, object::read::Error>;

/// What an object under construction holds: its header, its text section and the symbols
/// it was given, in order. Writing it leaves out symbols of kind `File` in Mach-O, which has
/// none.
pub uninterp spec fn contents(object: object::write::Object<'static>) -> ObjectContents;

/// The handle of the text section of an object under construction, once there is one.
pub uninterp spec fn text_id(object: object::write::Object<'static>) -> Option<
    object::write::SectionId,
>;

/// The bytes that the `object` crate writes for an object, or why it does not.
pub uninterp spec fn object_bytes(contents: ObjectContents) -> Result<
    Seq<u8>,
    object::write::Error,
>;

/// Calls `object::read::File::parse`, and on the file `Object::relative_address_base`.
/// Claims that the outcome depends on the bytes alone: it is what `file_base` gives for
/// them.
#[verifier::external_body]
pub(crate) fn read_base(data: &Vec<u8>) -> (r: Result<u64, object::read::Error>)
    ensures
        r == file_base(data@),
{
    let file = File::parse(data.as_slice())?;
    Ok(file.relative_address_base())
}

/// Calls `object::read::File::parse`, and on the file `Object::symbols` and, for each
/// symbol, `name`, `is_undefined` and `is_global` of `ObjectSymbol`. Claims that the outcome
/// depends on the bytes alone: it is what `file_links` gives for them.
#[verifier::external_body]
pub(crate) fn read_links(data: &Vec<u8>) -> (r: Result<Vec<LinkEntry>, object::read::Error>)
    ensures
        match r {
            Ok(entries) => file_links(data@) == Ok::<_, object::read::Error>(links(entries@)),
            Err(error) => file_links(data@) == Err::<Seq<Link>, _>(error),
        },
{
    let file = File::parse(data.as_slice())?;
    Ok(file.symbols().map(|s| LinkEntry {
        name: s.name().map(String::from),
        undefined: s.is_undefined(),
        global: s.is_global(),
    }).collect())
}

/// Calls `object::read::File::parse`, and on the file `Object::symbols` and, for each
/// symbol, `name`, `kind` and `is_weak` of `ObjectSymbol`. Claims that the outcome depends on
/// the bytes alone: it is what `file_symbols` gives for them.
#[verifier::external_body]
pub(crate) fn read_symbols(data: &Vec<u8>) -> (r: Result<Vec<UnplacedEntry>, object::read::Error>)
    ensures
        match r {
            Ok(entries) => file_symbols(data@) == Ok::<_, object::read::Error>(unplaced(entries@)),
            Err(error) => file_symbols(data@) == Err::<Seq<Unplaced>, _>(error),
        },
{
    let file = File::parse(data.as_slice())?;
    Ok(file.symbols().map(|s| UnplacedEntry {
        name: s.name().ok().map(String::from), weak: s.is_weak(),
        kind: match s.kind() {
            Kind::Text => SymbolKind::Text, Kind::Data => SymbolKind::Data,
            Kind::Section => SymbolKind::Section, Kind::File => SymbolKind::File,
            Kind::Label => SymbolKind::Label, Kind::Tls => SymbolKind::Tls,
            _ => SymbolKind::Unknown,
        },
    }).collect())
}

/// Calls `object::read::File::parse`, and on the file `Object::symbols` and, for each
/// symbol, `ObjectSymbol::address`. In PE files, whose symbols have addresses behind a base
/// that may leave no room for them, it calls `ImageSymbol::address` with a base of 0 instead:
/// what `ObjectSymbol::address` gives there is the sum of the file's base and this, or 0 where
/// there is none. Claims that the outcome depends on the bytes alone: it is what
/// `file_offsets` gives for them, one for each symbol of `file_symbols`.
#[verifier::external_body]
pub(crate) fn read_offsets(data: &Vec<u8>) -> (r: Result<Vec<Option<u64>>, object::read::Error>)
    ensures
        match r {
            Ok(offsets) => {
                &&& file_offsets(data@) == Ok::<_, object::read::Error>(offsets@)
                &&& file_symbols(data@) matches Ok(table) ==> table.len() == offsets@.len()
            },
            Err(error) => file_offsets(data@) == Err::<Seq<Option<u64>>, _>(error),
        },
{
    let file = File::parse(data.as_slice())?;
    Ok(match &file {
        File::Pe32(pe) => pe.symbols()
            .map(|s| s.coff_symbol().address(0, &pe.section_table()).ok().flatten()).collect(),
        File::Pe64(pe) => pe.symbols()
            .map(|s| s.coff_symbol().address(0, &pe.section_table()).ok().flatten()).collect(),
        _ => file.symbols().map(|s| Some(s.address())).collect(),
    })
}

/// Calls `object::write::Object::new`. Claims that the object has the given header and
/// holds nothing else. Names get an underscore in front of them in Mach-O.
#[verifier::external_body]
pub(crate) fn new_object(
    format: BinaryFormat,
    architecture: Architecture,
    endianness: Endianness,
) -> (r: object::write::Object<'static>)
    ensures
        contents(r) == (ObjectContents {
            format,
            architecture,
            endianness,
            underscores: format == BinaryFormat::MachO,
            build_version: None,
            text: None,
            symbols: Seq::empty(),
        }),
        text_id(r) is None,
{
    object::write::Object::new(
        match format { BinaryFormat::Elf => object::BinaryFormat::Elf, BinaryFormat::MachO => object::BinaryFormat::MachO },
        match architecture { Architecture::X86_64 => object::Architecture::X86_64, Architecture::Aarch64 => object::Architecture::Aarch64 },
        match endianness { Endianness::Little => object::Endianness::Little, Endianness::Big => object::Endianness::Big },
    )
}

/// Calls `object::write::Object::set_mangling` with no mangling. Claims that names no longer
/// get an underscore in front of them and that nothing else changes.
#[verifier::external_body]
pub(crate) fn disable_mangling(object: &mut object::write::Object<'static>)
    ensures
        contents(*final(object)) == (ObjectContents {
            underscores: false,
            ..contents(*old(object))
        }),
        text_id(*final(object)) == text_id(*old(object)),
{
    object.set_mangling(object::write::Mangling::None);
}

/// Calls `object::write::Object::set_macho_build_version`. Claims that the object's
/// build version becomes the given one and that nothing else changes.
#[verifier::external_body]
pub(crate) fn set_build_version(
    object: &mut object::write::Object<'static>,
    version: BuildVersion,
)
    ensures
        contents(*final(object)) == (ObjectContents {
            build_version: Some(version),
            ..contents(*old(object))
        }),
        text_id(*final(object)) == text_id(*old(object)),
{
    let mut info = object::write::MachOBuildVersion::default();
    info.platform = version.platform;
    info.minos = version.minos;
    info.sdk = version.sdk;
    object.set_macho_build_version(info);
}

/// Calls `object::write::Object::section_id` for the standard text section, on an
/// object that has none yet. Claims that it makes an empty one, with an alignment of 1,
/// whose handle it returns, and that nothing else changes.
#[verifier::external_body]
pub(crate) fn add_text_section(object: &mut object::write::Object<'static>) -> (id:
    object::write::SectionId)
    requires
        contents(*old(object)).text is None,
    ensures
        contents(*final(object)) == (ObjectContents {
            text: Some(TextSection { align: 1, data: Seq::empty() }),
            ..contents(*old(object))
        }),
        text_id(*final(object)) == Some(id),
{
    object.section_id(object::write::StandardSection::Text)
}

/// Calls `object::write::Object::append_section_data` on the text section. Claims that
/// the data is put at the section's next multiple of `align`, with zeros in front of it,
/// that the offset it was put at is returned, that the section's alignment becomes at
/// least `align`, and that nothing else changes.
#[verifier::external_body]
pub(crate) fn append_text(
    object: &mut object::write::Object<'static>,
    section: object::write::SectionId,
    data: &Vec<u8>,
    align: u64,
) -> (offset: u64)
    requires
        text_id(*old(object)) == Some(section),
        contents(*old(object)).text is Some,
        0 < align <= usize::MAX,
        align & (align - 1) as u64 == 0,
    ensures
        text_id(*final(object)) == Some(section),
        ({
            let text = contents(*old(object)).text->0;
            &&& offset == align_up(text.data.len(), align as nat)
            &&& contents(*final(object)) == (ObjectContents {
                text: Some(
                    TextSection {
                        align: if text.align < align {
                            align
                        } else {
                            text.align
                        },
                        data: appended(text.data, data@, align as nat),
                    },
                ),
                ..contents(*old(object))
            })
        }),
{
    object.append_section_data(section, data, align)
}

/// Calls `object::write::Object::add_symbol` with a symbol that has no flags of its own.
/// Claims that the symbol goes behind those the object already has and that nothing else
/// changes. Objects that put underscores in front of names are left out, and symbols of kind
/// `Section`: for them the function does not add a symbol, and panics where they name no
/// section.
#[verifier::external_body]
pub(crate) fn add_symbol(object: &mut object::write::Object<'static>, symbol: NewSymbol)
    requires
        !contents(*old(object)).underscores,
        symbol.kind != SymbolKind::Section,
        symbol.section is Some ==> symbol.section == text_id(*old(object)),
    ensures
        contents(*final(object)) == (ObjectContents {
            symbols: contents(*old(object)).symbols.push(symbol@),
            ..contents(*old(object))
        }),
        text_id(*final(object)) == text_id(*old(object)),
{
    object.add_symbol(object::write::Symbol {
        name: symbol.name, value: symbol.value, size: symbol.size, weak: symbol.weak,
        kind: match symbol.kind {
            SymbolKind::Unknown => Kind::Unknown, SymbolKind::Text => Kind::Text, SymbolKind::Data => Kind::Data,
            SymbolKind::Section => Kind::Section, SymbolKind::File => Kind::File, SymbolKind::Label => Kind::Label,
            SymbolKind::Tls => Kind::Tls,
        },
        scope: match symbol.scope {
            SymbolScope::Compilation => Scope::Compilation, SymbolScope::Linkage => Scope::Linkage, SymbolScope::Dynamic => Scope::Dynamic,
        },
        section: match symbol.section { Some(id) => Place::Section(id), None => Place::Absolute },
        flags: object::SymbolFlags::None,
    });
}

/// Calls `object::write::Object::write`. Claims that the outcome depends on the object's
/// contents alone, and that the only objects it refuses are those with a symbol of a
/// kind that the format has no encoding for: `Unknown` in ELF, `Label` in Mach-O. Names
/// with a zero byte are left out: the function panics on them.
#[verifier::external_body]
pub(crate) fn write_object(object: &object::write::Object<'static>) -> (r: Result<
    Vec<u8>,
    object::write::Error,
>)
    requires
        forall|i: int|
            0 <= i < contents(*object).symbols.len() ==> !(
            #[trigger] contents(*object).symbols[i]).name.contains(0u8),
    ensures
        r is Err <==> unencodable(contents(*object)),
        match r {
            Ok(bytes) => object_bytes(contents(*object)) == Ok::<_, object::write::Error>(bytes@),
            Err(error) => object_bytes(contents(*object)) == Err::<Seq<u8>, _>(error),
        },
{
    object.write()
}

/// Data that is put behind a section's comes at the first multiple of the alignment that is
/// not below the section's end, with zeros up to there, and leaves what was there.
pub proof fn law_appended(data: Seq<u8>, code: Seq<u8>, align: nat)
    requires
        align > 0,
    ensures
        align_up(data.len(), align) % align == 0,
        data.len() <= align_up(data.len(), align) < data.len() + align,
        appended(data, code, align).len() == align_up(data.len(), align) + code.len(),
        forall|k: int| 0 <= k < data.len() ==> appended(data, code, align)[k] == data[k],
        forall|k: int|
            data.len() <= k < align_up(data.len(), align) ==> appended(data, code, align)[k] == 0,
        forall|k: int|
            0 <= k < code.len() ==> appended(data, code, align)[align_up(data.len(), align) + k]
                == #[trigger] code[k],
{
    let n = data.len();
    if n % align != 0 {
        vstd::arithmetic::div_mod::lemma_fundamental_div_mod(n as int, align as int);
        let q = n as int / align as int;
        let rest = n as int % align as int;
        assert(n + align - rest == (q + 1) * align) by (nonlinear_arith)
            requires
                n == align * q + rest,
        ;
        vstd::arithmetic::div_mod::lemma_mod_multiples_basic(q + 1, align as int);
    }
}

/// The objects that cannot be written are those with a symbol of kind `Unknown` in ELF, and
/// of kind `Label` in Mach-O.
pub proof fn law_unencodable(object: ObjectContents)
    ensures
        object.format == BinaryFormat::Elf ==> (unencodable(object) <==> exists|i: int|
            0 <= i < object.symbols.len() && (#[trigger] object.symbols[i]).kind
                == SymbolKind::Unknown),
        object.format == BinaryFormat::MachO ==> (unencodable(object) <==> exists|i: int|
            0 <= i < object.symbols.len() && (#[trigger] object.symbols[i]).kind
                == SymbolKind::Label),
{
}

} // verus!
