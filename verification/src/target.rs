//! The parts of a target triple that a patch object depends on.

use vstd::prelude::*;
use target_lexicon::{
    Architecture as Arch, BinaryFormat as Format, Endianness as Order, Environment as Env,
    OperatingSystem as Os, Triple,
};

verus! {

/// A container format that patch objects are written in.
#[derive(Clone, Copy, Debug, PartialEq, Eq, Structural)]
pub enum BinaryFormat {
    Elf,
    MachO,
}

/// An instruction set that has a jump stub.
#[derive(Clone, Copy, Debug, PartialEq, Eq, Structural)]
pub enum Architecture {
    X86_64,
    Aarch64,
}

/// A byte order.
#[derive(Clone, Copy, Debug, PartialEq, Eq, Structural)]
pub enum Endianness {
    Little,
    Big,
}

/// An operating system whose loader asks for a build version.
#[derive(Clone, Copy, Debug, PartialEq, Eq, Structural)]
pub enum OperatingSystem {
    Darwin,
    IOS,
}

/// An environment that changes the platform number of a build version.
#[derive(Clone, Copy, Debug, PartialEq, Eq, Structural)]
pub enum Environment {
    Sim,
}

/// What a target triple says about the objects of that target. Each field is
/// `None` where the triple names something that gets no treatment of its own.
#[derive(Clone, Copy, Debug, PartialEq, Eq, Structural)]
pub struct Target {
    pub binary_format: Option<BinaryFormat>,
    pub architecture: Option<Architecture>,
    /// `None` where the architecture has no known byte order.
    pub endianness: Option<Endianness>,
    pub operating_system: Option<OperatingSystem>,
    pub environment: Option<Environment>,
}

/// The platform, the oldest supported system and the SDK that a Mach-O object
/// was built for. Versions are packed as `major << 16 | minor << 8 | patch`.
#[derive(Clone, Copy, Debug, PartialEq, Eq, Structural)]
pub struct BuildVersion {
    pub platform: u32,
    pub minos: u32,
    pub sdk: u32,
}

/// The Mach-O platform number of macOS.
pub const PLATFORM_MACOS: u32 = 1;

/// The Mach-O platform number of iOS.
pub const PLATFORM_IOS: u32 = 2;

/// The Mach-O platform number of the iOS simulator.
pub const PLATFORM_IOSSIMULATOR: u32 = 7;

/// macOS 11.0.0, packed.
pub const MACOS_VERSION: u32 = 0xb_0000;

/// iOS 14.0.0, packed.
pub const IOS_VERSION: u32 = 0xe_0000;

/// The error for a string that is no target triple.
#[derive(Clone, Copy, Debug, PartialEq, Eq, Structural)]
pub struct UnrecognizedTriple;

/// What `target_lexicon` says about a string: the target that it names as a
/// triple, or `None` where it is not one.
pub uninterp spec fn triple_target(triple: Seq<char>) -> Option<Target>;

/// The reasons `target_lexicon` has for refusing a triple.
#[verifier::external_type_specification]
#[verifier::external_body]
pub struct ExParseError(target_lexicon::ParseError);

/// Calls `target_lexicon`'s `<Triple as FromStr>::from_str`, and `Triple::endianness`
/// on what it returns. Claims that the outcome depends on the string alone: it is the
/// target that `triple_target` gives for the string, or an error where that is `None`.
#[verifier::external_body]
fn parse_triple(triple: &str) -> (r: Result<Target, target_lexicon::ParseError>)
    ensures
        match r {
            Ok(target) => triple_target(triple@) == Some(target),
            Err(_) => triple_target(triple@) is None,
        },
{
    let t: Triple = triple.parse()?;
    Ok(Target {
        binary_format: match t.binary_format { Format::Elf => Some(BinaryFormat::Elf), Format::Macho => Some(BinaryFormat::MachO), _ => None },
        architecture: match t.architecture { Arch::X86_64 => Some(Architecture::X86_64), Arch::Aarch64(_) => Some(Architecture::Aarch64), _ => None },
        endianness: match t.endianness() { Ok(Order::Little) => Some(Endianness::Little), Ok(Order::Big) => Some(Endianness::Big), Err(()) => None },
        operating_system: match t.operating_system { Os::Darwin(_) => Some(OperatingSystem::Darwin), Os::IOS(_) => Some(OperatingSystem::IOS), _ => None },
        environment: match t.environment { Env::Sim => Some(Environment::Sim), _ => None },
    })
}

impl Target {
    /// Whether patch objects can be written for this target.
    pub open spec fn supported(self) -> bool {
        self.binary_format is Some && self.architecture == Some(Architecture::Aarch64)
    }

    /// The byte order of the target's objects: little endian unless the target is
    /// known to be big endian.
    pub open spec fn byte_order(self) -> Endianness {
        if self.endianness == Some(Endianness::Big) {
            Endianness::Big
        } else {
            Endianness::Little
        }
    }

    /// The build version that the target's loader asks for.
    pub open spec fn version(self) -> Option<BuildVersion> {
        match self.operating_system {
            Some(OperatingSystem::Darwin) => Some(
                BuildVersion {
                    platform: PLATFORM_MACOS,
                    minos: MACOS_VERSION,
                    sdk: MACOS_VERSION,
                },
            ),
            Some(OperatingSystem::IOS) => Some(
                BuildVersion {
                    platform: if self.environment is Some {
                        PLATFORM_IOSSIMULATOR
                    } else {
                        PLATFORM_IOS
                    },
                    minos: IOS_VERSION,
                    sdk: IOS_VERSION,
                },
            ),
            None => None,
        }
    }

    /// Reads a target triple such as `aarch64-apple-darwin`.
    pub fn parse(triple: &str) -> (r: Result<Target, UnrecognizedTriple>)
        ensures
            match r {
                Ok(target) => triple_target(triple@) == Some(target),
                Err(_) => triple_target(triple@) is None,
            },
    {
        match parse_triple(triple) {
            Ok(target) => Ok(target),
            Err(_) => Err(UnrecognizedTriple),
        }
    }

    /// Whether patch objects can be written for this target: ELF and Mach-O on
    /// AArch64.
    pub fn is_supported(&self) -> (r: bool)
        ensures
            r == self.supported(),
    {
        match (self.binary_format, self.architecture) {
            (Some(_), Some(Architecture::Aarch64)) => true,
            _ => false,
        }
    }

    /// The byte order to write an object in.
    pub fn object_endianness(&self) -> (r: Endianness)
        ensures
            r == self.byte_order(),
    {
        match self.endianness {
            Some(Endianness::Big) => Endianness::Big,
            _ => Endianness::Little,
        }
    }

    /// The build version to put into an object so that it loads on macOS and iOS.
    pub fn build_version(&self) -> (r: Option<BuildVersion>)
        ensures
            r == self.version(),
    {
        match self.operating_system {
            Some(OperatingSystem::Darwin) => Some(
                BuildVersion {
                    platform: PLATFORM_MACOS,
                    minos: MACOS_VERSION,
                    sdk: MACOS_VERSION,
                },
            ),
            Some(OperatingSystem::IOS) => {
                let platform: u32 = match self.environment {
                    Some(Environment::Sim) => PLATFORM_IOSSIMULATOR,
                    None => PLATFORM_IOS,
                };
                Some(BuildVersion { platform, minos: IOS_VERSION, sdk: IOS_VERSION })
            },
            None => None,
        }
    }
}

/// The byte order of a target's objects is its own where that is known, whatever else the
/// target is, and little endian where it is not.
pub proof fn law_byte_order(target: Target)
    ensures
        target.endianness == Some(Endianness::Little) ==> target.byte_order()
            == Endianness::Little,
        target.endianness == Some(Endianness::Big) ==> target.byte_order() == Endianness::Big,
        target.endianness is None ==> target.byte_order() == Endianness::Little,
{
}

/// Objects for macOS are for platform 1 and version 11.0.0. Those for iOS are for version
/// 14.0.0, and for platform 7 in the simulator and 2 elsewhere. Others have no build version.
/// A version number has its major part above the lowest sixteen bits.
pub proof fn law_build_version(target: Target)
    ensures
        target.operating_system is None <==> target.version() is None,
        target.operating_system == Some(OperatingSystem::Darwin) ==> {
            let version = target.version()->0;
            version.platform == 1 && version.minos == 11 * 0x1_0000 && version.sdk == 11
                * 0x1_0000
        },
        target.operating_system == Some(OperatingSystem::IOS) ==> {
            let version = target.version()->0;
            &&& version.minos == 14 * 0x1_0000 && version.sdk == 14 * 0x1_0000
            &&& target.environment == Some(Environment::Sim) ==> version.platform == 7
            &&& target.environment is None ==> version.platform == 2
        },
{
}

/// Patch objects can be written for AArch64 in ELF and in Mach-O, whatever else the target
/// is, and for nothing else.
pub proof fn law_supported_targets(target: Target)
    ensures
        target.architecture == Some(Architecture::Aarch64) && target.binary_format == Some(
            BinaryFormat::Elf,
        ) ==> target.supported(),
        target.architecture == Some(Architecture::Aarch64) && target.binary_format == Some(
            BinaryFormat::MachO,
        ) ==> target.supported(),
        target.architecture != Some(Architecture::Aarch64) ==> !target.supported(),
        target.binary_format is None ==> !target.supported(),
{
}

} // verus!
