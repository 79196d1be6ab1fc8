use vstd::prelude::*;

verus! {

/// Error produced when a raw value cannot be mapped onto one of the
/// declared enumeration variants.
#[derive(Debug, Clone, Copy)]
pub enum Error {
    Parse(&'static str),
}

impl Error {
    /// The human-readable message carried by this error.
    pub fn message(&self) -> (m: &'static str)
        ensures
            self matches Error::Parse(s) && m == s,
    {
        match self {
            Error::Parse(s) => s,
        }
    }
}

/// Byte order of the target binary's debug sections.
#[derive(Debug, PartialEq, Eq, Structural, Clone, Copy)]
pub enum Endianness {
    Little,
    Big,
}

impl Endianness {
    /// Whether this is the big-endian byte order.
    pub fn is_big_endian(self) -> (r: bool)
        ensures
            r == (self == Endianness::Big),
    {
        match self {
            Endianness::Big => true,
            Endianness::Little => false,
        }
    }
}

impl Default for Endianness {
    /// The byte order assumed when none is given: little-endian.
    fn default() -> (r: Endianness)
        ensures
            r == Endianness::Little,
    {
        Endianness::Little
    }
}

/// Represents a family of CPUs.
#[derive(Debug, PartialEq, Eq, Structural, Clone, Copy)]
pub enum CpuFamily {
    Intel32,
    Intel64,
    Arm32,
    Arm64,
    Unknown,
}

/// An enum of supported architectures.
#[derive(Debug, PartialEq, Eq, Structural, Clone, Copy)]
#[allow(non_camel_case_types)]
pub enum Arch {
    Unknown,
    X86,
    X86_64,
    ArmV5,
    ArmV6,
    ArmV7,
    ArmV7f,
    ArmV7s,
    ArmV7k,
    ArmV7m,
    ArmV7em,
    Arm64,
    __Max,
}

impl Default for Arch {
    /// The architecture assumed when none is known.
    fn default() -> (r: Arch)
        ensures
            r == Arch::Unknown,
    {
        Arch::Unknown
    }
}

/// The architecture denoted by a raw numeric encoding, if the value is
/// one of the declared variants.
pub open spec fn arch_from_u32_spec(val: u32) -> Option<Arch> {
    if val == 0 {
        Some(Arch::Unknown)
    } else if val == 1 {
        Some(Arch::X86)
    } else if val == 2 {
        Some(Arch::X86_64)
    } else if val == 3 {
        Some(Arch::ArmV5)
    } else if val == 4 {
        Some(Arch::ArmV6)
    } else if val == 5 {
        Some(Arch::ArmV7)
    } else if val == 6 {
        Some(Arch::ArmV7f)
    } else if val == 7 {
        Some(Arch::ArmV7s)
    } else if val == 8 {
        Some(Arch::ArmV7k)
    } else if val == 9 {
        Some(Arch::ArmV7m)
    } else if val == 10 {
        Some(Arch::ArmV7em)
    } else if val == 11 {
        Some(Arch::Arm64)
    } else {
        None
    }
}

/// The architecture denoted by a textual name, if any.
pub open spec fn arch_parse_spec(s: Seq<char>) -> Option<Arch> {
    if s == "x86"@ {
        Some(Arch::X86)
    } else if s == "x86_64"@ {
        Some(Arch::X86_64)
    } else if s == "arm64"@ {
        Some(Arch::Arm64)
    } else if s == "armv5"@ {
        Some(Arch::ArmV5)
    } else if s == "armv6"@ {
        Some(Arch::ArmV6)
    } else if s == "armv7"@ {
        Some(Arch::ArmV7)
    } else if s == "armv7f"@ {
        Some(Arch::ArmV7f)
    } else if s == "armv7s"@ {
        Some(Arch::ArmV7s)
    } else if s == "armv7k"@ {
        Some(Arch::ArmV7k)
    } else if s == "armv7m"@ {
        Some(Arch::ArmV7m)
    } else if s == "armv7em"@ {
        Some(Arch::ArmV7em)
    } else {
        None
    }
}

impl Arch {
    /// The CPU family this architecture belongs to.
    pub open spec fn cpu_family_spec(self) -> CpuFamily {
        match self {
            Arch::Unknown | Arch::__Max => CpuFamily::Unknown,
            Arch::X86 => CpuFamily::Intel32,
            Arch::X86_64 => CpuFamily::Intel64,
            Arch::Arm64 => CpuFamily::Arm64,
            Arch::ArmV5 | Arch::ArmV6 | Arch::ArmV7 | Arch::ArmV7f | Arch::ArmV7s
            | Arch::ArmV7k | Arch::ArmV7m | Arch::ArmV7em => CpuFamily::Arm32,
        }
    }

    /// The textual name of this architecture.
    pub open spec fn name_spec(self) -> Seq<char> {
        match self {
            Arch::Unknown | Arch::__Max => "unknown"@,
            Arch::X86 => "x86"@,
            Arch::X86_64 => "x86_64"@,
            Arch::Arm64 => "arm64"@,
            Arch::ArmV5 => "armv5"@,
            Arch::ArmV6 => "armv6"@,
            Arch::ArmV7 => "armv7"@,
            Arch::ArmV7f => "armv7f"@,
            Arch::ArmV7s => "armv7s"@,
            Arch::ArmV7k => "armv7k"@,
            Arch::ArmV7m => "armv7m"@,
            Arch::ArmV7em => "armv7em"@,
        }
    }

    /// Creates an arch from the u32 it represents; values past the last
    /// declared variant are rejected.
    pub fn from_u32(val: u32) -> (r: Result<Arch, Error>)
        ensures
            match arch_from_u32_spec(val) {
                Some(a) => r == Ok::<Arch, Error>(a),
                None => r matches Err(Error::Parse(m)) && m == "unknown architecture",
            },
    {
        match val {
            0u32 => Ok(Arch::Unknown),
            1u32 => Ok(Arch::X86),
            2u32 => Ok(Arch::X86_64),
            3u32 => Ok(Arch::ArmV5),
            4u32 => Ok(Arch::ArmV6),
            5u32 => Ok(Arch::ArmV7),
            6u32 => Ok(Arch::ArmV7f),
            7u32 => Ok(Arch::ArmV7s),
            8u32 => Ok(Arch::ArmV7k),
            9u32 => Ok(Arch::ArmV7m),
            10u32 => Ok(Arch::ArmV7em),
            11u32 => Ok(Arch::Arm64),
            _ => Err(Error::Parse("unknown architecture")),
        }
    }

    /// Constructs an architecture from Mach-O CPU types: the textual
    /// name the Mach-O tables give the pair is parsed as an
    /// architecture name; a pair without a name, or with a name this
    /// library does not know, is rejected.
    pub fn from_mach(cputype: u32, cpusubtype: u32) -> (r: Result<Arch, Error>)
        ensures
            r matches Ok(a) ==> exists|s: Seq<char>| arch_parse_spec(s) == Some(a),
            r matches Err(e) ==> e matches Error::Parse(m) && m == "unknown architecture",
    {
        let ty = #[verifier::truncate] (cputype as i32);
        let subty = #[verifier::truncate] (cpusubtype as i32);
        match mach_arch_name(ty, subty) {
            Some(arch) => {
                let r = Arch::parse(arch);
                proof {
                    if r is Ok {
                        assert(arch_parse_spec(arch@) == Some(r->Ok_0));
                    }
                }
                r
            },
            None => Err(Error::Parse("unknown architecture")),
        }
    }

    /// Constructs an architecture from an ELF machine value: 3 names
    /// the 32-bit Intel machine, 62 the 64-bit Intel machine, and 40
    /// the ARM machine (taken as ARMv7); every other value is
    /// rejected.
    pub fn from_elf(machine: u16) -> (r: Result<Arch, Error>)
        ensures
            machine == 3 ==> r == Ok::<Arch, Error>(Arch::X86),
            machine == 62 ==> r == Ok::<Arch, Error>(Arch::X86_64),
            machine == 40 ==> r == Ok::<Arch, Error>(Arch::ArmV7),
            machine != 3 && machine != 62 && machine != 40 ==> (r matches Err(Error::Parse(m))
                && m == "unknown architecture"),
    {
        match machine {
            3u16 => Ok(Arch::X86),
            62u16 => Ok(Arch::X86_64),
            40u16 => Ok(Arch::ArmV7),
            _ => Err(Error::Parse("unknown architecture")),
        }
    }

    /// Parses an architecture from a string.
    pub fn parse(string: &str) -> (r: Result<Arch, Error>)
        ensures
            match arch_parse_spec(string@) {
                Some(a) => r == Ok::<Arch, Error>(a),
                None => r matches Err(Error::Parse(m)) && m == "unknown architecture",
            },
    {
        if str_eq(string, "x86") {
            Ok(Arch::X86)
        } else if str_eq(string, "x86_64") {
            Ok(Arch::X86_64)
        } else if str_eq(string, "arm64") {
            Ok(Arch::Arm64)
        } else if str_eq(string, "armv5") {
            Ok(Arch::ArmV5)
        } else if str_eq(string, "armv6") {
            Ok(Arch::ArmV6)
        } else if str_eq(string, "armv7") {
            Ok(Arch::ArmV7)
        } else if str_eq(string, "armv7f") {
            Ok(Arch::ArmV7f)
        } else if str_eq(string, "armv7s") {
            Ok(Arch::ArmV7s)
        } else if str_eq(string, "armv7k") {
            Ok(Arch::ArmV7k)
        } else if str_eq(string, "armv7m") {
            Ok(Arch::ArmV7m)
        } else if str_eq(string, "armv7em") {
            Ok(Arch::ArmV7em)
        } else {
            Err(Error::Parse("unknown architecture"))
        }
    }

    /// Returns the CPU family.
    pub fn cpu_family(&self) -> (r: CpuFamily)
        ensures
            r == self.cpu_family_spec(),
    {
        match *self {
            Arch::Unknown | Arch::__Max => CpuFamily::Unknown,
            Arch::X86 => CpuFamily::Intel32,
            Arch::X86_64 => CpuFamily::Intel64,
            Arch::Arm64 => CpuFamily::Arm64,
            Arch::ArmV5 | Arch::ArmV6 | Arch::ArmV7 | Arch::ArmV7f | Arch::ArmV7s
            | Arch::ArmV7k | Arch::ArmV7m | Arch::ArmV7em => CpuFamily::Arm32,
        }
    }

    /// Returns the native pointer size in bytes, or `None` when the
    /// architecture is unknown.
    pub fn pointer_size(&self) -> (r: Option<usize>)
        ensures
            r == match *self {
                Arch::Unknown | Arch::__Max => None::<usize>,
                Arch::X86_64 | Arch::Arm64 => Some(8usize),
                _ => Some(4usize),
            },
    {
        match *self {
            Arch::Unknown | Arch::__Max => None,
            Arch::X86_64 | Arch::Arm64 => Some(8),
            Arch::X86 | Arch::ArmV5 | Arch::ArmV6 | Arch::ArmV7 | Arch::ArmV7f
            | Arch::ArmV7s | Arch::ArmV7k | Arch::ArmV7m | Arch::ArmV7em => Some(4),
        }
    }

    /// Returns the name of the arch.
    pub fn name(&self) -> (r: &'static str)
        ensures
            r@ == self.name_spec(),
    {
        match *self {
            Arch::Unknown | Arch::__Max => "unknown",
            Arch::X86 => "x86",
            Arch::X86_64 => "x86_64",
            Arch::Arm64 => "arm64",
            Arch::ArmV5 => "armv5",
            Arch::ArmV6 => "armv6",
            Arch::ArmV7 => "armv7",
            Arch::ArmV7f => "armv7f",
            Arch::ArmV7s => "armv7s",
            Arch::ArmV7k => "armv7k",
            Arch::ArmV7m => "armv7m",
            Arch::ArmV7em => "armv7em",
        }
    }
}

/// Supported programming languages for demangling.
#[derive(Debug, PartialEq, Eq, Structural, Clone, Copy)]
pub enum Language {
    Unknown,
    C,
    Cpp,
    D,
    Go,
    ObjC,
    ObjCpp,
    Rust,
    Swift,
    __Max,
}

/// The language denoted by a raw numeric encoding, if the value is one
/// of the declared variants.
pub open spec fn language_from_u32_spec(val: u32) -> Option<Language> {
    if val == 0 {
        Some(Language::Unknown)
    } else if val == 1 {
        Some(Language::C)
    } else if val == 2 {
        Some(Language::Cpp)
    } else if val == 3 {
        Some(Language::D)
    } else if val == 4 {
        Some(Language::Go)
    } else if val == 5 {
        Some(Language::ObjC)
    } else if val == 6 {
        Some(Language::ObjCpp)
    } else if val == 7 {
        Some(Language::Rust)
    } else if val == 8 {
        Some(Language::Swift)
    } else {
        None
    }
}

/// The language denoted by a numeric DWARF language code, if it is one
/// this library understands.
pub open spec fn language_from_dwarf_spec(code: u16) -> Option<Language> {
    // DW_LANG_C89, DW_LANG_C, DW_LANG_C99, DW_LANG_C11
    if code == 0x01 || code == 0x02 || code == 0x0c || code == 0x1d {
        Some(Language::C)
    // DW_LANG_C_plus_plus and its 03 / 11 / 14 revisions
    } else if code == 0x04 || code == 0x19 || code == 0x1a || code == 0x21 {
        Some(Language::Cpp)
    } else if code == 0x13 {
        Some(Language::D)
    } else if code == 0x16 {
        Some(Language::Go)
    } else if code == 0x10 {
        Some(Language::ObjC)
    } else if code == 0x11 {
        Some(Language::ObjCpp)
    } else if code == 0x1c {
        Some(Language::Rust)
    } else if code == 0x1e {
        Some(Language::Swift)
    } else {
        None
    }
}

impl Language {
    /// The textual name of this language.
    pub open spec fn name_spec(self) -> Seq<char> {
        match self {
            Language::Unknown | Language::__Max => "unknown"@,
            Language::C => "C"@,
            Language::Cpp => "C++"@,
            Language::D => "D"@,
            Language::Go => "Go"@,
            Language::ObjC => "Objective-C"@,
            Language::ObjCpp => "Objective-C++"@,
            Language::Rust => "Rust"@,
            Language::Swift => "Swift"@,
        }
    }

    /// Creates a language from the u32 it represents; values past the
    /// last declared variant are rejected.
    pub fn from_u32(val: u32) -> (r: Result<Language, Error>)
        ensures
            match language_from_u32_spec(val) {
                Some(l) => r == Ok::<Language, Error>(l),
                None => r matches Err(Error::Parse(m)) && m == "unknown language",
            },
    {
        match val {
            0u32 => Ok(Language::Unknown),
            1u32 => Ok(Language::C),
            2u32 => Ok(Language::Cpp),
            3u32 => Ok(Language::D),
            4u32 => Ok(Language::Go),
            5u32 => Ok(Language::ObjC),
            6u32 => Ok(Language::ObjCpp),
            7u32 => Ok(Language::Rust),
            8u32 => Ok(Language::Swift),
            _ => Err(Error::Parse("unknown language")),
        }
    }

    /// Converts a DWARF language tag into a supported language.
    pub fn from_dwarf_lang(lang: gimli::DwLang) -> (r: Option<Language>)
        ensures
            r == language_from_dwarf_spec(lang.0),
    {
        match lang.0 {
            0x01u16 | 0x02u16 | 0x0cu16 | 0x1du16 => Some(Language::C),
            0x04u16 | 0x19u16 | 0x1au16 | 0x21u16 => Some(Language::Cpp),
            0x13u16 => Some(Language::D),
            0x16u16 => Some(Language::Go),
            0x10u16 => Some(Language::ObjC),
            0x11u16 => Some(Language::ObjCpp),
            0x1cu16 => Some(Language::Rust),
            0x1eu16 => Some(Language::Swift),
            _ => None,
        }
    }

    /// Returns the name of the language.
    pub fn name(&self) -> (r: &'static str)
        ensures
            r@ == self.name_spec(),
    {
        match *self {
            Language::Unknown | Language::__Max => "unknown",
            Language::C => "C",
            Language::Cpp => "C++",
            Language::D => "D",
            Language::Go => "Go",
            Language::ObjC => "Objective-C",
            Language::ObjCpp => "Objective-C++",
            Language::Rust => "Rust",
            Language::Swift => "Swift",
        }
    }
}

/// Represents the kind of an object file.
#[derive(Debug, PartialEq, Eq, Structural, Clone, Copy)]
pub enum ObjectKind {
    MachO,
    Elf,
}

/// Declares gimli's numeric DWARF language tag, a plain wrapper
/// around its `u16` code, so that signatures can carry it.
#[verifier::external_type_specification]
pub struct ExDwLang(gimli::DwLang);

/// Relies on mach_object::get_arch_name_from_types: looks the Mach-O
/// CPU type/subtype pair up in the architecture tables. When more
/// than one table entry matches a pair, which name comes back depends
/// on hash-map iteration order, so nothing is promised of the result.
#[verifier::external_body]
fn mach_arch_name(cputype: i32, cpusubtype: i32) -> (r: Option<&'static str>) {
    mach_object::get_arch_name_from_types(cputype, cpusubtype)
}

/// Compares two string slices character by character.
pub fn str_eq(a: &str, b: &str) -> (r: bool)
    ensures
        r == (a@ == b@),
{
    let a_len = a.unicode_len();
    let b_len = b.unicode_len();
    if a_len != b_len {
        assert(a@ != b@) by {
            assert(a@.len() != b@.len());
        }
        return false;
    }
    let mut i: usize = 0;
    while i < a_len
        invariant
            i <= a_len,
            a_len == a@.len(),
            a_len == b@.len(),
            forall|j: int| 0 <= j < i ==> a@[j] == b@[j],
        decreases a_len - i,
    {
        if a.get_char(i) != b.get_char(i) {
            assert(a@ != b@) by {
                assert(a@[i as int] != b@[i as int]);
            }
            return false;
        }
        i += 1;
    }
    proof {
        assert(a@ =~= b@);
    }
    true
}

} // verus!
