use dwarf_stats::types::{Arch, CpuFamily, Endianness, Error, Language, ObjectKind, str_eq};

#[test]
fn endianness_default_and_query() {
    assert_eq!(Endianness::default(), Endianness::Little);
    assert!(Endianness::Big.is_big_endian());
    assert!(!Endianness::Little.is_big_endian());
}

#[test]
fn arch_from_u32_all_variants() {
    assert_eq!(Arch::from_u32(0).unwrap(), Arch::Unknown);
    assert_eq!(Arch::from_u32(1).unwrap(), Arch::X86);
    assert_eq!(Arch::from_u32(2).unwrap(), Arch::X86_64);
    assert_eq!(Arch::from_u32(3).unwrap(), Arch::ArmV5);
    assert_eq!(Arch::from_u32(4).unwrap(), Arch::ArmV6);
    assert_eq!(Arch::from_u32(5).unwrap(), Arch::ArmV7);
    assert_eq!(Arch::from_u32(6).unwrap(), Arch::ArmV7f);
    assert_eq!(Arch::from_u32(7).unwrap(), Arch::ArmV7s);
    assert_eq!(Arch::from_u32(8).unwrap(), Arch::ArmV7k);
    assert_eq!(Arch::from_u32(9).unwrap(), Arch::ArmV7m);
    assert_eq!(Arch::from_u32(10).unwrap(), Arch::ArmV7em);
    assert_eq!(Arch::from_u32(11).unwrap(), Arch::Arm64);
    assert!(Arch::from_u32(12).is_err());
    let e = Arch::from_u32(999).unwrap_err();
    assert_eq!(e.message(), "unknown architecture");
}

#[test]
fn arch_parse_round_trip() {
    let archs = [
        Arch::X86,
        Arch::X86_64,
        Arch::Arm64,
        Arch::ArmV5,
        Arch::ArmV6,
        Arch::ArmV7,
        Arch::ArmV7f,
        Arch::ArmV7s,
        Arch::ArmV7k,
        Arch::ArmV7m,
        Arch::ArmV7em,
    ];
    for a in archs {
        assert_eq!(Arch::parse(a.name()).unwrap(), a);
    }
    assert!(Arch::parse("unknown").is_err());
    assert!(Arch::parse("").is_err());
    assert!(Arch::parse("x86_64h").is_err());
}

#[test]
fn arch_cpu_family_table() {
    assert_eq!(Arch::Unknown.cpu_family(), CpuFamily::Unknown);
    assert_eq!(Arch::X86.cpu_family(), CpuFamily::Intel32);
    assert_eq!(Arch::X86_64.cpu_family(), CpuFamily::Intel64);
    assert_eq!(Arch::Arm64.cpu_family(), CpuFamily::Arm64);
    assert_eq!(Arch::ArmV5.cpu_family(), CpuFamily::Arm32);
    assert_eq!(Arch::ArmV7em.cpu_family(), CpuFamily::Arm32);
}

#[test]
fn arch_pointer_size_table() {
    assert_eq!(Arch::Unknown.pointer_size(), None);
    assert_eq!(Arch::X86_64.pointer_size(), Some(8));
    assert_eq!(Arch::Arm64.pointer_size(), Some(8));
    assert_eq!(Arch::X86.pointer_size(), Some(4));
    assert_eq!(Arch::ArmV7.pointer_size(), Some(4));
}

#[test]
fn arch_names() {
    assert_eq!(Arch::Unknown.name(), "unknown");
    assert_eq!(Arch::X86_64.name(), "x86_64");
    assert_eq!(Arch::ArmV7em.name(), "armv7em");
}

#[test]
fn arch_from_elf_machines() {
    assert_eq!(Arch::from_elf(3).unwrap(), Arch::X86);
    assert_eq!(Arch::from_elf(62).unwrap(), Arch::X86_64);
    assert_eq!(Arch::from_elf(40).unwrap(), Arch::ArmV7);
    let e = Arch::from_elf(183).unwrap_err();
    assert_eq!(e.message(), "unknown architecture");
}

#[test]
fn arch_from_mach_types() {
    // CPU_TYPE_X86_64 with the "all" subtype
    assert_eq!(Arch::from_mach(0x0100_0007, 3).unwrap(), Arch::X86_64);
    // CPU_TYPE_ARM64 with the "all" subtype
    assert_eq!(Arch::from_mach(0x0100_000c, 0).unwrap(), Arch::Arm64);
    // CPU_TYPE_ARM with the v7 subtype
    assert_eq!(Arch::from_mach(12, 9).unwrap(), Arch::ArmV7);
    // a pair named "i386" by the tables, which is no name this library knows
    assert!(Arch::from_mach(7, 3).is_err());
    // a pair the tables give no name at all
    assert!(Arch::from_mach(0x7f36_a9d2, 0).is_err());
}

#[test]
fn language_from_u32_all_variants() {
    assert_eq!(Language::from_u32(0).unwrap(), Language::Unknown);
    assert_eq!(Language::from_u32(1).unwrap(), Language::C);
    assert_eq!(Language::from_u32(2).unwrap(), Language::Cpp);
    assert_eq!(Language::from_u32(3).unwrap(), Language::D);
    assert_eq!(Language::from_u32(4).unwrap(), Language::Go);
    assert_eq!(Language::from_u32(5).unwrap(), Language::ObjC);
    assert_eq!(Language::from_u32(6).unwrap(), Language::ObjCpp);
    assert_eq!(Language::from_u32(7).unwrap(), Language::Rust);
    assert_eq!(Language::from_u32(8).unwrap(), Language::Swift);
    assert!(Language::from_u32(9).is_err());
    assert_eq!(Language::from_u32(9).unwrap_err().message(), "unknown language");
}

#[test]
fn language_from_dwarf_codes() {
    assert_eq!(Language::from_dwarf_lang(gimli::DW_LANG_C89), Some(Language::C));
    assert_eq!(Language::from_dwarf_lang(gimli::DW_LANG_C), Some(Language::C));
    assert_eq!(Language::from_dwarf_lang(gimli::DW_LANG_C99), Some(Language::C));
    assert_eq!(Language::from_dwarf_lang(gimli::DW_LANG_C11), Some(Language::C));
    assert_eq!(Language::from_dwarf_lang(gimli::DW_LANG_C_plus_plus), Some(Language::Cpp));
    assert_eq!(Language::from_dwarf_lang(gimli::DW_LANG_C_plus_plus_03), Some(Language::Cpp));
    assert_eq!(Language::from_dwarf_lang(gimli::DW_LANG_C_plus_plus_11), Some(Language::Cpp));
    assert_eq!(Language::from_dwarf_lang(gimli::DW_LANG_C_plus_plus_14), Some(Language::Cpp));
    assert_eq!(Language::from_dwarf_lang(gimli::DW_LANG_D), Some(Language::D));
    assert_eq!(Language::from_dwarf_lang(gimli::DW_LANG_Go), Some(Language::Go));
    assert_eq!(Language::from_dwarf_lang(gimli::DW_LANG_ObjC), Some(Language::ObjC));
    assert_eq!(Language::from_dwarf_lang(gimli::DW_LANG_ObjC_plus_plus), Some(Language::ObjCpp));
    assert_eq!(Language::from_dwarf_lang(gimli::DW_LANG_Rust), Some(Language::Rust));
    assert_eq!(Language::from_dwarf_lang(gimli::DW_LANG_Swift), Some(Language::Swift));
    assert_eq!(Language::from_dwarf_lang(gimli::DwLang(0x1f)), None);
    assert_eq!(Language::from_dwarf_lang(gimli::DwLang(0x8001)), None);
}

#[test]
fn language_names() {
    assert_eq!(Language::Unknown.name(), "unknown");
    assert_eq!(Language::Cpp.name(), "C++");
    assert_eq!(Language::ObjCpp.name(), "Objective-C++");
    assert_eq!(Language::Rust.name(), "Rust");
}

#[test]
fn object_kinds_distinct() {
    assert_ne!(ObjectKind::MachO, ObjectKind::Elf);
}

#[test]
fn str_eq_basic() {
    assert!(str_eq("", ""));
    assert!(str_eq("abc", "abc"));
    assert!(!str_eq("abc", "abd"));
    assert!(!str_eq("abc", "abcd"));
    let e = Error::Parse("boom");
    assert_eq!(e.message(), "boom");
}
