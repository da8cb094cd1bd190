use bartleby::archive::split_archive;
use bartleby::elf::{parse_object, ElfObject};
use bartleby::session::{detect_format, Format};
use bartleby::{Bartleby, Error};

const GLOBAL_FUNC: u8 = 0x12;
const GLOBAL_NOTYPE: u8 = 0x10;
const WEAK_OBJECT: u8 = 0x21;
const LOCAL_NOTYPE: u8 = 0x00;

fn put16(b: &mut Vec<u8>, at: usize, v: u16) {
    b[at..at + 2].copy_from_slice(&v.to_le_bytes());
}

fn put32(b: &mut Vec<u8>, at: usize, v: u32) {
    b[at..at + 4].copy_from_slice(&v.to_le_bytes());
}

fn put64(b: &mut Vec<u8>, at: usize, v: u64) {
    b[at..at + 8].copy_from_slice(&v.to_le_bytes());
}

fn align8(b: &mut Vec<u8>) {
    while b.len() % 8 != 0 {
        b.push(0);
    }
}

/// Builds an ELF64 little-endian relocatable object with a 16-byte `.text`,
/// the given symbols (after the null symbol) and one `.rela.text` entry per
/// symbol index in `relocs`.
fn object(symbols: &[(&str, u8, u16)], relocs: &[u32]) -> Vec<u8> {
    let mut b = vec![0u8; 64];
    b[0..4].copy_from_slice(&[0x7f, b'E', b'L', b'F']);
    b[4] = 2;
    b[5] = 1;
    b[6] = 1;
    put16(&mut b, 16, 1);
    put16(&mut b, 18, 62);
    put32(&mut b, 20, 1);
    put16(&mut b, 52, 64);
    put16(&mut b, 58, 64);

    let text_off = b.len();
    b.extend_from_slice(&[0x90u8; 16]);

    let mut strtab = vec![0u8];
    let mut name_offs = Vec::new();
    for (name, _, _) in symbols {
        name_offs.push(strtab.len() as u32);
        strtab.extend_from_slice(name.as_bytes());
        strtab.push(0);
    }
    let sec_names = [".text", ".symtab", ".strtab", ".rela.text"];
    let mut sec_name_offs = Vec::new();
    for n in sec_names {
        sec_name_offs.push(strtab.len() as u32);
        strtab.extend_from_slice(n.as_bytes());
        strtab.push(0);
    }
    let str_off = b.len();
    b.extend_from_slice(&strtab);

    align8(&mut b);
    let sym_off = b.len();
    b.extend_from_slice(&[0u8; 24]);
    for (i, (_, info, shndx)) in symbols.iter().enumerate() {
        let at = b.len();
        b.extend_from_slice(&[0u8; 24]);
        put32(&mut b, at, name_offs[i]);
        b[at + 4] = *info;
        put16(&mut b, at + 6, *shndx);
    }
    let sym_size = b.len() - sym_off;

    let rela_off = b.len();
    for (k, s) in relocs.iter().enumerate() {
        let at = b.len();
        b.extend_from_slice(&[0u8; 24]);
        put64(&mut b, at, 4 * k as u64);
        put64(&mut b, at + 8, ((*s as u64) << 32) | 4);
    }
    let rela_size = b.len() - rela_off;

    align8(&mut b);
    let shoff = b.len();
    // name, type, flags, offset, size, link, info, align, entsize
    let headers: [(u32, u32, u64, usize, usize, u32, u32, u64, u64); 5] = [
        (0, 0, 0, 0, 0, 0, 0, 0, 0),
        (sec_name_offs[0], 1, 6, text_off, 16, 0, 0, 16, 0),
        (sec_name_offs[1], 2, 0, sym_off, sym_size, 3, 1, 8, 24),
        (sec_name_offs[2], 3, 0, str_off, strtab.len(), 0, 0, 1, 0),
        (sec_name_offs[3], 4, 0x40, rela_off, rela_size, 2, 1, 8, 24),
    ];
    for h in headers.iter() {
        let at = b.len();
        b.extend_from_slice(&[0u8; 64]);
        put32(&mut b, at, h.0);
        put32(&mut b, at + 4, h.1);
        put64(&mut b, at + 8, h.2);
        put64(&mut b, at + 24, h.3 as u64);
        put64(&mut b, at + 32, h.4 as u64);
        put32(&mut b, at + 40, h.5);
        put32(&mut b, at + 44, h.6);
        put64(&mut b, at + 48, h.7);
        put64(&mut b, at + 56, h.8);
    }
    put64(&mut b, 40, shoff as u64);
    put16(&mut b, 60, 5);
    put16(&mut b, 62, 3);
    b
}

fn foo_bar() -> Vec<u8> {
    object(&[("foo", GLOBAL_FUNC, 1), ("bar", GLOBAL_NOTYPE, 0)], &[2, 1])
}

fn build(prefix: &str, inputs: &[Vec<u8>]) -> Result<Vec<u8>, Error> {
    let mut s = Bartleby::try_new().unwrap();
    s.set_prefix(prefix).unwrap();
    for i in inputs {
        s.add_binary(i).unwrap();
    }
    s.into_archive()
}

fn members(archive: &[u8]) -> Vec<ElfObject> {
    split_archive(archive).unwrap().iter().map(|m| parse_object(m).unwrap()).collect()
}

fn names(o: &ElfObject) -> Vec<String> {
    o.symbols.iter().map(|s| String::from_utf8(s.name.clone()).unwrap()).collect()
}

fn symbol<'a>(o: &'a ElfObject, name: &str) -> &'a bartleby::elf::Symbol {
    o.symbols.iter().find(|s| s.name == name.as_bytes()).unwrap()
}

#[test]
fn basic_rename() {
    let out = build("pfx_", &[foo_bar()]).unwrap();
    let ms = members(&out);
    assert_eq!(ms.len(), 1);
    assert_eq!(names(&ms[0]), vec!["", "pfx_foo", "bar"]);
    assert_eq!(symbol(&ms[0], "pfx_foo").shndx, 1);
    assert_eq!(symbol(&ms[0], "bar").shndx, 0);
}

#[test]
fn collision_rejected() {
    let o = object(&[("foo", GLOBAL_FUNC, 1), ("pfx_foo", GLOBAL_FUNC, 1)], &[]);
    assert_eq!(build("pfx_", &[o]), Err(Error::RenameCollision));
}

#[test]
fn collision_with_undefined_reference_rejected() {
    let o = object(&[("foo", GLOBAL_FUNC, 1), ("pfx_foo", GLOBAL_NOTYPE, 0)], &[]);
    assert_eq!(build("pfx_", &[o]), Err(Error::RenameCollision));
}

#[test]
fn unsupported_input_keeps_session_usable() {
    let mut s = Bartleby::try_new().unwrap();
    s.set_prefix("pfx_").unwrap();
    let noise: Vec<u8> = (0..200u32).map(|i| (i.wrapping_mul(2654435761) >> 13) as u8).collect();
    assert_eq!(s.add_binary(&noise), Err(Error::UnsupportedFormat));
    assert_eq!(s.add_binary(&[]), Err(Error::UnsupportedFormat));
    assert_eq!(s.objects.len(), 0);
    s.add_binary(&foo_bar()).unwrap();
    let ms = members(&s.into_archive().unwrap());
    assert_eq!(ms.len(), 1);
}

#[test]
fn empty_session_builds_empty_archive() {
    let out = build("pfx_", &[]).unwrap();
    assert_eq!(out, b"!<arch>\n".to_vec());
    assert!(split_archive(&out).unwrap().is_empty());
}

#[test]
fn members_keep_insertion_order() {
    let a = object(&[("alpha", GLOBAL_FUNC, 1)], &[]);
    let b = object(&[("beta", GLOBAL_FUNC, 1)], &[]);
    let c = object(&[("gamma", GLOBAL_FUNC, 1)], &[]);
    let ms = members(&build("p_", &[a, b, c]).unwrap());
    let firsts: Vec<String> = ms.iter().map(|o| names(o)[1].clone()).collect();
    assert_eq!(firsts, vec!["p_alpha", "p_beta", "p_gamma"]);
}

#[test]
fn member_headers_are_exact() {
    let out = build("p_", &[foo_bar()]).unwrap();
    assert_eq!(&out[0..8], b"!<arch>\n");
    // Index member: "/" then zero fields and mode 644.
    assert_eq!(&out[8..24], b"/               ");
    assert_eq!(&out[24..48], b"0           0     0     ");
    assert_eq!(&out[48..56], b"644     ");
    assert_eq!(&out[66..68], b"`\n");
    // Index: one entry, p_foo, pointing at the first member.
    assert_eq!(&out[68..72], &[0, 0, 0, 1]);
    let off = u32::from_be_bytes([out[72], out[73], out[74], out[75]]) as usize;
    assert_eq!(&out[76..82], b"p_foo\0");
    assert_eq!(off, 8 + 60 + 14);
    assert_eq!(&out[off..off + 16], b"0.o/            ");
    let size: usize = std::str::from_utf8(&out[off + 48..off + 58]).unwrap().trim().parse().unwrap();
    assert_eq!(out.len(), off + 60 + size + size % 2);
}

#[test]
fn renaming_twice_changes_nothing() {
    let once = build("pfx_", &[foo_bar()]).unwrap();
    let twice = build("pfx_", &[once.clone()]).unwrap();
    assert_eq!(names(&members(&once)[0]), names(&members(&twice)[0]));
}

#[test]
fn distinct_names_stay_distinct() {
    let o = object(&[("foo", GLOBAL_FUNC, 1), ("foobar", GLOBAL_FUNC, 1), ("w", WEAK_OBJECT, 1)], &[]);
    let ms = members(&build("x", &[o]).unwrap());
    assert_eq!(names(&ms[0]), vec!["", "xfoo", "xfoobar", "xw"]);
}

#[test]
fn locals_and_undefined_keep_names() {
    let o = object(&[("loc", LOCAL_NOTYPE, 1), ("ext", GLOBAL_NOTYPE, 0), ("abs", GLOBAL_NOTYPE, 0xfff1)], &[]);
    let ms = members(&build("x_", &[o]).unwrap());
    assert_eq!(names(&ms[0]), vec!["", "loc", "ext", "abs"]);
}

#[test]
fn relocations_follow_renamed_symbols() {
    let before = parse_object(&foo_bar()).unwrap();
    let ms = members(&build("pfx_", &[foo_bar()]).unwrap());
    let after = &ms[0];
    assert_eq!(before.relocations, after.relocations);
    let syms: Vec<u32> = after.relocations.iter().map(|r| r.sym).collect();
    assert_eq!(syms, vec![2, 1]);
    assert_eq!(after.symbols[2].name, b"bar".to_vec());
    assert_eq!(after.symbols[1].name, b"pfx_foo".to_vec());
}

#[test]
fn rewritten_object_parses_with_same_structure() {
    let input = foo_bar();
    let before = parse_object(&input).unwrap();
    let ms = members(&build("pfx_", &[input.clone()]).unwrap());
    let after = &ms[0];
    assert_eq!(before.sections.len(), after.sections.len());
    for i in 0..before.sections.len() {
        if i != before.strtab {
            assert_eq!(before.sections[i], after.sections[i]);
        }
    }
    assert_eq!(before.symtab, after.symtab);
    assert_eq!(before.relocations, after.relocations);
    // Bytes outside the symbol names and the string table header are kept.
    assert_eq!(&after.bytes[..64], &input[..64]);
    assert_eq!(&after.bytes[64..80], &input[64..80]);
}

#[test]
fn archive_input_is_split_into_members() {
    let a = object(&[("one", GLOBAL_FUNC, 1)], &[]);
    let b = object(&[("two", GLOBAL_FUNC, 1)], &[]);
    let plain = build("q_", &[a.clone(), b.clone()]).unwrap();
    let mut s = Bartleby::try_new().unwrap();
    s.add_binary(&plain).unwrap();
    assert_eq!(s.objects.len(), 2);
    s.set_prefix("r_").unwrap();
    let ms = members(&s.into_archive().unwrap());
    assert_eq!(names(&ms[0])[1], "r_q_one");
    assert_eq!(names(&ms[1])[1], "r_q_two");
}

#[test]
fn invalid_prefixes_rejected() {
    let mut s = Bartleby::try_new().unwrap();
    assert_eq!(s.set_prefix(""), Err(Error::InvalidPrefix));
    assert_eq!(s.set_prefix("1abc"), Err(Error::InvalidPrefix));
    assert_eq!(s.set_prefix("a\0b"), Err(Error::InvalidPrefix));
    assert_eq!(s.set_prefix("a-b"), Err(Error::InvalidPrefix));
    assert!(s.prefix.is_none());
    assert_eq!(s.set_prefix("ok_1.$"), Ok(()));
    assert_eq!(s.set_prefix("again"), Err(Error::InvalidPrefix));
    assert_eq!(s.prefix, Some(b"ok_1.$".to_vec()));
}

#[test]
fn build_without_prefix_fails() {
    let mut s = Bartleby::try_new().unwrap();
    s.add_binary(&foo_bar()).unwrap();
    assert_eq!(s.into_archive(), Err(Error::InvalidPrefix));
}

#[test]
fn truncated_object_is_malformed() {
    let o = foo_bar();
    let mut s = Bartleby::try_new().unwrap();
    assert_eq!(s.add_binary(&o[..100]), Err(Error::MalformedBinary));
    let mut bad = o.clone();
    let n = bad.len();
    bad[n - 64 * 3 + 40] = 9; // symbol table links to a missing section
    assert_eq!(s.add_binary(&bad), Err(Error::MalformedBinary));
    assert_eq!(s.objects.len(), 0);
}

#[test]
fn relocation_to_missing_symbol_is_malformed() {
    let o = object(&[("foo", GLOBAL_FUNC, 1)], &[7]);
    assert_eq!(parse_object(&o).err(), Some(Error::MalformedBinary));
}

#[test]
fn archive_with_bad_member_admits_nothing() {
    let good = build("q_", &[foo_bar()]).unwrap();
    let mut bad = good.clone();
    bad.extend_from_slice(b"junk.o/         0           0     0     644     4         `\nabcd");
    let mut s = Bartleby::try_new().unwrap();
    assert_eq!(s.add_binary(&bad), Err(Error::MalformedBinary));
    assert_eq!(s.objects.len(), 0);
    let mut short = good.clone();
    short.truncate(good.len() - 10);
    assert_eq!(s.add_binary(&short), Err(Error::MalformedBinary));
}

#[test]
fn formats_detected_by_magic() {
    assert_eq!(detect_format(&foo_bar()), Format::Object);
    assert_eq!(detect_format(b"!<arch>\n"), Format::Archive);
    assert_eq!(detect_format(b"!<arch"), Format::Unrecognized);
    let mut big_endian = foo_bar();
    big_endian[5] = 2;
    assert_eq!(detect_format(&big_endian), Format::Unrecognized);
}

#[test]
fn error_messages() {
    assert_eq!(Error::UnsupportedFormat.message(), "unsupported format");
    assert_eq!(Error::MalformedBinary.message(), "malformed object");
    assert_eq!(Error::InvalidPrefix.message(), "invalid prefix");
    assert_eq!(Error::RenameCollision.message(), "collision");
}

#[test]
fn index_points_at_each_member() {
    let a = object(&[("alpha", GLOBAL_FUNC, 1), ("ext", GLOBAL_NOTYPE, 0)], &[]);
    let b = object(&[("beta", GLOBAL_FUNC, 1), ("gamma", WEAK_OBJECT, 1)], &[]);
    let out = build("p_", &[a, b]).unwrap();
    let count = u32::from_be_bytes([out[68], out[69], out[70], out[71]]) as usize;
    assert_eq!(count, 3);
    let offs: Vec<usize> = (0..count)
        .map(|i| {
            let at = 72 + 4 * i;
            u32::from_be_bytes([out[at], out[at + 1], out[at + 2], out[at + 3]]) as usize
        })
        .collect();
    let names_at = 72 + 4 * count;
    let names: Vec<&[u8]> = out[names_at..].split(|c| *c == 0).take(count).collect();
    assert_eq!(names, vec![&b"p_alpha"[..], &b"p_beta"[..], &b"p_gamma"[..]]);
    assert_eq!(&out[offs[0]..offs[0] + 4], b"0.o/");
    assert_eq!(&out[offs[1]..offs[1] + 4], b"1.o/");
    assert_eq!(offs[1], offs[2]);
}
