//! Decoding of ELF64 little-endian relocatable objects.

use vstd::prelude::*;
use crate::bytes::{copy_bytes, le16, le32, le64, read_u16, read_u32, read_u64};
use crate::error::Error;

verus! {

/// Section types read by the parser.
pub const SHT_SYMTAB: u32 = 2;
pub const SHT_STRTAB: u32 = 3;
pub const SHT_RELA: u32 = 4;
pub const SHT_NOBITS: u32 = 8;
pub const SHT_REL: u32 = 9;

/// Size of the ELF64 file header.
pub const EHDR_SIZE: usize = 64;
/// Size of one ELF64 section header.
pub const SHDR_SIZE: usize = 64;
/// Size of one ELF64 symbol table entry.
pub const SYM_SIZE: usize = 24;

/// The fields of a section header that the rewriter reads.
#[derive(Clone, Copy, Debug, PartialEq, Eq, Structural)]
pub struct SectionHeader {
    pub sh_type: u32,
    pub offset: u64,
    pub size: u64,
    pub link: u32,
    pub info: u32,
    pub entsize: u64,
}

/// One symbol table entry, with its name read out of the string table.
#[derive(Clone, Debug)]
pub struct Symbol {
    pub name: Vec<u8>,
    pub name_off: u32,
    pub info: u8,
    pub shndx: u16,
}

/// One relocation entry: the relocation section it stands in and the
/// symbol table index it refers to.
#[derive(Clone, Copy, Debug, PartialEq, Eq, Structural)]
pub struct Relocation {
    pub section: usize,
    pub sym: u32,
}

/// A decoded relocatable object, together with the bytes it came from.
#[derive(Clone, Debug)]
pub struct ElfObject {
    pub bytes: Vec<u8>,
    pub shoff: usize,
    pub sections: Vec<SectionHeader>,
    pub symtab: usize,
    pub strtab: usize,
    pub symbols: Vec<Symbol>,
    pub relocations: Vec<Relocation>,
}

/// The fixed header region of a supported object: ELF magic, 64-bit class,
/// little-endian data and the relocatable file type.
pub open spec fn elf_magic(s: Seq<u8>) -> bool {
    &&& s.len() >= EHDR_SIZE
    &&& s[0] == 0x7f && s[1] == 0x45 && s[2] == 0x4c && s[3] == 0x46
    &&& s[4] == 2 && s[5] == 1
    &&& le16(s, 16) == 1
}

/// `name` is the NUL-terminated string at `start`, ending before `end`.
pub open spec fn is_cstr(s: Seq<u8>, start: int, end: int, name: Seq<u8>) -> bool {
    &&& 0 <= start
    &&& start + name.len() < end
    &&& end <= s.len()
    &&& s.subrange(start, start + name.len()) == name
    &&& s[start + name.len()] == 0
    &&& forall|j: int| 0 <= j < name.len() ==> name[j] != 0
}

/// A section's contents lie inside a buffer of length `n`.
pub open spec fn section_in_bounds(h: SectionHeader, n: int) -> bool {
    h.sh_type == SHT_NOBITS || h.offset + h.size <= n
}

/// The section header `i` of a table that starts at `shoff`.
pub open spec fn sec_at(s: Seq<u8>, shoff: int, i: int) -> SectionHeader {
    let base = shoff + SHDR_SIZE * i;
    SectionHeader {
        sh_type: le32(s, base + 4) as u32,
        offset: le64(s, base + 24) as u64,
        size: le64(s, base + 32) as u64,
        link: le32(s, base + 40) as u32,
        info: le32(s, base + 44) as u32,
        entsize: le64(s, base + 56) as u64,
    }
}

/// The section header table's offset and entry count, from the file header.
pub open spec fn sh_off(s: Seq<u8>) -> int {
    le64(s, 0x28)
}

/// The number of section headers.
pub open spec fn sh_num(s: Seq<u8>) -> int {
    le16(s, 0x3c)
}

/// The file header is supported and every section lies inside the buffer.
pub open spec fn headers_ok(s: Seq<u8>) -> bool {
    &&& elf_magic(s)
    &&& le16(s, 0x3a) == SHDR_SIZE
    &&& sh_num(s) > 0
    &&& sh_off(s) + SHDR_SIZE * sh_num(s) <= s.len()
    &&& forall|i: int| 0 <= i < sh_num(s) ==> section_in_bounds(#[trigger] sec_at(s, sh_off(s), i), s.len() as int)
}

/// `t` is the first symbol table section.
pub open spec fn first_symtab(s: Seq<u8>, t: int) -> bool {
    &&& 0 <= t < sh_num(s)
    &&& sec_at(s, sh_off(s), t).sh_type == SHT_SYMTAB
    &&& forall|j: int| 0 <= j < t ==> (#[trigger] sec_at(s, sh_off(s), j)).sh_type != SHT_SYMTAB
}

/// `sym` holds the name offset, info byte and section index of entry `j`
/// of the symbol table at `symoff`.
pub open spec fn symbol_fields(s: Seq<u8>, symoff: int, j: int, sym: Symbol) -> bool {
    let base = symoff + SYM_SIZE * j;
    &&& sym.name_off == le32(s, base)
    &&& sym.info == s[base + 4]
    &&& sym.shndx == le16(s, base + 6)
}

/// Symbol `j` of the table at `symoff` names a NUL-terminated string of the
/// string table `[str_off, str_end)`.
pub open spec fn symbol_ok(s: Seq<u8>, symoff: int, str_off: int, str_end: int, j: int) -> bool {
    let no = le32(s, symoff + SYM_SIZE * j);
    no < str_end - str_off && exists|e: int| str_off + no <= e < str_end && s[e] == 0
}

/// The entry size of a relocation section of type `t`.
pub open spec fn rel_entry_size(t: u32) -> int {
    if t == SHT_RELA {
        24
    } else {
        16
    }
}

/// The relocations that section `i` holds against symbol table `t`: one
/// per entry, in entry order, naming the symbol in the entry's info field.
pub open spec fn section_relocs(s: Seq<u8>, i: int, t: int) -> Seq<Relocation> {
    let h = sec_at(s, sh_off(s), i);
    let es = rel_entry_size(h.sh_type);
    if h.link == t && (h.sh_type == SHT_RELA || h.sh_type == SHT_REL) {
        Seq::new(
            ((h.size as int) / es) as nat,
            |k: int| Relocation { section: i as usize, sym: (le64(s, h.offset + es * k + 8) / 0x1_0000_0000) as u32 },
        )
    } else {
        Seq::empty()
    }
}

/// The relocations of the first `i` sections against symbol table `t`.
pub open spec fn all_relocs(s: Seq<u8>, t: int, i: int) -> Seq<Relocation>
    decreases i,
{
    if i <= 0 {
        Seq::empty()
    } else {
        all_relocs(s, t, i - 1) + section_relocs(s, i - 1, t)
    }
}

/// Section `i`, if it holds relocations against symbol table `t`, splits
/// into whole entries that each name one of the `nsyms` symbols.
pub open spec fn relocs_ok(s: Seq<u8>, i: int, t: int, nsyms: int) -> bool {
    let h = sec_at(s, sh_off(s), i);
    let es = rel_entry_size(h.sh_type);
    (h.link == t && (h.sh_type == SHT_RELA || h.sh_type == SHT_REL)) ==> {
        &&& (h.size as int) % es == 0
        &&& forall|k: int| 0 <= k < (h.size as int) / es ==> #[trigger] le64(s, h.offset + es * k + 8) / 0x1_0000_0000 < nsyms
    }
}

/// The symbol table `t`, its string table and the relocations against it
/// are consistent.
pub open spec fn tables_ok(s: Seq<u8>, t: int) -> bool {
    let sh = sec_at(s, sh_off(s), t);
    let st = sec_at(s, sh_off(s), sh.link as int);
    let nsyms = (sh.size as int) / (SYM_SIZE as int);
    &&& sh.link < sh_num(s)
    &&& st.sh_type == SHT_STRTAB
    &&& (sh.size as int) % (SYM_SIZE as int) == 0
    &&& forall|j: int| 0 <= j < nsyms ==> #[trigger] symbol_ok(s, sh.offset as int, st.offset as int, st.offset + st.size, j)
    &&& forall|i: int| 0 <= i < sh_num(s) ==> #[trigger] relocs_ok(s, i, t, nsyms)
}

/// The buffer is a relocatable object that this library can decode.
#[verifier::opaque]
pub open spec fn valid_object(s: Seq<u8>) -> bool {
    headers_ok(s) && exists|t: int| first_symtab(s, t) && tables_ok(s, t)
}

impl Symbol {
    /// The binding: local, global or weak.
    pub open spec fn binding(&self) -> u8 {
        self.info / 16
    }
}

impl ElfObject {
    /// Where the string table starts and ends.
    pub open spec fn str_start(&self) -> int {
        self.sections@[self.strtab as int].offset as int
    }

    pub open spec fn str_end(&self) -> int {
        self.sections@[self.strtab as int].offset + self.sections@[self.strtab as int].size
    }

    /// Byte `k` lies in the symbol table.
    pub open spec fn in_symtab(&self, k: int) -> bool {
        let h = self.sections@[self.symtab as int];
        h.offset <= k < h.offset + h.size
    }

    /// Byte `k` lies in the string table's section header.
    pub open spec fn in_strtab_header(&self, k: int) -> bool {
        self.shoff + SHDR_SIZE * self.strtab <= k < self.shoff + SHDR_SIZE * self.strtab + SHDR_SIZE
    }

    /// The symbol names, in symbol table order.
    pub open spec fn names(&self) -> Seq<Seq<u8>> {
        self.symbols@.map_values(|s: Symbol| s.name@)
    }

    /// Every table lies inside the buffer, every symbol name is a string of
    /// the string table and every relocation refers to an existing symbol.
    #[verifier::opaque]
    pub open spec fn wf(&self) -> bool {
        let n = self.bytes@.len() as int;
        let secs = self.sections@;
        &&& self.symtab < secs.len()
        &&& self.strtab < secs.len()
        &&& self.shoff + SHDR_SIZE * secs.len() <= n
        &&& forall|i: int| 0 <= i < secs.len() ==> section_in_bounds(#[trigger] secs[i], n)
        &&& secs[self.symtab as int].sh_type == SHT_SYMTAB
        &&& secs[self.symtab as int].link == self.strtab
        &&& secs[self.strtab as int].sh_type == SHT_STRTAB
        &&& secs[self.symtab as int].size == SYM_SIZE * self.symbols@.len()
        &&& forall|i: int|
            0 <= i < self.symbols@.len() ==> is_cstr(
                self.bytes@,
                self.str_start() + (#[trigger] self.symbols@[i]).name_off,
                self.str_end(),
                self.symbols@[i].name@,
            )
        &&& forall|k: int|
            0 <= k < self.relocations@.len() ==> (#[trigger] self.relocations@[k]).sym
                < self.symbols@.len() && self.relocations@[k].section < secs.len()
    }
}

/// Tells whether `b` starts with the header of a supported object.
pub fn is_elf_object(b: &[u8]) -> (r: bool)
    ensures
        r == elf_magic(b@),
{
    if b.len() < EHDR_SIZE {
        return false;
    }
    b[0] == 0x7f && b[1] == 0x45 && b[2] == 0x4c && b[3] == 0x46 && b[4] == 2 && b[5] == 1
        && read_u16(b, 16) == 1
}

/// Reads the NUL-terminated string at `start`, which must end before `end`.
pub fn read_cstr(b: &[u8], start: usize, end: usize) -> (r: Option<Vec<u8>>)
    requires
        start <= end <= b@.len(),
    ensures
        r matches Some(name) ==> is_cstr(b@, start as int, end as int, name@),
        r is None ==> forall|j: int| start <= j < end ==> b@[j] != 0,
{
    let mut name: Vec<u8> = Vec::new();
    let mut j: usize = start;
    while j < end
        invariant
            start <= j <= end <= b@.len(),
            name@ == b@.subrange(start as int, j as int),
            forall|k: int| start <= k < j ==> b@[k] != 0,
        decreases end - j,
    {
        if b[j] == 0 {
            return Some(name);
        }
        name.push(b[j]);
        j = j + 1;
        assert(name@ =~= b@.subrange(start as int, j as int));
    }
    None
}

/// Reads the section header table.
fn parse_sections(b: &[u8], shoff: usize, shnum: usize) -> (r: Result<Vec<SectionHeader>, Error>)
    requires
        shoff + SHDR_SIZE * shnum <= b@.len(),
    ensures
        r matches Ok(v) ==> v@.len() == shnum && forall|i: int|
            0 <= i < shnum ==> section_in_bounds(#[trigger] v@[i], b@.len() as int) && v@[i] == sec_at(b@, shoff as int, i),
        r is Err ==> exists|i: int| 0 <= i < shnum && !section_in_bounds(#[trigger] sec_at(b@, shoff as int, i), b@.len() as int),
        r matches Err(e) ==> e == Error::MalformedBinary,
{
    let n = b.len();
    let mut v: Vec<SectionHeader> = Vec::new();
    let mut i: usize = 0;
    while i < shnum
        invariant
            i <= shnum,
            shoff + SHDR_SIZE * shnum <= b@.len(),
            n == b@.len(),
            v@.len() == i,
            forall|k: int| 0 <= k < i ==> section_in_bounds(#[trigger] v@[k], n as int) && v@[k] == sec_at(b@, shoff as int, k),
        decreases shnum - i,
    {
        assert(shoff + SHDR_SIZE * (i + 1) <= b@.len()) by (nonlinear_arith)
            requires i < shnum, shoff + SHDR_SIZE * shnum <= b@.len();
        let base = shoff + SHDR_SIZE * i;
        let h = SectionHeader {
            sh_type: read_u32(b, base + 4),
            offset: read_u64(b, base + 24),
            size: read_u64(b, base + 32),
            link: read_u32(b, base + 40),
            info: read_u32(b, base + 44),
            entsize: read_u64(b, base + 56),
        };
        assert(h == sec_at(b@, shoff as int, i as int));
        if h.sh_type != SHT_NOBITS && (h.offset > n as u64 || h.size > n as u64 - h.offset) {
            return Err(Error::MalformedBinary);
        }
        v.push(h);
        i = i + 1;
    }
    Ok(v)
}


/// Reads `count` symbol entries at `off`, naming each from the string table
/// that spans `str_off .. str_end`.
fn parse_symbols(b: &[u8], off: usize, count: usize, str_off: usize, str_end: usize) -> (r: Result<Vec<Symbol>, Error>)
    requires
        off + SYM_SIZE * count <= b@.len(),
        str_off <= str_end <= b@.len(),
    ensures
        r matches Ok(v) ==> v@.len() == count && forall|i: int|
            0 <= i < count ==> is_cstr(
                b@,
                str_off + (#[trigger] v@[i]).name_off,
                str_end as int,
                v@[i].name@,
            ) && symbol_ok(b@, off as int, str_off as int, str_end as int, i) && symbol_fields(b@, off as int, i, v@[i]),
        r is Err ==> exists|j: int| 0 <= j < count && !#[trigger] symbol_ok(b@, off as int, str_off as int, str_end as int, j),
        r matches Err(e) ==> e == Error::MalformedBinary,
{
    let _n = b.len(); // the length fits in usize
    let mut v: Vec<Symbol> = Vec::new();
    let mut i: usize = 0;
    while i < count
        invariant
            b@.len() <= usize::MAX,
            i <= count,
            off + SYM_SIZE * count <= b@.len(),
            str_off <= str_end <= b@.len(),
            v@.len() == i,
            forall|k: int|
                0 <= k < i ==> is_cstr(
                    b@,
                    str_off + (#[trigger] v@[k]).name_off,
                    str_end as int,
                    v@[k].name@,
                ) && symbol_ok(b@, off as int, str_off as int, str_end as int, k) && symbol_fields(b@, off as int, k, v@[k]),
        decreases count - i,
    {
        assert(off + SYM_SIZE * (i + 1) <= b@.len()) by (nonlinear_arith)
            requires i < count, off + SYM_SIZE * count <= b@.len();
        let base = off + SYM_SIZE * i;
        let name_off = read_u32(b, base);
        if name_off as usize >= str_end - str_off {
            assert(!symbol_ok(b@, off as int, str_off as int, str_end as int, i as int));
            return Err(Error::MalformedBinary);
        }
        let name = match read_cstr(b, str_off + name_off as usize, str_end) {
            Some(name) => name,
            None => {
                assert(!symbol_ok(b@, off as int, str_off as int, str_end as int, i as int));
                return Err(Error::MalformedBinary);
            },
        };
        proof {
            let e = str_off + name_off + name@.len();
            assert(b@[e] == 0);
            assert(symbol_ok(b@, off as int, str_off as int, str_end as int, i as int));
        }
        v.push(Symbol { name, name_off, info: b[base + 4], shndx: read_u16(b, base + 6) });
        i = i + 1;
    }
    Ok(v)
}

/// Reads the symbol indices of the relocation section `sec`, which holds
/// entries of `entsize` bytes, and appends them to `out`.
fn parse_relocations(
    b: &[u8],
    sec: usize,
    h: SectionHeader,
    entsize: usize,
    nsyms: usize,
    out: &mut Vec<Relocation>,
) -> (r: Result<(), Error>)
    requires
        h.offset + h.size <= b@.len(),
        entsize >= 16,
    ensures
        r is Ok <==> ((h.size as int) % (entsize as int) == 0 && forall|k: int|
            0 <= k < (h.size as int) / (entsize as int) ==> #[trigger] le64(b@, h.offset + entsize * k + 8)
                / 0x1_0000_0000 < nsyms),
        r is Ok ==> final(out)@ == old(out)@ + Seq::new(
            ((h.size as int) / (entsize as int)) as nat,
            |k: int| Relocation { section: sec, sym: (le64(b@, h.offset + entsize * k + 8) / 0x1_0000_0000) as u32 },
        ),
        r is Ok ==> final(out)@.len() >= old(out)@.len() && forall|k: int|
            0 <= k < final(out)@.len() ==> (#[trigger] final(out)@[k]) == (if k < old(out)@.len() {
                old(out)@[k]
            } else {
                final(out)@[k]
            }) && (k >= old(out)@.len() ==> final(out)@[k].sym < nsyms
                && final(out)@[k].section == sec),
        r matches Err(e) ==> e == Error::MalformedBinary,
{
    let _n = b.len(); // the length fits in usize
    let off = h.offset as usize;
    let size = h.size as usize;
    if size % entsize != 0 {
        assert((h.size as int) % (entsize as int) != 0);
        return Err(Error::MalformedBinary);
    }
    let count = size / entsize;
    let ghost start = out@;
    let mut i: usize = 0;
    while i < count
        invariant
            i <= count,
            count == size / entsize,
            entsize >= 16,
            off + size <= b@.len(),
            b@.len() <= usize::MAX,
            out@.len() >= start.len(),
            forall|k: int| 0 <= k < start.len() ==> #[trigger] out@[k] == start[k],
            forall|k: int|
                start.len() <= k < out@.len() ==> (#[trigger] out@[k]).sym < nsyms
                    && out@[k].section == sec,
            off == h.offset,
            size == h.size,
            forall|k: int| 0 <= k < i ==> #[trigger] le64(b@, h.offset + entsize * k + 8) / 0x1_0000_0000 < nsyms,
            out@ == start + Seq::new(
                i as nat,
                |k: int| Relocation { section: sec, sym: (le64(b@, h.offset + entsize * k + 8) / 0x1_0000_0000) as u32 },
            ),
        decreases count - i,
    {
        assert(off + entsize * i + 16 <= b@.len()) by (nonlinear_arith)
            requires i < count, count == size / entsize, entsize >= 16, off + size <= b@.len();
        let info = read_u64(b, off + entsize * i + 8);
        let sym = info / 4294967296;
        if sym >= nsyms as u64 {
            assert(!(le64(b@, h.offset + entsize * i + 8) / 0x1_0000_0000 < nsyms));
            return Err(Error::MalformedBinary);
        }
        out.push(Relocation { section: sec, sym: sym as u32 });
        i = i + 1;
        assert(out@ =~= start + Seq::new(
            i as nat,
            |k: int| Relocation { section: sec, sym: (le64(b@, h.offset + entsize * k + 8) / 0x1_0000_0000) as u32 },
        ));
    }
    Ok(())
}

/// Reads the relocations of every section that holds relocations against
/// the symbol table `symtab` of `nsyms` entries.
fn parse_all_relocations(b: &[u8], sections: &Vec<SectionHeader>, symtab: usize, nsyms: usize) -> (r: Result<Vec<Relocation>, Error>)
    requires
        sections@.len() == sh_num(b@),
        forall|k: int| 0 <= k < sections@.len() ==> #[trigger] sections@[k] == sec_at(b@, sh_off(b@), k),
        forall|k: int| 0 <= k < sections@.len() ==> section_in_bounds(#[trigger] sections@[k], b@.len() as int),
    ensures
        r is Ok <==> forall|k: int| 0 <= k < sections@.len() ==> #[trigger] relocs_ok(b@, k, symtab as int, nsyms as int),
        r matches Ok(v) ==> forall|k: int|
            0 <= k < v@.len() ==> (#[trigger] v@[k]).sym < nsyms && v@[k].section < sections@.len(),
        r matches Ok(v) ==> v@ == all_relocs(b@, symtab as int, sections@.len() as int),
        r matches Err(e) ==> e == Error::MalformedBinary,
{
    let shnum = sections.len();
    let mut relocations: Vec<Relocation> = Vec::new();
    let mut i: usize = 0;
    while i < shnum
        invariant
            i <= shnum == sections@.len() == sh_num(b@),
            forall|k: int| 0 <= k < shnum ==> #[trigger] sections@[k] == sec_at(b@, sh_off(b@), k),
            forall|k: int| 0 <= k < shnum ==> section_in_bounds(#[trigger] sections@[k], b@.len() as int),
            forall|k: int|
                0 <= k < relocations@.len() ==> (#[trigger] relocations@[k]).sym < nsyms
                    && relocations@[k].section < shnum,
            forall|k: int| 0 <= k < i ==> #[trigger] relocs_ok(b@, k, symtab as int, nsyms as int),
            relocations@ == all_relocs(b@, symtab as int, i as int),
        decreases shnum - i,
    {
        let h = sections[i];
        assert(h == sec_at(b@, sh_off(b@), i as int));
        let ghost before = relocations@;
        if h.link as usize == symtab && (h.sh_type == SHT_RELA || h.sh_type == SHT_REL) {
            let entsize: usize = if h.sh_type == SHT_RELA { 24 } else { 16 };
            assert(entsize == rel_entry_size(h.sh_type));
            assert(section_in_bounds(sections@[i as int], b@.len() as int));
            match parse_relocations(b, i, h, entsize, nsyms, &mut relocations) {
                Ok(()) => {},
                Err(e) => {
                    assert(!relocs_ok(b@, i as int, symtab as int, nsyms as int));
                    return Err(e);
                },
            }
        }
        assert(relocs_ok(b@, i as int, symtab as int, nsyms as int));
        assert(relocations@ =~= before + section_relocs(b@, i as int, symtab as int));
        i = i + 1;
    }
    Ok(relocations)
}

/// `o` is what decoding `b` yields: its bytes, its section headers, its
/// first symbol table and that table's string table, each symbol's entry
/// fields and its relocations are all read from `b`.
#[verifier::opaque]
pub open spec fn decodes(o: ElfObject, b: Seq<u8>) -> bool {
    &&& o.wf()
    &&& o.bytes@ == b
    &&& o.shoff == sh_off(b)
    &&& first_symtab(b, o.symtab as int)
    &&& o.strtab == sec_at(b, sh_off(b), o.symtab as int).link
    &&& o.sections@.len() == sh_num(b)
    &&& forall|i: int| 0 <= i < o.sections@.len() ==> #[trigger] o.sections@[i] == sec_at(b, sh_off(b), i)
    &&& o.symbols@.len() == (o.sections@[o.symtab as int].size as int) / (SYM_SIZE as int)
    &&& forall|i: int|
        0 <= i < o.symbols@.len() ==> symbol_fields(
            b,
            o.sections@[o.symtab as int].offset as int,
            i,
            #[trigger] o.symbols@[i],
        )
    &&& o.relocations@ == all_relocs(b, o.symtab as int, sh_num(b))
}

/// Decodes one relocatable object.
///
/// Succeeds exactly on the buffers that `valid_object` describes. Fails with
/// `UnsupportedFormat` exactly when the header is not that of an ELF64
/// little-endian relocatable object, and with `MalformedBinary` when a
/// table does not fit the buffer or refers to something that does not exist.
pub fn parse_object(b: &[u8]) -> (r: Result<ElfObject, Error>)
    ensures
        r is Ok <==> valid_object(b@),
        r matches Ok(o) ==> o.wf() && o.bytes@ == b@ && first_symtab(b@, o.symtab as int)
            && o.sections@.len() == sh_num(b@) && forall|i: int|
            0 <= i < o.sections@.len() ==> #[trigger] o.sections@[i] == sec_at(b@, sh_off(b@), i),
        r matches Ok(o) ==> o.relocations@ == all_relocs(b@, o.symtab as int, sh_num(b@)) && decodes(o, b@),
        r matches Ok(o) ==> forall|i: int|
            0 <= i < o.symbols@.len() ==> symbol_fields(
                b@,
                o.sections@[o.symtab as int].offset as int,
                i,
                #[trigger] o.symbols@[i],
            ),
        r matches Err(e) ==> (e == Error::UnsupportedFormat <==> !elf_magic(b@)),
        r matches Err(e) ==> e == Error::UnsupportedFormat || e == Error::MalformedBinary,
{
    proof {
        reveal(valid_object);
    }
    if !is_elf_object(b) {
        return Err(Error::UnsupportedFormat);
    }
    let n = b.len();
    let shoff_raw = read_u64(b, 0x28);
    let shentsize = read_u16(b, 0x3a);
    let shnum = read_u16(b, 0x3c) as usize;
    if shentsize as usize != SHDR_SIZE || shnum == 0 || shoff_raw > n as u64 {
        return Err(Error::MalformedBinary);
    }
    let shoff = shoff_raw as usize;
    if (n - shoff) / SHDR_SIZE < shnum {
        assert(shoff + 64 * shnum > n) by (nonlinear_arith)
            requires ((n - shoff) as int) / 64 < shnum as int, shoff <= n;
        return Err(Error::MalformedBinary);
    }
    assert(shoff + 64 * shnum <= n) by (nonlinear_arith)
        requires ((n - shoff) as int) / 64 >= shnum as int, shoff <= n;
    let sections = parse_sections(b, shoff, shnum)?;
    proof {
        assert forall|i: int| 0 <= i < sh_num(b@) implies section_in_bounds(
            #[trigger] sec_at(b@, sh_off(b@), i),
            b@.len() as int,
        ) by {
            assert(sections@[i] == sec_at(b@, shoff as int, i));
        }
    }
    assert(headers_ok(b@));
    let mut symtab: usize = 0;
    while symtab < shnum && sections[symtab].sh_type != SHT_SYMTAB
        invariant
            symtab <= shnum == sections@.len(),
            shoff == sh_off(b@),
            shnum == sh_num(b@),
            forall|i: int| 0 <= i < shnum ==> #[trigger] sections@[i] == sec_at(b@, shoff as int, i),
            forall|j: int| 0 <= j < symtab ==> (#[trigger] sec_at(b@, sh_off(b@), j)).sh_type != SHT_SYMTAB,
        decreases shnum - symtab,
    {
        assert(sections@[symtab as int] == sec_at(b@, shoff as int, symtab as int));
        symtab = symtab + 1;
    }
    if symtab == shnum {
        proof {
            assert forall|t: int| !first_symtab(b@, t) by {
                if 0 <= t < shnum {
                    assert(sec_at(b@, sh_off(b@), t).sh_type != SHT_SYMTAB);
                }
            }
        }
        return Err(Error::MalformedBinary);
    }
    assert(sections@[symtab as int] == sec_at(b@, shoff as int, symtab as int));
    assert(first_symtab(b@, symtab as int));
    proof {
        assert forall|t: int| #[trigger] first_symtab(b@, t) implies t == symtab by {
            if t < symtab {
                assert(sec_at(b@, sh_off(b@), t).sh_type != SHT_SYMTAB);
            } else if t > symtab {
                assert(sec_at(b@, sh_off(b@), symtab as int).sh_type != SHT_SYMTAB);
            }
        }
    }
    let sh = sections[symtab];
    let strtab = sh.link as usize;
    if strtab >= shnum {
        assert(!tables_ok(b@, symtab as int));
        return Err(Error::MalformedBinary);
    }
    assert(sections@[strtab as int] == sec_at(b@, shoff as int, strtab as int));
    if sections[strtab].sh_type != SHT_STRTAB || sh.size % (SYM_SIZE as u64) != 0 {
        assert(!tables_ok(b@, symtab as int));
        return Err(Error::MalformedBinary);
    }
    let st = sections[strtab];
    let nsyms = (sh.size / (SYM_SIZE as u64)) as usize;
    assert(section_in_bounds(sections@[symtab as int], n as int));
    assert(section_in_bounds(sections@[strtab as int], n as int));
    let symbols = match parse_symbols(
        b,
        sh.offset as usize,
        nsyms,
        st.offset as usize,
        (st.offset + st.size) as usize,
    ) {
        Ok(v) => v,
        Err(e) => {
            assert(!tables_ok(b@, symtab as int));
            return Err(e);
        },
    };
    let ghost symoff = sh.offset as usize;
    let ghost s_off = st.offset as usize;
    let ghost s_end = (st.offset + st.size) as usize;
    assert(forall|j: int| 0 <= j < nsyms ==> #[trigger] symbol_ok(b@, symoff as int, s_off as int, s_end as int, j)) by {
        assert forall|j: int| 0 <= j < nsyms implies #[trigger] symbol_ok(b@, symoff as int, s_off as int, s_end as int, j) by {
            assert(symbols@.len() == nsyms);
            assert(is_cstr(b@, s_off + symbols@[j].name_off, s_end as int, symbols@[j].name@));
        }
    }
    proof {
        assert(sh.offset as usize as int == sh.offset as int);
        assert(st.offset as usize as int == st.offset as int);
        assert((st.offset + st.size) as usize as int == st.offset + st.size);
    }
    let relocations = match parse_all_relocations(b, &sections, symtab, nsyms) {
        Ok(v) => v,
        Err(e) => {
            assert(!tables_ok(b@, symtab as int));
            return Err(e);
        },
    };
    proof {
        assert(sh == sec_at(b@, sh_off(b@), symtab as int));
        assert(st == sec_at(b@, sh_off(b@), sh.link as int));
        assert(nsyms as int == (sh.size as int) / (SYM_SIZE as int));
        assert forall|j: int| 0 <= j < nsyms implies #[trigger] symbol_ok(
            b@,
            sh.offset as int,
            st.offset as int,
            st.offset + st.size,
            j,
        ) by {
            assert(symbol_ok(b@, symoff as int, s_off as int, s_end as int, j));
        }
        assert forall|k: int| 0 <= k < sh_num(b@) implies #[trigger] relocs_ok(b@, k, symtab as int, nsyms as int) by {
            assert(relocs_ok(b@, k, symtab as int, nsyms as int));
        }
    }
    assert(tables_ok(b@, symtab as int));
    let o = ElfObject {
        bytes: copy_bytes(b),
        shoff,
        sections,
        symtab,
        strtab,
        symbols,
        relocations,
    };
    assert(o.names().len() == nsyms);
    proof {
        reveal(ElfObject::wf);
        reveal(decodes);
    }
    Ok(o)
}

} // verus!
