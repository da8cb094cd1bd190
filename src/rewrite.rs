//! Writing a rename plan back into an object's symbol and string tables.

use vstd::prelude::*;
use crate::bytes::{le16, le32, lemma_le32_patched, le32_bytes, le64_bytes, patch_le32, patch_le64, patched, push_range};
use crate::elf::{sec_at, sh_off, SHT_SYMTAB, decodes, valid_object, Relocation, symbol_fields, is_cstr, section_in_bounds, ElfObject, SectionHeader, Symbol, SHDR_SIZE, SYM_SIZE};
use crate::error::Error;
use crate::rename::{prefixed_equals, collides, lemma_rename_idempotent, new_name, new_names, renameable};

verus! {

/// A string that ends before `e` also ends before any later `e2`.
proof fn lemma_cstr_extend(s: Seq<u8>, a: int, e: int, e2: int, n: Seq<u8>)
    requires
        is_cstr(s, a, e, n),
        e <= e2 <= s.len(),
    ensures
        is_cstr(s, a, e2, n),
{
}

/// A string inside the window `[w, e)` of `s` stands at the same place of
/// `t` once the window is copied to `t` at `w2`.
proof fn lemma_cstr_moved(s: Seq<u8>, a: int, e: int, n: Seq<u8>, w: int, t: Seq<u8>, w2: int)
    requires
        is_cstr(s, a, e, n),
        0 <= w <= a,
        0 <= w2,
        w2 + (e - w) <= t.len(),
        t.subrange(w2, w2 + (e - w)) == s.subrange(w, e),
    ensures
        is_cstr(t, a - w + w2, e - w + w2, n),
{
    let a2 = a - w + w2;
    assert forall|k: int| a <= k <= a + n.len() implies t[k - w + w2] == #[trigger] s[k] by {
        assert(t.subrange(w2, w2 + (e - w))[k - w] == s.subrange(w, e)[k - w]);
        assert(t.subrange(w2, w2 + (e - w))[k - w] == t[w2 + (k - w)]);
        assert(s.subrange(w, e)[k - w] == s[k]);
    }
    assert(t[a2 + n.len()] == s[a + n.len()]);
    assert(t.subrange(a2, a2 + n.len()) =~= s.subrange(a, a + n.len()));
}

/// Appending to a buffer keeps the strings that end before its old end.
proof fn lemma_cstr_grow(s: Seq<u8>, t: Seq<u8>, a: int, n: Seq<u8>)
    requires
        is_cstr(s, a, s.len() as int, n),
        s.len() <= t.len(),
        t.subrange(0, s.len() as int) == s,
    ensures
        is_cstr(t, a, t.len() as int, n),
{
    assert(t.subrange(a, a + n.len()) =~= t.subrange(0, s.len() as int).subrange(a, a + n.len()));
    assert(t[a + n.len()] == t.subrange(0, s.len() as int)[a + n.len()]);
}

/// How many bytes the new names of the first `n` symbols add to the
/// string table: each renamed symbol's new name and its NUL.
pub open spec fn added_len(syms: Seq<Symbol>, prefix: Seq<u8>, n: int) -> int
    decreases n,
{
    if n <= 0 {
        0
    } else {
        added_len(syms, prefix, n - 1) + if renameable(syms[n - 1], prefix) {
            prefix.len() + syms[n - 1].name@.len() + 1
        } else {
            0
        }
    }
}

proof fn lemma_added_len_grows(syms: Seq<Symbol>, prefix: Seq<u8>, i: int, n: int)
    requires
        0 <= i <= n,
    ensures
        0 <= added_len(syms, prefix, i) <= added_len(syms, prefix, n),
    decreases n,
{
    if i < n {
        lemma_added_len_grows(syms, prefix, i, n - 1);
    } else if n > 0 {
        lemma_added_len_grows(syms, prefix, n - 1, n - 1);
    }
}

/// The string table offset that the new name of symbol `i` takes.
pub open spec fn new_name_off(o: ElfObject, prefix: Seq<u8>, i: int) -> int {
    o.sections@[o.strtab as int].size + added_len(o.symbols@, prefix, i)
}

/// The input bytes with the name offsets of the renamed symbols among the
/// first `i` pointed at their new names.
pub open spec fn names_patched(o: ElfObject, prefix: Seq<u8>, i: int) -> Seq<u8>
    decreases i,
{
    if i <= 0 {
        o.bytes@
    } else if renameable(o.symbols@[i - 1], prefix) {
        patched(
            names_patched(o, prefix, i - 1),
            o.sections@[o.symtab as int].offset + SYM_SIZE * (i - 1),
            le32_bytes(new_name_off(o, prefix, i - 1) as u32),
        )
    } else {
        names_patched(o, prefix, i - 1)
    }
}

/// The old string table followed by the new names, each with its NUL, of
/// the renamed symbols among the first `i`.
pub open spec fn new_strtab(o: ElfObject, prefix: Seq<u8>, i: int) -> Seq<u8>
    decreases i,
{
    if i <= 0 {
        o.bytes@.subrange(o.str_start(), o.str_end())
    } else if renameable(o.symbols@[i - 1], prefix) {
        new_strtab(o, prefix, i - 1) + prefix + o.symbols@[i - 1].name@ + seq![0u8]
    } else {
        new_strtab(o, prefix, i - 1)
    }
}

/// The bytes of the rewritten object: the name offsets patched, the new
/// string table appended, and the string table's section header pointed at
/// it.
pub open spec fn rewritten_bytes(o: ElfObject, prefix: Seq<u8>) -> Seq<u8> {
    let n = o.symbols@.len() as int;
    let table = new_strtab(o, prefix, n);
    let hdr = o.shoff + SHDR_SIZE * o.strtab;
    patched(
        patched(names_patched(o, prefix, n) + table, hdr + 24, le64_bytes(o.bytes@.len() as u64)),
        hdr + 32,
        le64_bytes(table.len() as u64),
    )
}

/// The rewritten object agrees with `o` everywhere but in its symbol names,
/// their string table offsets and the placement of the string table; every
/// byte of `o` outside its symbol table and its string table's section
/// header is kept.
pub open spec fn renamed_from(r: ElfObject, o: ElfObject, prefix: Seq<u8>) -> bool {
    &&& r.names() == new_names(o.symbols@, prefix)
    &&& r.relocations@ == o.relocations@
    &&& r.symtab == o.symtab
    &&& r.strtab == o.strtab
    &&& r.shoff == o.shoff
    &&& r.sections@.len() == o.sections@.len()
    &&& forall|i: int|
        0 <= i < o.sections@.len() && i != o.strtab ==> r.sections@[i] == #[trigger] o.sections@[i]
    &&& r.symbols@.len() == o.symbols@.len()
    &&& forall|i: int|
        0 <= i < o.symbols@.len() ==> (#[trigger] r.symbols@[i]).info == o.symbols@[i].info
            && r.symbols@[i].shndx == o.symbols@[i].shndx
    &&& r.bytes@ == rewritten_bytes(o, prefix)
    &&& forall|i: int|
        0 <= i < o.symbols@.len() ==> (#[trigger] r.symbols@[i]).name_off == if renameable(o.symbols@[i], prefix) {
            new_name_off(o, prefix, i)
        } else {
            o.symbols@[i].name_off as int
        }
    &&& r.bytes@.len() >= o.bytes@.len()
    &&& forall|k: int|
        0 <= k < o.bytes@.len() && !o.in_symtab(k) && !o.in_strtab_header(k) ==> #[trigger] r.bytes@[k]
            == o.bytes@[k]
}

/// Applies a rename plan: `flags[i]` tells whether symbol `i` takes `prefix`.
///
/// The string table is copied to the end of the file with the new names
/// appended to it, each renamed symbol's name offset is pointed at its new
/// name, and the string table's section header is pointed at the copy.
/// Symbol order, sections and relocations stay as they were. Fails with
/// `InternalInvariantViolation` exactly when the string table would outgrow
/// 32-bit name offsets.
#[verifier::rlimit(100)]
pub fn rewrite(o: &ElfObject, prefix: &Vec<u8>, flags: &Vec<bool>) -> (r: Result<ElfObject, Error>)
    requires
        o.wf(),
        forall|j: int| 0 <= j < prefix@.len() ==> prefix@[j] != 0,
        flags@.len() == o.symbols@.len(),
        forall|i: int| 0 <= i < flags@.len() ==> flags@[i] == renameable(#[trigger] o.symbols@[i], prefix@),
    ensures
        r matches Ok(n) ==> n.wf() && renamed_from(n, *o, prefix@),
        r is Ok <==> o.sections@[o.strtab as int].size + added_len(o.symbols@, prefix@, o.symbols@.len() as int)
            <= 0xffff_ffff,
        r matches Err(e) ==> e == Error::InternalInvariantViolation,
{
    proof {
        reveal(ElfObject::wf);
        lemma_added_len_grows(o.symbols@, prefix@, 0, o.symbols@.len() as int);
    }
    let old_len = o.bytes.len();
    let st = o.sections[o.strtab];
    let str_start = st.offset as usize;
    let str_end = (st.offset + st.size) as usize;
    assert(section_in_bounds(o.sections@[o.strtab as int], old_len as int));
    if st.size > 0xffff_ffff {
        return Err(Error::InternalInvariantViolation);
    }
    let mut out: Vec<u8> = Vec::new();
    push_range(&mut out, o.bytes.as_slice(), 0, old_len);
    assert(out@ =~= o.bytes@);
    let mut new_str: Vec<u8> = Vec::new();
    push_range(&mut new_str, o.bytes.as_slice(), str_start, str_end);
    assert(new_str@ =~= new_strtab(*o, prefix@, 0));
    let ghost str_content = new_str@;
    let symoff = o.sections[o.symtab].offset as usize;
    assert(section_in_bounds(o.sections@[o.symtab as int], old_len as int));
    let n = o.symbols.len();
    let mut syms: Vec<Symbol> = Vec::new();
    let mut i: usize = 0;
    while i < n
        invariant
            o.wf(),
            n == o.symbols@.len() == flags@.len(),
            i <= n,
            old_len == o.bytes@.len(),
            out@.len() == old_len,
            forall|k: int| 0 <= k < old_len && !o.in_symtab(k) ==> #[trigger] out@[k] == o.bytes@[k],
            str_start == o.str_start(),
            str_end == o.str_end(),
            str_end - str_start <= new_str@.len() <= 0xffff_ffff,
            new_str@.len() == (str_end - str_start) + added_len(o.symbols@, prefix@, i as int),
            out@ == names_patched(*o, prefix@, i as int),
            new_str@ == new_strtab(*o, prefix@, i as int),
            str_content == o.bytes@.subrange(str_start as int, str_end as int),
            new_str@.subrange(0, str_content.len() as int) == str_content,
            symoff + SYM_SIZE * n <= old_len,
            symoff == o.sections@[o.symtab as int].offset,
            forall|j: int| 0 <= j < prefix@.len() ==> prefix@[j] != 0,
            forall|k: int| 0 <= k < flags@.len() ==> flags@[k] == renameable(#[trigger] o.symbols@[k], prefix@),
            syms@.len() == i,
            forall|k: int|
                0 <= k < i ==> (#[trigger] syms@[k]).name@ == new_name(o.symbols@[k], prefix@)
                    && syms@[k].name_off == (if renameable(o.symbols@[k], prefix@) {
                    new_name_off(*o, prefix@, k)
                } else {
                    o.symbols@[k].name_off as int
                })
                    && syms@[k].info == o.symbols@[k].info && syms@[k].shndx == o.symbols@[k].shndx
                    && is_cstr(new_str@, syms@[k].name_off as int, new_str@.len() as int, syms@[k].name@),
        decreases n - i,
    {
        proof {
            reveal(ElfObject::wf);
        }
        let s = &o.symbols[i];
        let ghost before = new_str@;
        assert(is_cstr(o.bytes@, str_start + s.name_off, str_end as int, s.name@));
        assert(flags@[i as int] == renameable(o.symbols@[i as int], prefix@));
        if flags[i] {
            let off = new_str.len();
            if s.name.len() > 0xffff_ffff || prefix.len() >= 0xffff_ffff - s.name.len()
                || off > 0xffff_ffff - 1 - prefix.len() - s.name.len() {
                proof {
                    lemma_added_len_grows(o.symbols@, prefix@, i + 1, n as int);
                }
                return Err(Error::InternalInvariantViolation);
            }
            let mut name: Vec<u8> = Vec::new();
            push_range(&mut name, prefix.as_slice(), 0, prefix.len());
            push_range(&mut name, s.name.as_slice(), 0, s.name.len());
            assert(name@ =~= prefix@ + s.name@);
            push_range(&mut new_str, name.as_slice(), 0, name.len());
            new_str.push(0);
            assert(new_str@ =~= new_strtab(*o, prefix@, i as int) + prefix@ + s.name@ + seq![0u8]);
            assert(name@.subrange(0, name@.len() as int) =~= name@);
            assert(new_str@.subrange(off as int, off + name@.len()) =~= name@);
            assert forall|j: int| 0 <= j < name@.len() implies name@[j] != 0 by {
                if j >= prefix@.len() {
                    assert(s.name@[j - prefix@.len()] != 0);
                }
            }
            assert(is_cstr(new_str@, off as int, new_str@.len() as int, name@));
            proof {
                assert(new_str@.subrange(0, before.len() as int) =~= before);
                assert forall|k: int| 0 <= k < i implies is_cstr(
                    new_str@,
                    (#[trigger] syms@[k]).name_off as int,
                    new_str@.len() as int,
                    syms@[k].name@,
                ) by {
                    lemma_cstr_grow(before, new_str@, syms@[k].name_off as int, syms@[k].name@);
                }
                assert(new_str@.subrange(0, str_content.len() as int) =~= before.subrange(0, str_content.len() as int));
            }
            assert(symoff + SYM_SIZE * i + 4 <= old_len) by (nonlinear_arith)
                requires i < n, symoff + SYM_SIZE * n <= old_len;
            let ghost pre = out@;
            patch_le32(&mut out, symoff + SYM_SIZE * i, off as u32);
            assert(off == new_name_off(*o, prefix@, i as int));
            assert(symoff + SYM_SIZE * n == o.sections@[o.symtab as int].offset + o.sections@[o.symtab as int].size);
            assert forall|k: int| 0 <= k < old_len && !o.in_symtab(k) implies #[trigger] out@[k] == o.bytes@[k] by {
                assert(out@[k] == pre[k]);
            }
            syms.push(Symbol { name, name_off: off as u32, info: s.info, shndx: s.shndx });
        } else {
            proof {
                lemma_cstr_moved(
                    o.bytes@,
                    str_start + s.name_off,
                    str_end as int,
                    s.name@,
                    str_start as int,
                    new_str@,
                    0,
                );
                lemma_cstr_extend(
                    new_str@,
                    s.name_off as int,
                    str_content.len() as int,
                    new_str@.len() as int,
                    s.name@,
                );
            }
            syms.push(Symbol { name: s.name.clone(), name_off: s.name_off, info: s.info, shndx: s.shndx });
            assert(syms@[i as int].name@ == s.name@);
        }
        i = i + 1;
    }
    let new_off = out.len();
    let ghost patched = out@;
    push_range(&mut out, new_str.as_slice(), 0, new_str.len());
    assert(out@ =~= names_patched(*o, prefix@, n as int) + new_strtab(*o, prefix@, n as int));
    assert forall|k: int| 0 <= k < old_len implies #[trigger] out@[k] == patched[k] by {}
    assert(out@.subrange(new_off as int, out@.len() as int) =~= new_str@.subrange(0, new_str@.len() as int));
    let hdr = o.shoff + SHDR_SIZE * o.strtab;
    assert(hdr + SHDR_SIZE <= old_len) by (nonlinear_arith)
        requires hdr == o.shoff + SHDR_SIZE * o.strtab, o.strtab < o.sections@.len(),
            o.shoff + SHDR_SIZE * o.sections@.len() <= old_len;
    let ghost appended = out@;
    patch_le64(&mut out, hdr + 24, new_off as u64);
    patch_le64(&mut out, hdr + 32, new_str.len() as u64);
    assert(out@ == rewritten_bytes(*o, prefix@));
    assert forall|k: int| 0 <= k < old_len && !o.in_symtab(k) && !o.in_strtab_header(k) implies #[trigger] out@[k]
        == o.bytes@[k] by {
        assert(out@[k] == appended[k]);
        assert(appended[k] == patched[k]);
    }
    let mut sections = o.sections.clone();
    assert(sections@ == o.sections@);
    let new_hdr = SectionHeader {
        sh_type: st.sh_type,
        offset: new_off as u64,
        size: new_str.len() as u64,
        link: st.link,
        info: st.info,
        entsize: st.entsize,
    };
    sections.set(o.strtab, new_hdr);
    let r = ElfObject {
        bytes: out,
        shoff: o.shoff,
        sections,
        symtab: o.symtab,
        strtab: o.strtab,
        symbols: syms,
        relocations: o.relocations.clone(),
    };
    proof {
        assert(r.bytes@.subrange(new_off as int, r.bytes@.len() as int) =~= new_str@.subrange(0, new_str@.len() as int));
        assert forall|k: int| 0 <= k < r.symbols@.len() implies is_cstr(
            r.bytes@,
            r.str_start() + (#[trigger] r.symbols@[k]).name_off,
            r.str_end(),
            r.symbols@[k].name@,
        ) by {
            lemma_cstr_moved(
                new_str@,
                r.symbols@[k].name_off as int,
                new_str@.len() as int,
                r.symbols@[k].name@,
                0,
                r.bytes@,
                new_off as int,
            );
        }
        assert forall|k: int| 0 <= k < r.sections@.len() implies section_in_bounds(
            #[trigger] r.sections@[k],
            r.bytes@.len() as int,
        ) by {
            if k != o.strtab {
                assert(section_in_bounds(o.sections@[k], old_len as int));
            }
        }
        assert(r.names() =~= new_names(o.symbols@, prefix@));
    }
    Ok(r)
}


/// Only the renameable symbols change name: each takes `prefix` in front
/// of its old name, and every other symbol keeps its name.
pub proof fn lemma_only_renameable_change(r: ElfObject, o: ElfObject, prefix: Seq<u8>)
    requires
        renamed_from(r, o, prefix),
    ensures
        forall|i: int|
            0 <= i < o.symbols@.len() ==> (#[trigger] r.symbols@[i]).name@ == if renameable(o.symbols@[i], prefix) {
                prefix + o.symbols@[i].name@
            } else {
                o.symbols@[i].name@
            },
{
    assert forall|i: int| 0 <= i < o.symbols@.len() implies (#[trigger] r.symbols@[i]).name@ == new_name(o.symbols@[i], prefix) by {
        assert(r.names()[i] == new_names(o.symbols@, prefix)[i]);
    }
}

/// Renaming a renamed object again with the same prefix changes no name
/// and meets no collision.
pub proof fn lemma_rename_again(r: ElfObject, o: ElfObject, prefix: Seq<u8>)
    requires
        renamed_from(r, o, prefix),
    ensures
        new_names(r.symbols@, prefix) == r.names(),
        forall|i: int| 0 <= i < r.symbols@.len() ==> !renameable(#[trigger] r.symbols@[i], prefix),
        !collides(r.symbols@, prefix),
{
    lemma_only_renameable_change(r, o, prefix);
    assert forall|i: int| 0 <= i < r.symbols@.len() implies !renameable(#[trigger] r.symbols@[i], prefix) by {
        lemma_rename_idempotent(o.symbols@[i], prefix, r.symbols@[i]);
        if renameable(o.symbols@[i], prefix) {
            assert((prefix + o.symbols@[i].name@).subrange(0, prefix.len() as int) =~= prefix);
        }
    }
    assert(new_names(r.symbols@, prefix) =~= r.names());
}

/// Relocations keep their symbol indices, and each index now resolves to
/// the new name of the symbol it referred to.
pub proof fn lemma_references_follow(r: ElfObject, o: ElfObject, prefix: Seq<u8>)
    requires
        o.wf(),
        renamed_from(r, o, prefix),
    ensures
        r.relocations@.len() == o.relocations@.len(),
        forall|k: int|
            0 <= k < o.relocations@.len() ==> (#[trigger] r.relocations@[k]).sym == o.relocations@[k].sym
                && r.symbols@[r.relocations@[k].sym as int].name@ == new_name(
                o.symbols@[o.relocations@[k].sym as int],
                prefix,
            ),
{
    reveal(ElfObject::wf);
    lemma_only_renameable_change(r, o, prefix);
    assert forall|k: int| 0 <= k < o.relocations@.len() implies (#[trigger] r.relocations@[k]).sym
        == o.relocations@[k].sym && r.symbols@[r.relocations@[k].sym as int].name@ == new_name(
        o.symbols@[o.relocations@[k].sym as int],
        prefix,
    ) by {
        let j = o.relocations@[k].sym as int;
        assert(o.relocations@[k].sym < o.symbols@.len());
        assert(r.symbols@[j].name@ == new_name(o.symbols@[j], prefix));
    }
}


/// Where the entry of symbol `j` starts.
pub open spec fn sym_entry(o: ElfObject, j: int) -> int {
    o.sections@[o.symtab as int].offset + SYM_SIZE * j
}

/// Patching the name offsets of the first `i` symbols sets the offset of
/// each renamed one among them and leaves every other byte as it was.
proof fn lemma_names_patched(o: ElfObject, prefix: Seq<u8>, i: int)
    requires
        o.wf(),
        0 <= i <= o.symbols@.len(),
        new_name_off(o, prefix, o.symbols@.len() as int) <= 0xffff_ffff,
    ensures
        names_patched(o, prefix, i).len() == o.bytes@.len(),
        forall|k: int|
            0 <= k < o.bytes@.len() && !o.in_symtab(k) ==> #[trigger] names_patched(o, prefix, i)[k] == o.bytes@[k],
        forall|j: int|
            0 <= j < o.symbols@.len() ==> #[trigger] le32(names_patched(o, prefix, i), sym_entry(o, j)) == if j < i
                && renameable(o.symbols@[j], prefix) {
                new_name_off(o, prefix, j)
            } else {
                le32(o.bytes@, sym_entry(o, j))
            },
        forall|j: int, d: int|
            0 <= j < o.symbols@.len() && 4 <= d < 8 ==> #[trigger] names_patched(o, prefix, i)[sym_entry(o, j) + d]
                == o.bytes@[sym_entry(o, j) + d],
    decreases i,
{
    reveal(ElfObject::wf);
    let n = o.symbols@.len() as int;
    let symoff = o.sections@[o.symtab as int].offset as int;
    assert(section_in_bounds(o.sections@[o.symtab as int], o.bytes@.len() as int));
    if i > 0 {
        lemma_names_patched(o, prefix, i - 1);
        let prev = names_patched(o, prefix, i - 1);
        if renameable(o.symbols@[i - 1], prefix) {
            lemma_added_len_grows(o.symbols@, prefix, i - 1, n);
            let v = new_name_off(o, prefix, i - 1) as u32;
            let at = symoff + SYM_SIZE * (i - 1);
            assert(at + 4 <= symoff + SYM_SIZE * n) by (nonlinear_arith)
                requires at == symoff + SYM_SIZE * (i - 1), i <= n;
            assert forall|j: int| 0 <= j < n implies #[trigger] le32(names_patched(o, prefix, i), sym_entry(o, j)) == (if j
                < i && renameable(o.symbols@[j], prefix) {
                new_name_off(o, prefix, j)
            } else {
                le32(o.bytes@, sym_entry(o, j))
            }) && forall|d: int| 4 <= d < 8 ==> #[trigger] names_patched(o, prefix, i)[sym_entry(o, j) + d] == o.bytes@[sym_entry(o, j) + d] by {
                let base = symoff + SYM_SIZE * j;
                assert(base + 8 <= symoff + SYM_SIZE * n) by (nonlinear_arith)
                    requires base == symoff + SYM_SIZE * j, j < n;
                assert(j < i - 1 ==> base + 4 <= at) by (nonlinear_arith)
                    requires base == symoff + SYM_SIZE * j, at == symoff + SYM_SIZE * (i - 1);
                assert(j > i - 1 ==> at + 4 <= base) by (nonlinear_arith)
                    requires base == symoff + SYM_SIZE * j, at == symoff + SYM_SIZE * (i - 1);
                lemma_le32_patched(prev, at, le32_bytes(v), base);
                assert(base == sym_entry(o, j));
                assert forall|d: int| 4 <= d < 8 implies #[trigger] names_patched(o, prefix, i)[sym_entry(o, j) + d]
                    == o.bytes@[sym_entry(o, j) + d] by {
                    assert(prev[sym_entry(o, j) + d] == o.bytes@[sym_entry(o, j) + d]);
                }
            }
            assert forall|k: int| 0 <= k < o.bytes@.len() && !o.in_symtab(k) implies #[trigger] names_patched(o, prefix, i)[k]
                == o.bytes@[k] by {
                assert(prev[k] == o.bytes@[k]);
            }
        }
    }
}

/// The eight bytes of entry `i` come through the final header patches of
/// the rewritten bytes unchanged.
proof fn lemma_entry_untouched(o: ElfObject, prefix: Seq<u8>, i: int)
    requires
        o.wf(),
        0 <= i < o.symbols@.len(),
        new_name_off(o, prefix, o.symbols@.len() as int) <= 0xffff_ffff,
        forall|k: int| #[trigger] o.in_strtab_header(k) ==> !o.in_symtab(k),
    ensures
        forall|d: int| 0 <= d < 8 ==> #[trigger] rewritten_bytes(o, prefix)[sym_entry(o, i) + d] == names_patched(
            o,
            prefix,
            o.symbols@.len() as int,
        )[sym_entry(o, i) + d],
{
    reveal(ElfObject::wf);
    let n = o.symbols@.len() as int;
    lemma_names_patched(o, prefix, n);
    let np = names_patched(o, prefix, n);
    let table = new_strtab(o, prefix, n);
    let hdr = o.shoff + SHDR_SIZE * o.strtab;
    let a = np + table;
    let b = patched(a, hdr + 24, le64_bytes(o.bytes@.len() as u64));
    let symoff = o.sections@[o.symtab as int].offset as int;
    assert(hdr + SHDR_SIZE <= o.bytes@.len()) by (nonlinear_arith)
        requires hdr == o.shoff + SHDR_SIZE * o.strtab, o.strtab < o.sections@.len(),
            o.shoff + SHDR_SIZE * o.sections@.len() <= o.bytes@.len();
    let base = sym_entry(o, i);
    assert(base + 8 <= symoff + SYM_SIZE * n) by (nonlinear_arith)
        requires base == symoff + SYM_SIZE * i, i < n;
    assert(section_in_bounds(o.sections@[o.symtab as int], o.bytes@.len() as int));
    assert forall|d: int| 0 <= d < 8 implies #[trigger] rewritten_bytes(o, prefix)[sym_entry(o, i) + d] == np[sym_entry(
        o,
        i,
    ) + d] by {
        assert(o.in_symtab(base + d));
        assert(!o.in_strtab_header(base + d));
        assert(a[base + d] == np[base + d]);
        assert(b[base + d] == a[base + d]);
    }
}

/// In the rewritten bytes, every symbol table entry holds its symbol's
/// name offset, info byte and section index, as long as the string table's
/// section header lies outside the symbol table.
pub proof fn lemma_symbol_entries_written(r: ElfObject, o: ElfObject, prefix: Seq<u8>)
    requires
        o.wf(),
        renamed_from(r, o, prefix),
        new_name_off(o, prefix, o.symbols@.len() as int) <= 0xffff_ffff,
        forall|i: int|
            0 <= i < o.symbols@.len() ==> symbol_fields(
                o.bytes@,
                o.sections@[o.symtab as int].offset as int,
                i,
                #[trigger] o.symbols@[i],
            ),
        forall|k: int| #[trigger] o.in_strtab_header(k) ==> !o.in_symtab(k),
    ensures
        forall|i: int|
            0 <= i < r.symbols@.len() ==> symbol_fields(
                r.bytes@,
                r.sections@[r.symtab as int].offset as int,
                i,
                #[trigger] r.symbols@[i],
            ),
{
    let n = o.symbols@.len() as int;
    lemma_names_patched(o, prefix, n);
    let np = names_patched(o, prefix, n);
    assert(r.sections@[r.symtab as int] == o.sections@[o.symtab as int]) by {
        reveal(ElfObject::wf);
    }
    assert forall|i: int| 0 <= i < r.symbols@.len() implies symbol_fields(
        r.bytes@,
        r.sections@[r.symtab as int].offset as int,
        i,
        #[trigger] r.symbols@[i],
    ) by {
        lemma_entry_untouched(o, prefix, i);
        let base = sym_entry(o, i);
        let c = r.bytes@;
        assert(c[base + 0] == np[base + 0] && c[base + 1] == np[base + 1] && c[base + 2] == np[base + 2]
            && c[base + 3] == np[base + 3]);
        assert(c[base + 4] == np[base + 4] && c[base + 6] == np[base + 6] && c[base + 7] == np[base + 7]);
        assert(np[base + 4] == o.bytes@[base + 4]);
        assert(np[base + 6] == o.bytes@[base + 6]);
        assert(np[base + 7] == o.bytes@[base + 7]);
        assert(le32(c, base) == le32(np, base));
        assert(symbol_fields(o.bytes@, sym_entry(o, 0) - SYM_SIZE * 0, i, o.symbols@[i]));
    }
}


/// `d`, decoded from the bytes of a rewritten object, is the renaming of
/// `o`: the new names, the same symbol fields, relocations, symbol and
/// string table indices, and the same sections but for the string table.
pub open spec fn reparsed_as(d: ElfObject, o: ElfObject, prefix: Seq<u8>) -> bool {
    &&& d.symbols@.len() == o.symbols@.len()
    &&& d.names() == new_names(o.symbols@, prefix)
    &&& forall|i: int|
        0 <= i < o.symbols@.len() ==> (#[trigger] d.symbols@[i]).info == o.symbols@[i].info
            && d.symbols@[i].shndx == o.symbols@[i].shndx
    &&& d.relocations@ == o.relocations@
    &&& d.symtab == o.symtab
    &&& d.strtab == o.strtab
    &&& d.sections@.len() == o.sections@.len()
    &&& forall|i: int|
        0 <= i < o.sections@.len() && i != o.strtab ==> #[trigger] d.sections@[i] == o.sections@[i]
}

/// The rewritten bytes of `o` decode again, to the renaming of `o`.
#[verifier::opaque]
pub open spec fn round_trips(o: ElfObject, prefix: Seq<u8>) -> bool {
    &&& valid_object(rewritten_bytes(o, prefix))
    &&& exists|d: ElfObject| #[trigger] decodes(d, rewritten_bytes(o, prefix)) && reparsed_as(d, o, prefix)
}

/// A NUL-terminated string at a given place is unique.
proof fn lemma_cstr_unique(s: Seq<u8>, a: int, e: int, n1: Seq<u8>, n2: Seq<u8>)
    requires
        is_cstr(s, a, e, n1),
        is_cstr(s, a, e, n2),
    ensures
        n1 == n2,
{
    if n1.len() < n2.len() {
        assert(s.subrange(a, a + n2.len())[n1.len() as int] == n2[n1.len() as int]);
    } else if n2.len() < n1.len() {
        assert(s.subrange(a, a + n1.len())[n2.len() as int] == n1[n2.len() as int]);
    }
}

/// Two decodings of the same bytes agree with a renaming alike.
pub proof fn lemma_decodes_agree(d1: ElfObject, d2: ElfObject, b: Seq<u8>, o: ElfObject, prefix: Seq<u8>)
    requires
        decodes(d1, b),
        decodes(d2, b),
    ensures
        reparsed_as(d1, o, prefix) == reparsed_as(d2, o, prefix),
{
    reveal(decodes);
    reveal(ElfObject::wf);
    assert(d1.symtab == d2.symtab) by {
        if d1.symtab < d2.symtab {
            assert(sec_at(b, sh_off(b), d1.symtab as int).sh_type == SHT_SYMTAB);
        } else if d2.symtab < d1.symtab {
            assert(sec_at(b, sh_off(b), d2.symtab as int).sh_type == SHT_SYMTAB);
        }
    }
    assert(d1.sections@ =~= d2.sections@);
    assert forall|i: int| 0 <= i < d1.symbols@.len() implies #[trigger] d1.symbols@[i].name@ == d2.symbols@[i].name@
        && d1.symbols@[i].info == d2.symbols@[i].info && d1.symbols@[i].shndx == d2.symbols@[i].shndx by {
        assert(symbol_fields(b, d1.sections@[d1.symtab as int].offset as int, i, d1.symbols@[i]));
        assert(symbol_fields(b, d2.sections@[d2.symtab as int].offset as int, i, d2.symbols@[i]));
        lemma_cstr_unique(
            b,
            d1.str_start() + d1.symbols@[i].name_off,
            d1.str_end(),
            d1.symbols@[i].name@,
            d2.symbols@[i].name@,
        );
    }
    assert(d1.names() =~= d2.names());
    assert(d1.relocations@ == d2.relocations@);
    assert(d1.strtab == d2.strtab);
    if reparsed_as(d1, o, prefix) {
        assert forall|i: int| 0 <= i < o.symbols@.len() implies (#[trigger] d2.symbols@[i]).info == o.symbols@[i].info
            && d2.symbols@[i].shndx == o.symbols@[i].shndx by {
            assert(d1.symbols@[i].info == d2.symbols@[i].info);
        }
    }
    if reparsed_as(d2, o, prefix) {
        assert forall|i: int| 0 <= i < o.symbols@.len() implies (#[trigger] d1.symbols@[i]).info == o.symbols@[i].info
            && d1.symbols@[i].shndx == o.symbols@[i].shndx by {
            assert(d1.symbols@[i].info == d2.symbols@[i].info);
        }
    }
}


/// Tells whether two buffers hold the same bytes.
pub fn same_bytes(a: &Vec<u8>, b: &Vec<u8>) -> (r: bool)
    ensures
        r == (a@ == b@),
{
    if a.len() != b.len() {
        return false;
    }
    let mut i: usize = 0;
    while i < a.len()
        invariant
            a@.len() == b@.len(),
            i <= a@.len(),
            forall|k: int| 0 <= k < i ==> a@[k] == b@[k],
        decreases a@.len() - i,
    {
        if a[i] != b[i] {
            return false;
        }
        i = i + 1;
    }
    assert(a@ =~= b@);
    true
}

/// Tells whether `d`, decoded from the bytes of a rewritten object, is
/// the renaming of `o` under `prefix`; `flags[i]` tells whether symbol `i`
/// takes the prefix.
pub fn agrees(d: &ElfObject, o: &ElfObject, prefix: &Vec<u8>, flags: &Vec<bool>) -> (r: bool)
    requires
        flags@.len() == o.symbols@.len(),
        forall|i: int| 0 <= i < flags@.len() ==> flags@[i] == renameable(#[trigger] o.symbols@[i], prefix@),
    ensures
        r == reparsed_as(*d, *o, prefix@),
{
    if d.symbols.len() != o.symbols.len() || d.symtab != o.symtab || d.strtab != o.strtab
        || d.sections.len() != o.sections.len() || d.relocations.len() != o.relocations.len() {
        proof {
            if reparsed_as(*d, *o, prefix@) {
                assert(d.names().len() == d.symbols@.len());
            }
        }
        return false;
    }
    let n = o.symbols.len();
    let mut i: usize = 0;
    while i < n
        invariant
            n == o.symbols@.len() == d.symbols@.len() == flags@.len(),
            i <= n,
            forall|k: int| 0 <= k < flags@.len() ==> flags@[k] == renameable(#[trigger] o.symbols@[k], prefix@),
            forall|k: int|
                0 <= k < i ==> (#[trigger] d.symbols@[k]).name@ == new_name(o.symbols@[k], prefix@)
                    && d.symbols@[k].info == o.symbols@[k].info && d.symbols@[k].shndx == o.symbols@[k].shndx,
        decreases n - i,
    {
        assert(flags@[i as int] == renameable(o.symbols@[i as int], prefix@));
        let name_ok = if flags[i] {
            prefixed_equals(prefix, &o.symbols[i].name, &d.symbols[i].name)
        } else {
            same_bytes(&o.symbols[i].name, &d.symbols[i].name)
        };
        if !name_ok || d.symbols[i].info != o.symbols[i].info || d.symbols[i].shndx != o.symbols[i].shndx {
            proof {
                if reparsed_as(*d, *o, prefix@) {
                    assert(d.names()[i as int] == new_names(o.symbols@, prefix@)[i as int]);
                    assert(d.symbols@[i as int].info == o.symbols@[i as int].info);
                }
            }
            return false;
        }
        i = i + 1;
    }
    let m = o.relocations.len();
    let mut k: usize = 0;
    while k < m
        invariant
            m == o.relocations@.len() == d.relocations@.len(),
            k <= m,
            forall|j: int| 0 <= j < k ==> d.relocations@[j] == o.relocations@[j],
        decreases m - k,
    {
        if d.relocations[k] != o.relocations[k] {
            return false;
        }
        k = k + 1;
    }
    let ns = o.sections.len();
    let mut j: usize = 0;
    while j < ns
        invariant
            ns == o.sections@.len() == d.sections@.len(),
            j <= ns,
            forall|q: int| 0 <= q < j && q != o.strtab ==> #[trigger] d.sections@[q] == o.sections@[q],
        decreases ns - j,
    {
        if j != o.strtab && d.sections[j] != o.sections[j] {
            return false;
        }
        j = j + 1;
    }
    assert(d.relocations@ =~= o.relocations@);
    assert(d.names() =~= new_names(o.symbols@, prefix@));
    true
}

} // verus!
