//! The System V `ar` container: member framing, the symbol index, and
//! splitting an input archive into its members.

use vstd::prelude::*;
use crate::bytes::{be32_bytes, push_be32, push_range};
use crate::error::Error;

verus! {

/// `!<arch>\n`, the first eight bytes of every archive.
pub open spec fn ar_magic() -> Seq<u8> {
    seq![0x21u8, 0x3c, 0x61, 0x72, 0x63, 0x68, 0x3e, 0x0a]
}

/// The decimal digits of `n`, most significant first.
pub open spec fn dec(n: nat) -> Seq<u8>
    decreases n,
{
    if n < 10 {
        seq![(48 + n) as u8]
    } else {
        dec(n / 10).push((48 + n % 10) as u8)
    }
}

/// `s` padded with spaces to `w` bytes.
pub open spec fn field(s: Seq<u8>, w: nat) -> Seq<u8> {
    s + Seq::new((w - s.len()) as nat, |_i: int| 0x20u8)
}

/// The 60-byte header of a member named `name` holding `size` bytes, with
/// zero timestamp and owner and mode 644.
pub open spec fn header(name: Seq<u8>, size: nat) -> Seq<u8> {
    field(name, 16) + field(seq![0x30u8], 12) + field(seq![0x30u8], 6) + field(seq![0x30u8], 6)
        + field(seq![0x36u8, 0x34, 0x34], 8) + field(dec(size), 10) + seq![0x60u8, 0x0a]
}

/// A member: its header, its data, and a newline when the data's length is odd.
pub open spec fn framed(name: Seq<u8>, data: Seq<u8>) -> Seq<u8> {
    header(name, data.len()) + data + if data.len() % 2 == 1 {
        seq![0x0au8]
    } else {
        Seq::empty()
    }
}

/// The name of the `k`-th object member: `<k>.o/`.
pub open spec fn member_name(k: nat) -> Seq<u8> {
    dec(k) + seq![0x2eu8, 0x6f, 0x2f]
}

/// The first `k` object members, framed, in the order given.
pub open spec fn members_body(ms: Seq<Seq<u8>>, k: int) -> Seq<u8>
    decreases k,
{
    if k <= 0 {
        Seq::empty()
    } else {
        members_body(ms, k - 1) + framed(member_name((k - 1) as nat), ms[k - 1])
    }
}

/// The names of the first `k` index entries, each followed by a NUL.
pub open spec fn index_names(es: Seq<(Seq<u8>, usize)>, k: int) -> Seq<u8>
    decreases k,
{
    if k <= 0 {
        Seq::empty()
    } else {
        index_names(es, k - 1) + es[k - 1].0 + seq![0u8]
    }
}

/// The big-endian member offsets of the first `k` index entries, when the
/// object members start at `base`.
pub open spec fn index_offsets(es: Seq<(Seq<u8>, usize)>, ms: Seq<Seq<u8>>, base: int, k: int) -> Seq<u8>
    decreases k,
{
    if k <= 0 {
        Seq::empty()
    } else {
        index_offsets(es, ms, base, k - 1) + be32_bytes(
            (base + members_body(ms, es[k - 1].1 as int).len()) as u32,
        )
    }
}

/// The length of the symbol index member's data.
pub open spec fn index_len(es: Seq<(Seq<u8>, usize)>) -> int {
    (4 + 4 * es.len() + index_names(es, es.len() as int).len()) as int
}

/// Where the first object member starts.
pub open spec fn members_base(es: Seq<(Seq<u8>, usize)>) -> int {
    8 + 60 + index_len(es) + index_len(es) % 2
}

/// The symbol index data: the entry count, each entry's member offset, and
/// the entry names.
pub open spec fn index_data(es: Seq<(Seq<u8>, usize)>, ms: Seq<Seq<u8>>) -> Seq<u8> {
    be32_bytes(es.len() as u32) + index_offsets(es, ms, members_base(es), es.len() as int)
        + index_names(es, es.len() as int)
}

/// The whole archive: the magic, then, when there is any member, the symbol
/// index followed by the members in order.
pub open spec fn archive(ms: Seq<Seq<u8>>, es: Seq<(Seq<u8>, usize)>) -> Seq<u8> {
    if ms.len() == 0 {
        ar_magic()
    } else {
        ar_magic() + framed(seq![0x2fu8], index_data(es, ms)) + members_body(ms, ms.len() as int)
    }
}

/// Appends the decimal digits of `n`.
pub fn push_dec(out: &mut Vec<u8>, n: u64)
    ensures
        final(out)@ == old(out)@ + dec(n as nat),
    decreases n,
{
    if n >= 10 {
        push_dec(out, n / 10);
    }
    out.push((48 + n % 10) as u8);
    assert(final(out)@ =~= old(out)@ + dec(n as nat));
}

/// Appends `s` padded with spaces to `w` bytes.
pub fn push_field(out: &mut Vec<u8>, s: &Vec<u8>, w: usize)
    requires
        s@.len() <= w,
    ensures
        final(out)@ == old(out)@ + field(s@, w as nat),
{
    push_range(out, s.as_slice(), 0, s.len());
    let mut i: usize = s.len();
    while i < w
        invariant
            s@.len() <= i <= w,
            out@ == old(out)@ + s@ + Seq::new((i - s@.len()) as nat, |_i: int| 0x20u8),
        decreases w - i,
    {
        out.push(0x20);
        i = i + 1;
        assert(out@ =~= old(out)@ + s@ + Seq::new((i - s@.len()) as nat, |_i: int| 0x20u8));
    }
    assert(s@.subrange(0, s@.len() as int) =~= s@);
    assert(out@ =~= old(out)@ + field(s@, w as nat));
}

/// The decimal digits of `n` as a fresh buffer.
fn dec_vec(n: u64) -> (r: Vec<u8>)
    ensures
        r@ == dec(n as nat),
{
    let mut r: Vec<u8> = Vec::new();
    push_dec(&mut r, n);
    assert(r@ =~= dec(n as nat));
    r
}

/// Appends a member header; fails when the name or the size does not fit
/// its field.
pub fn push_header(out: &mut Vec<u8>, name: &Vec<u8>, size: usize) -> (r: Result<(), Error>)
    ensures
        r is Ok <==> name@.len() <= 16 && dec(size as nat).len() <= 10,
        r is Ok ==> final(out)@ == old(out)@ + header(name@, size as nat),
        r matches Err(e) ==> e == Error::InternalInvariantViolation,
{
    let digits = dec_vec(size as u64);
    if name.len() > 16 || digits.len() > 10 {
        return Err(Error::InternalInvariantViolation);
    }
    let zero = vec![0x30u8];
    let mode = vec![0x36u8, 0x34, 0x34];
    push_field(out, name, 16);
    push_field(out, &zero, 12);
    push_field(out, &zero, 6);
    push_field(out, &zero, 6);
    push_field(out, &mode, 8);
    push_field(out, &digits, 10);
    out.push(0x60);
    out.push(0x0a);
    assert(zero@ =~= seq![0x30u8]);
    assert(mode@ =~= seq![0x36u8, 0x34, 0x34]);
    assert(final(out)@ =~= old(out)@ + header(name@, size as nat));
    Ok(())
}

/// Appends a framed member.
pub fn push_member(out: &mut Vec<u8>, name: &Vec<u8>, data: &Vec<u8>) -> (r: Result<(), Error>)
    ensures
        r is Ok <==> name@.len() <= 16 && dec(data@.len()).len() <= 10,
        r is Ok ==> final(out)@ == old(out)@ + framed(name@, data@),
        r matches Err(e) ==> e == Error::InternalInvariantViolation,
{
    push_header(out, name, data.len())?;
    push_range(out, data.as_slice(), 0, data.len());
    if data.len() % 2 == 1 {
        out.push(0x0a);
    }
    assert(data@.subrange(0, data@.len() as int) =~= data@);
    assert(final(out)@ =~= old(out)@ + framed(name@, data@));
    Ok(())
}


/// A number below ten to the `w` has at most `w` digits.
proof fn lemma_dec_len(n: nat, w: nat, bound: nat)
    requires
        n < bound,
        w >= 1,
        bound == pow10(w),
    ensures
        dec(n).len() <= w,
    decreases w,
{
    if n >= 10 {
        lemma_pow10_step(w);
        assert(n / 10 < pow10((w - 1) as nat)) by (nonlinear_arith)
            requires n < bound, bound == 10 * pow10((w - 1) as nat);
        if w == 1 {
            assert(pow10(0) == 1);
        } else {
            lemma_dec_len(n / 10, (w - 1) as nat, pow10((w - 1) as nat));
        }
    }
}

/// Ten to the `w`.
pub open spec fn pow10(w: nat) -> nat
    decreases w,
{
    if w == 0 {
        1
    } else {
        10 * pow10((w - 1) as nat)
    }
}

proof fn lemma_pow10_values()
    ensures
        pow10(8) == 100_000_000,
        pow10(10) == 10_000_000_000,
{
    reveal_with_fuel(pow10, 11);
}

proof fn lemma_pow10_step(w: nat)
    requires
        w >= 1,
    ensures
        pow10(w) == 10 * pow10((w - 1) as nat),
{
}

/// The index offsets take four bytes per entry.
proof fn lemma_index_offsets_len(es: Seq<(Seq<u8>, usize)>, ms: Seq<Seq<u8>>, base: int, k: int)
    requires
        0 <= k,
    ensures
        index_offsets(es, ms, base, k).len() == 4 * k,
    decreases k,
{
    if k > 0 {
        lemma_index_offsets_len(es, ms, base, k - 1);
    }
}

/// The framed members grow with each member.
proof fn lemma_body_grows(ms: Seq<Seq<u8>>, j: int, k: int)
    requires
        0 <= j <= k,
    ensures
        members_body(ms, j).len() <= members_body(ms, k).len(),
        j < k ==> members_body(ms, j).len() + 60 + ms[j].len() <= members_body(ms, k).len(),
    decreases k,
{
    if j < k {
        lemma_body_grows(ms, j, k - 1);
    }
}

/// Each framed member takes at least 60 bytes.
proof fn lemma_body_len(ms: Seq<Seq<u8>>, k: int)
    requires
        0 <= k,
    ensures
        members_body(ms, k).len() >= 60 * k,
    decreases k,
{
    if k > 0 {
        lemma_body_len(ms, k - 1);
        lemma_body_grows(ms, k - 1, k);
    }
}

/// An archive under 2 GiB has every count, size and offset small enough
/// for the fields of the format.
proof fn lemma_small_archive(ms: Seq<Seq<u8>>, es: Seq<(Seq<u8>, usize)>)
    requires
        ms.len() > 0,
        archive(ms, es).len() <= 0x7fff_ffff,
    ensures
        4 + 4 * es.len() + index_names(es, es.len() as int).len() <= 0x7fff_ffff - 68,
        ms.len() < 100_000_000,
        forall|k: int| 0 <= k < ms.len() ==> (#[trigger] ms[k]).len() < 10_000_000_000,
        forall|m: int| 0 <= m <= ms.len() ==> members_base(es) + (#[trigger] members_body(ms, m)).len() <= 0x7fff_ffff,
{
    let n = ms.len() as int;
    let idx = index_data(es, ms);
    lemma_index_offsets_len(es, ms, members_base(es), es.len() as int);
    assert(idx.len() == index_len(es));
    let f = framed(seq![0x2fu8], idx);
    assert(f.len() >= 60 + idx.len());
    lemma_body_len(ms, n);
    assert forall|k: int| 0 <= k < ms.len() implies (#[trigger] ms[k]).len() < 10_000_000_000 by {
        lemma_body_grows(ms, k, n);
    }
    assert(index_len(es) < 10_000_000_000);
    lemma_pow10_values();
    lemma_dec_len(index_len(es) as nat, 10, pow10(10));
    assert(header(seq![0x2fu8], idx.len()).len() == 60);
    assert forall|m: int| 0 <= m <= ms.len() implies members_base(es) + (#[trigger] members_body(ms, m)).len() <= 0x7fff_ffff by {
        lemma_body_grows(ms, m, n);
    }
}

/// The magic as a fresh buffer.
fn magic_vec() -> (r: Vec<u8>)
    ensures
        r@ == ar_magic(),
{
    let r = vec![0x21u8, 0x3c, 0x61, 0x72, 0x63, 0x68, 0x3e, 0x0a];
    assert(r@ =~= ar_magic());
    r
}

/// The name of the `k`-th object member as a fresh buffer.
fn member_name_vec(k: usize) -> (r: Vec<u8>)
    ensures
        r@ == member_name(k as nat),
{
    let mut r = dec_vec(k as u64);
    r.push(0x2e);
    r.push(0x6f);
    r.push(0x2f);
    assert(r@ =~= member_name(k as nat));
    r
}

/// The contents of each buffer.
pub open spec fn buffers_view(ms: Seq<Vec<u8>>) -> Seq<Seq<u8>> {
    ms.map_values(|m: Vec<u8>| m@)
}

/// The index entries with each name as its contents.
pub open spec fn entries_view(es: Seq<(Vec<u8>, usize)>) -> Seq<(Seq<u8>, usize)> {
    es.map_values(|e: (Vec<u8>, usize)| (e.0@, e.1))
}

/// Packs `ms` into an archive, in the order given, with a symbol index that
/// lists each entry `(name, k)` of `es` as defined in member `k`.
///
/// Fails with `InternalInvariantViolation` exactly when the archive would
/// reach 2 GiB, past which its sizes and offsets may not fit the format's
/// fields.
pub fn build_archive(ms: &Vec<Vec<u8>>, es: &Vec<(Vec<u8>, usize)>) -> (r: Result<Vec<u8>, Error>)
    requires
        forall|i: int| 0 <= i < es@.len() ==> (#[trigger] es@[i]).1 < ms@.len(),
    ensures
        r matches Ok(a) ==> a@ == archive(buffers_view(ms@), entries_view(es@)),
        r matches Err(e) ==> e == Error::InternalInvariantViolation,
        ms@.len() == 0 ==> r is Ok,
        r is Ok <==> archive(buffers_view(ms@), entries_view(es@)).len() <= 0x7fff_ffff,
{
    let ghost msv = buffers_view(ms@);
    let ghost esv = entries_view(es@);
    let ghost small = archive(msv, esv).len() <= 0x7fff_ffff;
    let mut out = magic_vec();
    if ms.len() == 0 {
        return Ok(out);
    }
    proof {
        if small {
            lemma_small_archive(msv, esv);
        }
    }
    let mut names: Vec<u8> = Vec::new();
    let mut i: usize = 0;
    while i < es.len()
        invariant
            esv == entries_view(es@),
            i <= es@.len(),
            names@ == index_names(esv, i as int),
        decreases es@.len() - i,
    {
        push_range(&mut names, es[i].0.as_slice(), 0, es[i].0.len());
        names.push(0);
        i = i + 1;
        assert(es[i - 1].0@.subrange(0, es[i - 1].0@.len() as int) =~= es[i - 1].0@);
        assert(names@ =~= index_names(esv, i as int));
    }
    if es.len() > 0x1fff_ffff || names.len() > 0x7fff_ffff {
        assert(!small);
        return Err(Error::InternalInvariantViolation);
    }
    let idx_len: u64 = 4 + 4 * es.len() as u64 + names.len() as u64;
    let base: u64 = 68 + idx_len + idx_len % 2;
    assert(base == members_base(esv));
    let mut body: Vec<u8> = Vec::new();
    let mut offs: Vec<usize> = Vec::new();
    let mut k: usize = 0;
    while k < ms.len()
        invariant
            msv == buffers_view(ms@),
            esv == entries_view(es@),
            k <= ms@.len(),
            body@ == members_body(msv, k as int),
            offs@.len() == k,
            small ==> msv.len() < 100_000_000,
            small ==> forall|j: int| 0 <= j < msv.len() ==> (#[trigger] msv[j]).len() < 10_000_000_000,
            small == (archive(msv, esv).len() <= 0x7fff_ffff),
            forall|j: int| 0 <= j < k ==> #[trigger] offs@[j] == members_body(msv, j).len(),
        decreases ms@.len() - k,
    {
        offs.push(body.len());
        let name = member_name_vec(k);
        proof {
            lemma_pow10_values();
            if small {
                lemma_dec_len(k as nat, 8, pow10(8));
                assert(msv[k as int] == ms@[k as int]@);
                lemma_dec_len(ms@[k as int]@.len(), 10, pow10(10));
            }
        }
        match push_member(&mut body, &name, &ms[k]) {
            Ok(()) => {},
            Err(e) => {
                assert(!small);
                return Err(e);
            },
        }
        k = k + 1;
        assert(body@ =~= members_body(msv, k as int));
    }
    let mut offsets: Vec<u8> = Vec::new();
    let mut i: usize = 0;
    while i < es.len()
        invariant
            esv == entries_view(es@),
            msv == buffers_view(ms@),
            i <= es@.len(),
            base == members_base(esv),
            offs@.len() == ms@.len(),
            forall|j: int| 0 <= j < ms@.len() ==> #[trigger] offs@[j] == members_body(msv, j).len(),
            forall|j: int| 0 <= j < es@.len() ==> (#[trigger] es@[j]).1 < ms@.len(),
            offsets@ == index_offsets(esv, msv, base as int, i as int),
            small ==> forall|m: int| 0 <= m <= msv.len() ==> members_base(esv) + (#[trigger] members_body(msv, m)).len() <= 0x7fff_ffff,
            small == (archive(msv, esv).len() <= 0x7fff_ffff),
        decreases es@.len() - i,
    {
        let m = es[i].1;
        let off = offs[m];
        if off as u64 > 0xffff_ffff || base > 0xffff_ffff - off as u64 {
            assert(!small) by {
                if small {
                    assert(members_base(esv) + members_body(msv, m as int).len() <= 0x7fff_ffff);
                }
            }
            return Err(Error::InternalInvariantViolation);
        }
        push_be32(&mut offsets, (base + off as u64) as u32);
        i = i + 1;
        assert(offsets@ =~= index_offsets(esv, msv, base as int, i as int));
    }
    let mut idx: Vec<u8> = Vec::new();
    push_be32(&mut idx, es.len() as u32);
    push_range(&mut idx, offsets.as_slice(), 0, offsets.len());
    push_range(&mut idx, names.as_slice(), 0, names.len());
    assert(offsets@.subrange(0, offsets@.len() as int) =~= offsets@);
    assert(names@.subrange(0, names@.len() as int) =~= names@);
    assert(idx@ =~= index_data(esv, msv));
    let slash = vec![0x2fu8];
    proof {
        lemma_pow10_values();
        if small {
            lemma_dec_len(idx@.len(), 10, pow10(10));
        }
    }
    match push_member(&mut out, &slash, &idx) {
        Ok(()) => {},
        Err(e) => {
            assert(!small);
            return Err(e);
        },
    }
    push_range(&mut out, body.as_slice(), 0, body.len());
    assert(slash@ =~= seq![0x2fu8]);
    assert(body@.subrange(0, body@.len() as int) =~= body@);
    assert(out@ =~= archive(msv, esv));
    if out.len() > 0x7fff_ffff {
        return Err(Error::InternalInvariantViolation);
    }
    Ok(out)
}


/// `s` starts with the archive magic.
pub open spec fn ar_prefix(s: Seq<u8>) -> bool {
    s.len() >= 8 && s.subrange(0, 8) == ar_magic()
}

/// `m` stands somewhere inside `s`.
pub open spec fn is_part_of(m: Seq<u8>, s: Seq<u8>) -> bool {
    exists|p: int| 0 <= p && p + m.len() <= s.len() && #[trigger] s.subrange(p, p + m.len()) == m
}

/// Tells whether `b` starts with the archive magic.
pub fn is_archive(b: &[u8]) -> (r: bool)
    ensures
        r == ar_prefix(b@),
{
    if b.len() < 8 {
        return false;
    }
    let m = magic_vec();
    let mut i: usize = 0;
    while i < 8
        invariant
            i <= 8 <= b@.len(),
            m@ == ar_magic(),
            forall|k: int| 0 <= k < i ==> b@[k] == m@[k],
        decreases 8 - i,
    {
        if b[i] != m[i] {
            assert(b@.subrange(0, 8)[i as int] != ar_magic()[i as int]);
            return false;
        }
        i = i + 1;
    }
    assert(b@.subrange(0, 8) =~= ar_magic());
    true
}

pub open spec fn is_digit(c: u8) -> bool {
    0x30 <= c <= 0x39
}

/// The number that the `i` digits at `at` spell.
pub open spec fn digits_value(s: Seq<u8>, at: int, i: int) -> int
    decreases i,
{
    if i <= 0 {
        0
    } else {
        digits_value(s, at, i - 1) * 10 + (s[at + i - 1] - 0x30)
    }
}

/// The ten-byte size field at `at` holds `i` digits, then spaces.
pub open spec fn size_digits(s: Seq<u8>, at: int, i: int) -> bool {
    &&& 1 <= i <= 10
    &&& forall|j: int| 0 <= j < i ==> is_digit(#[trigger] s[at + j])
    &&& forall|j: int| i <= j < 10 ==> #[trigger] s[at + j] == 0x20
}

/// The value of the size field at `at`, if it is well formed.
pub open spec fn size_field(s: Seq<u8>, at: int) -> Option<int> {
    if exists|i: int| size_digits(s, at, i) {
        Some(digits_value(s, at, choose|i: int| size_digits(s, at, i)))
    } else {
        None
    }
}

/// A member named `/` followed by anything but a digit is the symbol index
/// or the long-name table, not an object.
pub open spec fn special_name(s: Seq<u8>, pos: int) -> bool {
    s[pos] == 0x2f && !is_digit(s[pos + 1])
}

/// The object members of the archive `s` from the member header at `pos`
/// on, in order, or `None` if a header is damaged or a member runs past
/// the end.
pub open spec fn ar_members(s: Seq<u8>, pos: int) -> Option<Seq<Seq<u8>>>
    decreases s.len() - pos,
{
    if pos >= s.len() {
        Some(Seq::empty())
    } else if s.len() - pos < 60 {
        None
    } else {
        match size_field(s, pos + 48) {
            None => None,
            Some(size) => {
                let start = pos + 60;
                if size < 0 || s[pos + 58] != 0x60 || s[pos + 59] != 0x0a || size > s.len() - start {
                    None
                } else {
                    let next = if size % 2 == 1 && start + size < s.len() {
                        start + size + 1
                    } else {
                        start + size
                    };
                    match ar_members(s, next) {
                        None => None,
                        Some(rest) => Some(
                            if special_name(s, pos) {
                                rest
                            } else {
                                seq![s.subrange(start, start + size)] + rest
                            },
                        ),
                    }
                }
            },
        }
    }
}

proof fn lemma_pow10_le(i: nat, k: nat)
    requires
        i <= k,
    ensures
        1 <= pow10(i) <= pow10(k),
    decreases k,
{
    if i < k {
        lemma_pow10_le(i, (k - 1) as nat);
    } else if k > 0 {
        lemma_pow10_le((k - 1) as nat, (k - 1) as nat);
    }
}

/// Reads the decimal size field of ten bytes at `at`: digits, then spaces.
fn parse_size(b: &[u8], at: usize) -> (r: Option<usize>)
    requires
        at + 10 <= b@.len(),
    ensures
        r matches Some(v) ==> size_field(b@, at as int) == Some(v as int),
        r is None ==> size_field(b@, at as int) is None || size_field(b@, at as int)->Some_0 > usize::MAX,
{
    let _n = b.len(); // the length fits in usize
    let mut v: u64 = 0;
    let mut i: usize = 0;
    proof {
        lemma_pow10_values();
    }
    while i < 10 && 0x30 <= b[at + i] && b[at + i] <= 0x39
        invariant
            i <= 10,
            at + 10 <= b@.len() <= usize::MAX,
            v == digits_value(b@, at as int, i as int),
            v < pow10(i as nat),
            pow10(10) == 10_000_000_000,
            forall|j: int| 0 <= j < i ==> is_digit(#[trigger] b@[at + j]),
        decreases 10 - i,
    {
        proof {
            lemma_pow10_le((i + 1) as nat, 10);
        }
        v = v * 10 + (b[at + i] - 0x30) as u64;
        i = i + 1;
    }
    if i == 0 {
        assert(!is_digit(b@[at + 0]));
        assert forall|k: int| !size_digits(b@, at as int, k) by {
            if 1 <= k <= 10 {
                assert(is_digit(b@[at + 0]) || b@[at + 0] == 0x20 || !size_digits(b@, at as int, k));
            }
        }
        return None;
    }
    let mut j: usize = i;
    while j < 10
        invariant
            i <= j <= 10,
            1 <= i,
            at + 10 <= b@.len() <= usize::MAX,
            forall|k: int| i <= k < j ==> #[trigger] b@[at + k] == 0x20,
            forall|k: int| 0 <= k < i ==> is_digit(#[trigger] b@[at + k]),
            i < 10 ==> !is_digit(b@[at + i]),
            v == digits_value(b@, at as int, i as int),
        decreases 10 - j,
    {
        if b[at + j] != 0x20 {
            proof {
                assert forall|k: int| !size_digits(b@, at as int, k) by {
                    if 1 <= k <= 10 && size_digits(b@, at as int, k) {
                        if k <= j {
                            assert(b@[at + j as int] == 0x20);
                        } else {
                            assert(is_digit(b@[at + i as int]));
                        }
                    }
                }
            }
            return None;
        }
        j = j + 1;
    }
    assert(size_digits(b@, at as int, i as int));
    proof {
        assert forall|k: int| #[trigger] size_digits(b@, at as int, k) implies k == i by {
            if k < i {
                assert(is_digit(b@[at + k]));
            } else if k > i {
                assert(is_digit(b@[at + i]));
            }
        }
    }
    if v > usize::MAX as u64 {
        return None;
    }
    Some(v as usize)
}

/// Splits an archive into the data of its object members, in order,
/// leaving out its index and name-table members.
///
/// Succeeds exactly when `ar_members` does, with its members. Fails with
/// `MalformedBinary` when a member header is damaged or a member runs past
/// the end of the buffer.
pub fn split_archive(b: &[u8]) -> (r: Result<Vec<Vec<u8>>, Error>)
    requires
        ar_prefix(b@),
    ensures
        r is Ok <==> ar_members(b@, 8) is Some,
        r matches Ok(ms) ==> Some(buffers_view(ms@)) == ar_members(b@, 8),
        r matches Ok(ms) ==> forall|i: int| 0 <= i < ms@.len() ==> is_part_of(#[trigger] ms@[i]@, b@),
        r matches Err(e) ==> e == Error::MalformedBinary,
{
    let n = b.len();
    let mut ms: Vec<Vec<u8>> = Vec::new();
    let mut pos: usize = 8;
    while pos < n
        invariant
            n == b@.len(),
            8 <= pos,
            forall|i: int| 0 <= i < ms@.len() ==> is_part_of(#[trigger] ms@[i]@, b@),
            ar_members(b@, 8) == match ar_members(b@, pos as int) {
                Some(x) => Some(buffers_view(ms@) + x),
                None => None::<Seq<Seq<u8>>>,
            },
        decreases n - pos,
    {
        if n - pos < 60 {
            return Err(Error::MalformedBinary);
        }
        let size = match parse_size(b, pos + 48) {
            Some(v) => v,
            None => {
                return Err(Error::MalformedBinary);
            },
        };
        let start = pos + 60;
        if b[pos + 58] != 0x60 || b[pos + 59] != 0x0a || size > n - start {
            return Err(Error::MalformedBinary);
        }
        let special = b[pos] == 0x2f && !(0x30 <= b[pos + 1] && b[pos + 1] <= 0x39);
        let next = if size % 2 == 1 && start + size < n { start + size + 1 } else { start + size };
        let ghost before = buffers_view(ms@);
        if !special {
            let mut m: Vec<u8> = Vec::new();
            push_range(&mut m, b, start, start + size);
            assert(b@.subrange(start as int, start + m@.len()) == m@);
            ms.push(m);
            assert(buffers_view(ms@) =~= before + seq![b@.subrange(start as int, start + size)]);
        }
        proof {
            if let Some(x) = ar_members(b@, next as int) {
                if !special {
                    assert(before + (seq![b@.subrange(start as int, start + size)] + x) =~= buffers_view(ms@) + x);
                }
            }
        }
        pos = next;
    }
    assert(buffers_view(ms@) + Seq::<Seq<u8>>::empty() =~= buffers_view(ms@));
    Ok(ms)
}

} // verus!
