//! A session: a prefix, the objects added so far, and the archive they make.

use vstd::prelude::*;
use vstd::string::StringSliceAdditionalSpecFns;
use crate::archive::{ar_members, buffers_view, entries_view, ar_magic, ar_prefix, archive, build_archive, is_archive, is_part_of, split_archive};
use crate::elf::{decodes, valid_object, elf_magic, is_elf_object, parse_object, ElfObject, Symbol};
use crate::error::Error;
use crate::rename::{collides, defined_global, is_defined_global, plan_renames, renameable};
use crate::rewrite::{agrees, lemma_decodes_agree, reparsed_as, round_trips, added_len, renamed_from, rewrite};

verus! {

/// What the leading bytes of a buffer say it holds.
#[derive(Clone, Copy, Debug, PartialEq, Eq, Structural)]
pub enum Format {
    Object,
    Archive,
    Unrecognized,
}

/// The format that the magic region of `s` names.
pub open spec fn format_of(s: Seq<u8>) -> Format {
    if elf_magic(s) {
        Format::Object
    } else if ar_prefix(s) {
        Format::Archive
    } else {
        Format::Unrecognized
    }
}

/// Classifies a buffer by its magic region alone.
pub fn detect_format(b: &[u8]) -> (r: Format)
    ensures
        r == format_of(b@),
{
    if is_elf_object(b) {
        Format::Object
    } else if is_archive(b) {
        Format::Archive
    } else {
        Format::Unrecognized
    }
}

/// A byte that may stand in a symbol name: a letter, a digit, `_`, `.` or `$`.
pub open spec fn symbol_char(c: u8) -> bool {
    (0x41 <= c <= 0x5a) || (0x61 <= c <= 0x7a) || (0x30 <= c <= 0x39) || c == 0x5f || c == 0x2e
        || c == 0x24
}

/// A prefix is a non-empty run of symbol characters that does not start
/// with a digit.
pub open spec fn valid_prefix(p: Seq<u8>) -> bool {
    &&& p.len() > 0
    &&& !(0x30 <= p[0] <= 0x39)
    &&& forall|j: int| 0 <= j < p.len() ==> symbol_char(#[trigger] p[j])
}

/// Tells whether `p` is a valid prefix.
pub fn is_valid_prefix(p: &[u8]) -> (r: bool)
    ensures
        r == valid_prefix(p@),
{
    if p.len() == 0 || (0x30 <= p[0] && p[0] <= 0x39) {
        return false;
    }
    let mut i: usize = 0;
    while i < p.len()
        invariant
            i <= p@.len(),
            forall|j: int| 0 <= j < i ==> symbol_char(#[trigger] p@[j]),
        decreases p@.len() - i,
    {
        let c = p[i];
        if !((0x41 <= c && c <= 0x5a) || (0x61 <= c && c <= 0x7a) || (0x30 <= c && c <= 0x39)
            || c == 0x5f || c == 0x2e || c == 0x24) {
            return false;
        }
        i = i + 1;
    }
    true
}

/// The index entries of one object: each defined global's name, with the
/// member `k` that holds it, in symbol table order.
pub open spec fn global_entries(syms: Seq<Symbol>, k: usize, n: int) -> Seq<(Seq<u8>, usize)>
    decreases n,
{
    if n <= 0 {
        Seq::empty()
    } else if defined_global(syms[n - 1]) {
        global_entries(syms, k, n - 1).push((syms[n - 1].name@, k))
    } else {
        global_entries(syms, k, n - 1)
    }
}

/// The index entries of the first `k` objects.
pub open spec fn all_entries(os: Seq<ElfObject>, k: int) -> Seq<(Seq<u8>, usize)>
    decreases k,
{
    if k <= 0 {
        Seq::empty()
    } else {
        all_entries(os, k - 1) + global_entries(
            os[k - 1].symbols@,
            (k - 1) as usize,
            os[k - 1].symbols@.len() as int,
        )
    }
}

/// The entries of the first `k` objects depend on those objects alone.
proof fn lemma_entries_agree(s: Seq<ElfObject>, t: Seq<ElfObject>, k: int)
    requires
        0 <= k <= s.len(),
        k <= t.len(),
        forall|i: int| 0 <= i < k ==> s[i] == t[i],
    ensures
        all_entries(s, k) == all_entries(t, k),
    decreases k,
{
    if k > 0 {
        lemma_entries_agree(s, t, k - 1);
    }
}

/// The bytes of each object.
pub open spec fn object_bytes(os: Seq<ElfObject>) -> Seq<Seq<u8>> {
    os.map_values(|o: ElfObject| o.bytes@)
}

/// Renaming `o` would grow its string table past 32-bit name offsets.
pub open spec fn strtab_overflows(o: ElfObject, prefix: Seq<u8>) -> bool {
    o.sections@[o.strtab as int].size + added_len(o.symbols@, prefix, o.symbols@.len() as int) > 0xffff_ffff
}

/// Every object member of the archive `s` is a valid object.
pub open spec fn valid_archive(s: Seq<u8>) -> bool {
    ar_members(s, 8) matches Some(ms) && forall|k: int| 0 <= k < ms.len() ==> valid_object(#[trigger] ms[k])
}

/// Decodes every object member of an archive, in order; any member that
/// is not a well-formed object makes the whole archive `MalformedBinary`.
fn parse_members(bin: &[u8]) -> (r: Result<Vec<ElfObject>, Error>)
    requires
        ar_prefix(bin@),
    ensures
        r matches Ok(os) ==> forall|k: int|
            0 <= k < os@.len() ==> (#[trigger] os@[k]).wf() && is_part_of(os@[k].bytes@, bin@),
        r is Ok <==> valid_archive(bin@),
        r matches Ok(os) ==> ar_members(bin@, 8) matches Some(ms) && os@.len() == ms.len() && forall|k: int|
            0 <= k < ms.len() ==> (#[trigger] os@[k]).bytes@ == ms[k] && decodes(os@[k], ms[k]),
        r matches Err(e) ==> e == Error::MalformedBinary,
{
    let members = match split_archive(bin) {
        Ok(ms) => ms,
        Err(_) => return Err(Error::MalformedBinary),
    };
    let mut parsed: Vec<ElfObject> = Vec::new();
    let mut i: usize = 0;
    while i < members.len()
        invariant
            i <= members@.len(),
            forall|k: int| 0 <= k < members@.len() ==> is_part_of(#[trigger] members@[k]@, bin@),
            parsed@.len() == i,
            forall|k: int| 0 <= k < i ==> (#[trigger] parsed@[k]).wf() && is_part_of(parsed@[k].bytes@, bin@),
            Some(buffers_view(members@)) == ar_members(bin@, 8),
            forall|k: int| 0 <= k < i ==> (#[trigger] parsed@[k]).bytes@ == members@[k]@ && valid_object(members@[k]@)
                && decodes(parsed@[k], members@[k]@),
        decreases members@.len() - i,
    {
        let o = match parse_object(members[i].as_slice()) {
            Ok(o) => o,
            Err(_) => {
                assert(buffers_view(members@)[i as int] == members@[i as int]@);
                return Err(Error::MalformedBinary);
            },
        };
        assert(is_part_of(members@[i as int]@, bin@));
        parsed.push(o);
        i = i + 1;
    }
    proof {
        let ms = buffers_view(members@);
        assert forall|k: int| 0 <= k < ms.len() implies valid_object(#[trigger] ms[k]) by {
            assert(parsed@[k].bytes@ == members@[k]@);
        }
    }
    Ok(parsed)
}

/// The objects that a buffer brings, in order: the buffer itself when it
/// is an object, the object members of an archive, and none otherwise.
pub open spec fn decoded_bytes(s: Seq<u8>) -> Seq<Seq<u8>> {
    match format_of(s) {
        Format::Object => seq![s],
        Format::Archive => match ar_members(s, 8) {
            Some(ms) => ms,
            None => Seq::empty(),
        },
        Format::Unrecognized => Seq::empty(),
    }
}

/// Decodes an object, or every object member of an archive, in order.
fn decode_binary(bin: &[u8]) -> (r: Result<Vec<ElfObject>, Error>)
    ensures
        r matches Ok(os) ==> forall|k: int|
            0 <= k < os@.len() ==> (#[trigger] os@[k]).wf() && is_part_of(os@[k].bytes@, bin@),
        r matches Ok(os) ==> (format_of(bin@) == Format::Object ==> os@.len() == 1 && os@[0].bytes@ == bin@),
        r matches Ok(os) ==> os@.len() == decoded_bytes(bin@).len() && forall|k: int|
            0 <= k < os@.len() ==> (#[trigger] os@[k]).bytes@ == decoded_bytes(bin@)[k] && decodes(os@[k], decoded_bytes(bin@)[k]),
        format_of(bin@) == Format::Unrecognized ==> r == Err::<Vec<ElfObject>, Error>(Error::UnsupportedFormat),
        format_of(bin@) == Format::Object ==> (r is Ok <==> valid_object(bin@)),
        format_of(bin@) == Format::Archive ==> (r is Ok <==> valid_archive(bin@)),
        r matches Err(e) ==> (e == Error::UnsupportedFormat <==> format_of(bin@) == Format::Unrecognized),
        r matches Err(e) ==> e == Error::UnsupportedFormat || e == Error::MalformedBinary,
{
    match detect_format(bin) {
        Format::Object => {
            let o = match parse_object(bin) {
                Ok(o) => o,
                Err(e) => return Err(e),
            };
            proof {
                assert(bin@.subrange(0, 0 + o.bytes@.len() as int) =~= o.bytes@);
            }
            let mut os: Vec<ElfObject> = Vec::new();
            os.push(o);
            Ok(os)
        },
        Format::Archive => parse_members(bin),
        Format::Unrecognized => Err(Error::UnsupportedFormat),
    }
}

/// Appends the index entries of `o`, held in member `k`.
fn push_entries(o: &ElfObject, k: usize, es: &mut Vec<(Vec<u8>, usize)>)
    requires
        forall|i: int| 0 <= i < old(es)@.len() ==> (#[trigger] old(es)@[i]).1 <= k,
    ensures
        entries_view(final(es)@) == entries_view(old(es)@) + global_entries(o.symbols@, k, o.symbols@.len() as int),
        forall|i: int| 0 <= i < final(es)@.len() ==> (#[trigger] final(es)@[i]).1 <= k,
{
    let ghost start = entries_view(es@);
    let mut i: usize = 0;
    while i < o.symbols.len()
        invariant
            i <= o.symbols@.len(),
            entries_view(es@) == start + global_entries(o.symbols@, k, i as int),
            forall|j: int| 0 <= j < es@.len() ==> (#[trigger] es@[j]).1 <= k,
        decreases o.symbols@.len() - i,
    {
        let s = &o.symbols[i];
        if is_defined_global(s) {
            let ghost before = entries_view(es@);
            let name = s.name.clone();
            assert(name@ == s.name@);
            es.push((name, k));
            assert(entries_view(es@) =~= before.push((s.name@, k)));
        }
        i = i + 1;
        assert(entries_view(es@) =~= start + global_entries(o.symbols@, k, i as int));
    }
}

/// `rs` are the rewritten forms of `os` under `prefix`, in order.
pub open spec fn rewrites_of(rs: Seq<ElfObject>, os: Seq<ElfObject>, prefix: Seq<u8>) -> bool {
    &&& rs.len() == os.len()
    &&& forall|k: int| 0 <= k < os.len() ==> (#[trigger] rs[k]).wf() && renamed_from(rs[k], os[k], prefix)
}

/// The archive made of `rs`, the rewritten forms of `os` under `prefix`.
pub open spec fn archive_of(rs: Seq<ElfObject>, os: Seq<ElfObject>, prefix: Seq<u8>, a: Seq<u8>) -> bool {
    rewrites_of(rs, os, prefix) && a == archive(object_bytes(rs), all_entries(rs, rs.len() as int))
}

/// Building from `os` under `prefix` succeeds: no string table outgrows
/// 32-bit offsets, every rewritten object decodes again to its renaming,
/// and the archive stays under 2 GiB.
#[verifier::opaque]
pub open spec fn builds(os: Seq<ElfObject>, prefix: Seq<u8>) -> bool {
    &&& forall|k: int| 0 <= k < os.len() ==> !strtab_overflows(#[trigger] os[k], prefix) && round_trips(os[k], prefix)
    &&& forall|rs: Seq<ElfObject>|
        #[trigger] rewrites_of(rs, os, prefix) ==> archive(object_bytes(rs), all_entries(rs, rs.len() as int)).len()
            <= 0x7fff_ffff
}

/// Index entries depend on symbol names, info bytes and section indices alone.
proof fn lemma_global_entries_same(s1: Seq<Symbol>, s2: Seq<Symbol>, k: usize, n: int)
    requires
        0 <= n <= s1.len(),
        n <= s2.len(),
        forall|i: int|
            0 <= i < n ==> (#[trigger] s1[i]).name@ == s2[i].name@ && s1[i].info == s2[i].info && s1[i].shndx
                == s2[i].shndx,
    ensures
        global_entries(s1, k, n) == global_entries(s2, k, n),
    decreases n,
{
    if n > 0 {
        lemma_global_entries_same(s1, s2, k, n - 1);
        assert(s1[n - 1].name@ == s2[n - 1].name@);
    }
}

/// Any two rewritings of the same objects pack into the same archive.
proof fn lemma_rewrites_same_archive(rs1: Seq<ElfObject>, rs2: Seq<ElfObject>, os: Seq<ElfObject>, prefix: Seq<u8>, k: int)
    requires
        rewrites_of(rs1, os, prefix),
        rewrites_of(rs2, os, prefix),
        0 <= k <= os.len(),
    ensures
        all_entries(rs1, k) == all_entries(rs2, k),
        object_bytes(rs1) == object_bytes(rs2),
    decreases k,
{
    if k > 0 {
        lemma_rewrites_same_archive(rs1, rs2, os, prefix, k - 1);
        let a = rs1[k - 1];
        let b = rs2[k - 1];
        assert(renamed_from(a, os[k - 1], prefix) && renamed_from(b, os[k - 1], prefix));
        assert forall|i: int| 0 <= i < a.symbols@.len() implies (#[trigger] a.symbols@[i]).name@ == b.symbols@[i].name@
            && a.symbols@[i].info == b.symbols@[i].info && a.symbols@[i].shndx == b.symbols@[i].shndx by {
            assert(a.names()[i] == b.names()[i]);
            assert(a.symbols@[i].info == os[k - 1].symbols@[i].info);
            assert(b.symbols@[i].info == os[k - 1].symbols@[i].info);
        }
        lemma_global_entries_same(a.symbols@, b.symbols@, (k - 1) as usize, a.symbols@.len() as int);
    }
    assert forall|j: int| 0 <= j < rs1.len() implies object_bytes(rs1)[j] == object_bytes(rs2)[j] by {
        assert(renamed_from(rs1[j], os[j], prefix) && renamed_from(rs2[j], os[j], prefix));
    }
    assert(object_bytes(rs1) =~= object_bytes(rs2));
}

/// Building fails when some object cannot be rewritten and decoded again.
proof fn lemma_builds_needs_each(os: Seq<ElfObject>, prefix: Seq<u8>, k: int)
    requires
        0 <= k < os.len(),
        strtab_overflows(os[k], prefix) || !round_trips(os[k], prefix),
    ensures
        !builds(os, prefix),
{
    reveal(builds);
}

/// Building fails when a rewriting packs into 2 GiB or more.
proof fn lemma_builds_needs_size(os: Seq<ElfObject>, prefix: Seq<u8>, rs: Seq<ElfObject>)
    requires
        rewrites_of(rs, os, prefix),
        archive(object_bytes(rs), all_entries(rs, rs.len() as int)).len() > 0x7fff_ffff,
    ensures
        !builds(os, prefix),
{
    reveal(builds);
}

/// Building succeeds when every object round-trips and one rewriting packs
/// into less than 2 GiB.
proof fn lemma_builds_from(os: Seq<ElfObject>, prefix: Seq<u8>, rs: Seq<ElfObject>)
    requires
        forall|k: int| 0 <= k < os.len() ==> !strtab_overflows(#[trigger] os[k], prefix) && round_trips(os[k], prefix),
        rewrites_of(rs, os, prefix),
        archive(object_bytes(rs), all_entries(rs, rs.len() as int)).len() <= 0x7fff_ffff,
    ensures
        builds(os, prefix),
{
    reveal(builds);
    assert forall|rs2: Seq<ElfObject>| #[trigger] rewrites_of(rs2, os, prefix) implies archive(
        object_bytes(rs2),
        all_entries(rs2, rs2.len() as int),
    ).len() <= 0x7fff_ffff by {
        lemma_rewrites_same_archive(rs, rs2, os, prefix, os.len() as int);
    }
}

/// Rewrites `o` and decodes the result again, as a check that the rewrite
/// kept the object's tables consistent.
///
/// Fails with `InternalInvariantViolation` exactly when the string table
/// would outgrow 32-bit offsets or the rewritten object does not decode to
/// the renaming of `o`.
fn rewrite_checked(o: &ElfObject, prefix: &Vec<u8>, flags: &Vec<bool>) -> (r: Result<ElfObject, Error>)
    requires
        o.wf(),
        forall|j: int| 0 <= j < prefix@.len() ==> prefix@[j] != 0,
        flags@.len() == o.symbols@.len(),
        forall|i: int| 0 <= i < flags@.len() ==> flags@[i] == renameable(#[trigger] o.symbols@[i], prefix@),
    ensures
        r matches Ok(n) ==> n.wf() && renamed_from(n, *o, prefix@),
        r is Ok <==> !strtab_overflows(*o, prefix@) && round_trips(*o, prefix@),
        r matches Err(e) ==> e == Error::InternalInvariantViolation,
{
    proof {
        reveal(round_trips);
    }
    let r = match rewrite(o, prefix, flags) {
        Ok(r) => r,
        Err(e) => return Err(e),
    };
    let d = match parse_object(r.bytes.as_slice()) {
        Ok(d) => d,
        Err(_) => return Err(Error::InternalInvariantViolation),
    };
    if !agrees(&d, o, prefix, flags) {
        proof {
            let b = crate::rewrite::rewritten_bytes(*o, prefix@);
            assert forall|d2: ElfObject| #[trigger] decodes(d2, b) implies !reparsed_as(d2, *o, prefix@) by {
                lemma_decodes_agree(d, d2, b, *o, prefix@);
            }
        }
        return Err(Error::InternalInvariantViolation);
    }
    Ok(r)
}

/// A renaming session.
pub struct Bartleby {
    pub prefix: Option<Vec<u8>>,
    pub objects: Vec<ElfObject>,
}

impl Bartleby {
    /// The prefix's bytes, once set.
    pub open spec fn prefix_view(&self) -> Option<Seq<u8>> {
        match self.prefix {
            Some(p) => Some(p@),
            None => None,
        }
    }

    /// The prefix, once set, is valid, and every object added is well formed.
    pub open spec fn wf(&self) -> bool {
        &&& self.prefix matches Some(p) ==> valid_prefix(p@)
        &&& forall|k: int| 0 <= k < self.objects@.len() ==> (#[trigger] self.objects@[k]).wf()
    }

    /// Starts an empty session with no prefix.
    pub fn try_new() -> (r: Result<Self, Error>)
        ensures
            r matches Ok(s) ==> s.wf() && s.prefix is None && s.objects@.len() == 0,
            r is Ok,
    {
        Ok(Bartleby { prefix: None, objects: Vec::new() })
    }

    /// Sets the prefix that every renameable symbol will take.
    ///
    /// Fails with `InvalidPrefix` when `prefix` is not a valid prefix or a
    /// prefix was already set; the session is then left as it was.
    pub fn set_prefix(&mut self, prefix: &str) -> (r: Result<(), Error>)
        requires
            old(self).wf(),
        ensures
            final(self).wf(),
            final(self).objects@ == old(self).objects@,
            r is Ok <==> old(self).prefix is None && valid_prefix(prefix.spec_bytes()),
            r is Ok ==> final(self).prefix_view() == Some(prefix.spec_bytes()),
            r is Err ==> final(self).prefix_view() == old(self).prefix_view(),
            r matches Err(e) ==> e == Error::InvalidPrefix,
    {
        let b = prefix.as_bytes();
        if !is_valid_prefix(b) {
            return Err(Error::InvalidPrefix);
        }
        if self.prefix.is_some() {
            return Err(Error::InvalidPrefix);
        }
        let mut p: Vec<u8> = Vec::new();
        crate::bytes::push_range(&mut p, b, 0, b.len());
        assert(p@ =~= b@);
        self.prefix = Some(p);
        Ok(())
    }

    /// Adds an object, or every object member of an archive, in order.
    ///
    /// Fails with `UnsupportedFormat` exactly when the buffer is neither an
    /// object nor an archive, and with `MalformedBinary` when it, or a member
    /// of it, cannot be decoded; on failure nothing is added.
    pub fn add_binary(&mut self, bin: &[u8]) -> (r: Result<(), Error>)
        requires
            old(self).wf(),
        ensures
            final(self).wf(),
            final(self).prefix_view() == old(self).prefix_view(),
            r is Err ==> final(self).objects@ == old(self).objects@,
            format_of(bin@) == Format::Unrecognized ==> r == Err::<(), Error>(Error::UnsupportedFormat),
            format_of(bin@) == Format::Object ==> (r is Ok <==> valid_object(bin@)),
            format_of(bin@) == Format::Archive ==> (r is Ok <==> valid_archive(bin@)),
            r is Ok ==> final(self).objects@.len() == old(self).objects@.len() + decoded_bytes(bin@).len()
                && forall|k: int|
                0 <= k < decoded_bytes(bin@).len() ==> (#[trigger] final(self).objects@[old(self).objects@.len() + k]).bytes@
                    == decoded_bytes(bin@)[k] && decodes(final(self).objects@[old(self).objects@.len() + k], decoded_bytes(bin@)[k]),
            r matches Err(e) ==> (e == Error::UnsupportedFormat <==> format_of(bin@) == Format::Unrecognized),
            r matches Err(e) ==> e == Error::UnsupportedFormat || e == Error::MalformedBinary,
            r is Ok && format_of(bin@) == Format::Object ==> final(self).objects@.len() == old(self).objects@.len() + 1
                && final(self).objects@.last().bytes@ == bin@,
            r is Ok ==> final(self).objects@.len() >= old(self).objects@.len() && forall|k: int|
                0 <= k < final(self).objects@.len() ==> if k < old(self).objects@.len() {
                    final(self).objects@[k] == old(self).objects@[k]
                } else {
                    is_part_of((#[trigger] final(self).objects@[k]).bytes@, bin@)
                },
    {
        let mut added = decode_binary(bin)?;
        let ghost old_objects = self.objects@;
        let ghost new_objects = added@;
        self.objects.append(&mut added);
        assert(self.objects@ == old_objects + new_objects);
        assert forall|k: int| 0 <= k < self.objects@.len() implies (#[trigger] self.objects@[k]).wf() by {
            if k >= old_objects.len() {
                assert(self.objects@[k] == new_objects[k - old_objects.len()]);
            }
        }
        assert forall|k: int| old_objects.len() <= k < self.objects@.len() implies is_part_of(
            (#[trigger] self.objects@[k]).bytes@,
            bin@,
        ) by {
            assert(self.objects@[k] == new_objects[k - old_objects.len()]);
        }
        assert forall|k: int| 0 <= k < decoded_bytes(bin@).len() implies (#[trigger] self.objects@[old_objects.len() + k]).bytes@
            == decoded_bytes(bin@)[k] && decodes(self.objects@[old_objects.len() + k], decoded_bytes(bin@)[k]) by {
            assert(self.objects@[old_objects.len() + k] == new_objects[k]);
        }
        Ok(())
    }

    /// Renames the symbols of every object added and packs the results, in
    /// the order added, into one archive; the session is used up.
    ///
    /// Fails with `InvalidPrefix` exactly when no prefix was set, with
    /// `RenameCollision` exactly when some object would collide, and
    /// otherwise with `InternalInvariantViolation` exactly when `builds`
    /// does not hold: a string table would outgrow 32-bit offsets, a
    /// rewritten object does not decode again to its renaming, or the
    /// archive would reach 2 GiB.
    #[verifier::rlimit(60)]
    pub fn into_archive(self) -> (r: Result<Vec<u8>, Error>)
        requires
            self.wf(),
        ensures
            (r matches Err(e) && e == Error::InvalidPrefix) <==> self.prefix is None,
            (r matches Err(e) && e == Error::RenameCollision) <==> (self.prefix_view() matches Some(p)
                && exists|k: int| 0 <= k < self.objects@.len() && collides(#[trigger] self.objects@[k].symbols@, p)),
            r is Ok ==> self.prefix is Some,
            r matches Ok(a) ==> exists|rs: Seq<ElfObject>|
                #[trigger] archive_of(rs, self.objects@, self.prefix_view()->Some_0, a@),
            r matches Err(e) ==> e == Error::InvalidPrefix || e == Error::RenameCollision
                || e == Error::InternalInvariantViolation,
            self.prefix is Some && self.objects@.len() == 0 ==> (r matches Ok(a) && a@ == ar_magic()),
            r is Ok ==> builds(self.objects@, self.prefix_view()->Some_0),
            (self.prefix is Some && forall|k: int|
                0 <= k < self.objects@.len() ==> !collides(#[trigger] self.objects@[k].symbols@, self.prefix_view()->Some_0))
                ==> (r is Ok <==> builds(self.objects@, self.prefix_view()->Some_0)),
    {
        let prefix = match &self.prefix {
            Some(p) => p,
            None => return Err(Error::InvalidPrefix),
        };
        let ghost p = prefix@;
        assert(self.prefix_view() == Some(p));
        let n = self.objects.len();
        let mut plans: Vec<Vec<bool>> = Vec::new();
        let mut i: usize = 0;
        while i < n
            invariant
                n == self.objects@.len(),
                p == prefix@,
                self.prefix_view() == Some(p),
                i <= n,
                plans@.len() == i,
                forall|k: int| 0 <= k < i ==> !collides(#[trigger] self.objects@[k].symbols@, p),
                forall|k: int|
                    0 <= k < i ==> (#[trigger] plans@[k])@.len() == self.objects@[k].symbols@.len()
                        && forall|j: int|
                        0 <= j < plans@[k]@.len() ==> plans@[k]@[j] == renameable(
                            #[trigger] self.objects@[k].symbols@[j],
                            p,
                        ),
            decreases n - i,
        {
            let flags = match plan_renames(&self.objects[i].symbols, prefix) {
                Ok(f) => f,
                Err(e) => {
                    assert(collides(self.objects@[i as int].symbols@, p));
                    return Err(e);
                },
            };
            plans.push(flags);
            i = i + 1;
        }
        assert forall|j: int| 0 <= j < p.len() implies p[j] != 0 by {
            assert(symbol_char(p[j]));
        }
        let mut ms: Vec<Vec<u8>> = Vec::new();
        let mut es: Vec<(Vec<u8>, usize)> = Vec::new();
        let ghost mut rs: Seq<ElfObject> = Seq::empty();
        let mut k: usize = 0;
        while k < n
            invariant
                n == self.objects@.len() == plans@.len(),
                p == prefix@,
                self.prefix_view() == Some(p),
                self.wf(),
                forall|j: int| 0 <= j < p.len() ==> p[j] != 0,
                k <= n,
                forall|q: int| 0 <= q < n ==> !collides(#[trigger] self.objects@[q].symbols@, p),
                forall|q: int|
                    0 <= q < n ==> (#[trigger] plans@[q])@.len() == self.objects@[q].symbols@.len()
                        && forall|j: int|
                        0 <= j < plans@[q]@.len() ==> plans@[q]@[j] == renameable(
                            #[trigger] self.objects@[q].symbols@[j],
                            p,
                        ),
                rs.len() == k,
                ms@.len() == k,
                forall|q: int| 0 <= q < k ==> (#[trigger] rs[q]).wf() && renamed_from(rs[q], self.objects@[q], p),
                forall|q: int| 0 <= q < k ==> !strtab_overflows(#[trigger] self.objects@[q], p) && round_trips(self.objects@[q], p),
                buffers_view(ms@) == object_bytes(rs),
                entries_view(es@) == all_entries(rs, k as int),
                forall|j: int| 0 <= j < es@.len() ==> (#[trigger] es@[j]).1 < k,
            decreases n - k,
        {
            assert(self.objects@[k as int].wf());
            assert(self.objects@[k as int].wf());
            let r = match rewrite_checked(&self.objects[k], prefix, &plans[k]) {
                Ok(r) => r,
                Err(e) => {
                    proof {
                        lemma_builds_needs_each(self.objects@, p, k as int);
                    }
                    return Err(e);
                },
            };
            push_entries(&r, k, &mut es);
            let ghost g = r;
            let ghost before = ms@;
            ms.push(r.bytes);
            proof {
                let prev = rs;
                rs = rs.push(g);
                assert(ms@ == before.push(g.bytes));
                assert forall|j: int| 0 <= j < ms@.len() implies buffers_view(ms@)[j] == object_bytes(rs)[j] by {
                    if j < k {
                        assert(ms@[j] == before[j]);
                        assert(buffers_view(before)[j] == object_bytes(prev)[j]);
                    }
                }
                assert(buffers_view(ms@) =~= object_bytes(rs));
                lemma_entries_agree(prev, rs, k as int);
            }
            k = k + 1;
        }
        let r = build_archive(&ms, &es);
        proof {
            assert(rewrites_of(rs, self.objects@, p));
            if r is Ok {
                assert(archive_of(rs, self.objects@, p, r->Ok_0@));
                assert(archive_of(rs, self.objects@, self.prefix_view()->Some_0, r->Ok_0@));
                lemma_builds_from(self.objects@, p, rs);
            } else {
                lemma_builds_needs_size(self.objects@, p, rs);
            }
        }
        r
    }
}

} // verus!
