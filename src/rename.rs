//! Which symbols take the prefix, and the names they take.

use vstd::prelude::*;
use crate::elf::Symbol;
use crate::error::Error;

verus! {

pub const STB_GLOBAL: u8 = 1;
pub const STB_WEAK: u8 = 2;
/// Section indices from here on are reserved (absolute, common, ...).
pub const SHN_LORESERVE: u16 = 0xff00;

/// `name` starts with `prefix`.
pub open spec fn has_prefix(name: Seq<u8>, prefix: Seq<u8>) -> bool {
    prefix.len() <= name.len() && name.subrange(0, prefix.len() as int) == prefix
}

/// A named global or weak symbol defined in an ordinary section of its object.
pub open spec fn defined_global(s: Symbol) -> bool {
    &&& s.binding() == STB_GLOBAL || s.binding() == STB_WEAK
    &&& s.shndx != 0
    &&& s.shndx < SHN_LORESERVE
    &&& s.name@.len() > 0
}

/// The symbol takes the prefix: it is a defined global that does not
/// already bear the prefix.
pub open spec fn renameable(s: Symbol, prefix: Seq<u8>) -> bool {
    defined_global(s) && !has_prefix(s.name@, prefix)
}

/// The name a symbol has after renaming.
pub open spec fn new_name(s: Symbol, prefix: Seq<u8>) -> Seq<u8> {
    if renameable(s, prefix) {
        prefix + s.name@
    } else {
        s.name@
    }
}

/// The names of a symbol table after renaming, in table order.
pub open spec fn new_names(syms: Seq<Symbol>, prefix: Seq<u8>) -> Seq<Seq<u8>> {
    syms.map_values(|s: Symbol| new_name(s, prefix))
}

/// Some prefixed name equals the name of a symbol that keeps its name.
pub open spec fn collides(syms: Seq<Symbol>, prefix: Seq<u8>) -> bool {
    exists|i: int, j: int|
        0 <= i < syms.len() && 0 <= j < syms.len() && renameable(#[trigger] syms[i], prefix)
            && !renameable(#[trigger] syms[j], prefix) && prefix + syms[i].name@ == syms[j].name@
}

/// The rename map of a symbol table: each renamed original name to its new name.
pub open spec fn rename_map(syms: Seq<Symbol>, prefix: Seq<u8>) -> Map<Seq<u8>, Seq<u8>> {
    Map::new(
        |n: Seq<u8>| exists|i: int| 0 <= i < syms.len() && renameable(#[trigger] syms[i], prefix) && syms[i].name@ == n,
        |n: Seq<u8>| prefix + n,
    )
}

/// Tells whether `name` starts with `prefix`.
pub fn starts_with(name: &Vec<u8>, prefix: &Vec<u8>) -> (r: bool)
    ensures
        r == has_prefix(name@, prefix@),
{
    if prefix.len() > name.len() {
        return false;
    }
    let mut i: usize = 0;
    while i < prefix.len()
        invariant
            i <= prefix@.len() <= name@.len(),
            forall|k: int| 0 <= k < i ==> name@[k] == prefix@[k],
        decreases prefix@.len() - i,
    {
        if name[i] != prefix[i] {
            assert(name@.subrange(0, prefix@.len() as int)[i as int] != prefix@[i as int]);
            return false;
        }
        i = i + 1;
    }
    assert(name@.subrange(0, prefix@.len() as int) =~= prefix@);
    true
}

/// Tells whether `prefix + name` equals `other`.
pub fn prefixed_equals(prefix: &Vec<u8>, name: &Vec<u8>, other: &Vec<u8>) -> (r: bool)
    ensures
        r == (prefix@ + name@ == other@),
{
    let p = prefix.len();
    if p > other.len() || other.len() - p != name.len() {
        proof {
            if prefix@ + name@ == other@ {
                assert((prefix@ + name@).len() == other@.len());
            }
        }
        return false;
    }
    let mut i: usize = 0;
    while i < other.len()
        invariant
            p == prefix@.len(),
            other@.len() == p + name@.len(),
            i <= other@.len(),
            forall|k: int| 0 <= k < i ==> (prefix@ + name@)[k] == other@[k],
        decreases other@.len() - i,
    {
        let c = if i < p { prefix[i] } else { name[i - p] };
        if c != other[i] {
            assert((prefix@ + name@)[i as int] != other@[i as int]);
            return false;
        }
        i = i + 1;
    }
    assert(prefix@ + name@ =~= other@);
    true
}

/// Tells whether the symbol is a named global or weak symbol defined in an
/// ordinary section.
pub fn is_defined_global(s: &Symbol) -> (r: bool)
    ensures
        r == defined_global(*s),
{
    let binding = s.info / 16;
    (binding == STB_GLOBAL || binding == STB_WEAK) && s.shndx != 0 && s.shndx < SHN_LORESERVE
        && s.name.len() > 0
}

/// Tells whether the symbol takes `prefix`.
pub fn is_renameable(s: &Symbol, prefix: &Vec<u8>) -> (r: bool)
    ensures
        r == renameable(*s, prefix@),
{
    is_defined_global(s) && !starts_with(&s.name, prefix)
}

/// Decides, for each symbol in table order, whether it takes the prefix.
///
/// Fails with `RenameCollision` exactly when a prefixed name would equal the
/// name of a symbol that keeps its name.
pub fn plan_renames(syms: &Vec<Symbol>, prefix: &Vec<u8>) -> (r: Result<Vec<bool>, Error>)
    ensures
        r is Ok <==> !collides(syms@, prefix@),
        r matches Ok(flags) ==> flags@.len() == syms@.len() && forall|i: int|
            0 <= i < syms@.len() ==> flags@[i] == renameable(#[trigger] syms@[i], prefix@),
        r matches Err(e) ==> e == Error::RenameCollision,
{
    let n = syms.len();
    let mut flags: Vec<bool> = Vec::new();
    let mut i: usize = 0;
    while i < n
        invariant
            n == syms@.len(),
            i <= n,
            flags@.len() == i,
            forall|k: int| 0 <= k < i ==> flags@[k] == renameable(#[trigger] syms@[k], prefix@),
        decreases n - i,
    {
        flags.push(is_renameable(&syms[i], prefix));
        i = i + 1;
    }
    let mut i: usize = 0;
    while i < n
        invariant
            n == syms@.len() == flags@.len(),
            i <= n,
            forall|k: int| 0 <= k < n ==> flags@[k] == renameable(#[trigger] syms@[k], prefix@),
            forall|a: int, b: int|
                0 <= a < i && 0 <= b < n && renameable(#[trigger] syms@[a], prefix@) && !renameable(
                    #[trigger] syms@[b],
                    prefix@,
                ) ==> prefix@ + syms@[a].name@ != syms@[b].name@,
        decreases n - i,
    {
        assert(flags@[i as int] == renameable(syms@[i as int], prefix@));
        if flags[i] {
            let mut j: usize = 0;
            while j < n
                invariant
                    n == syms@.len() == flags@.len(),
                    i < n,
                    j <= n,
                    flags@[i as int],
                    forall|k: int| 0 <= k < n ==> flags@[k] == renameable(#[trigger] syms@[k], prefix@),
                    forall|b: int|
                        0 <= b < j && !renameable(#[trigger] syms@[b], prefix@) ==> prefix@
                            + syms@[i as int].name@ != syms@[b].name@,
                decreases n - j,
            {
                assert(flags@[j as int] == renameable(syms@[j as int], prefix@));
                if !flags[j] && prefixed_equals(prefix, &syms[i].name, &syms[j].name) {
                    assert(flags@[i as int] == renameable(syms@[i as int], prefix@));
                    assert(flags@[j as int] == renameable(syms@[j as int], prefix@));
                    assert(prefix@ + syms@[i as int].name@ == syms@[j as int].name@);
                    assert(renameable(syms@[i as int], prefix@));
                    assert(!renameable(syms@[j as int], prefix@));
                    assert(collides(syms@, prefix@));
                    return Err(Error::RenameCollision);
                }
                j = j + 1;
            }
        }
        i = i + 1;
    }
    Ok(flags)
}

/// Prefixing is injective: two distinct original names never map to the
/// same new name.
pub proof fn lemma_rename_injective(syms: Seq<Symbol>, prefix: Seq<u8>, a: Seq<u8>, b: Seq<u8>)
    requires
        rename_map(syms, prefix).contains_key(a),
        rename_map(syms, prefix).contains_key(b),
        a != b,
    ensures
        rename_map(syms, prefix)[a] != rename_map(syms, prefix)[b],
{
    if prefix + a == prefix + b {
        assert(a =~= (prefix + a).subrange(prefix.len() as int, (prefix + a).len() as int));
        assert(b =~= (prefix + b).subrange(prefix.len() as int, (prefix + b).len() as int));
    }
}

/// Renaming is idempotent: a renamed name already bears the prefix, so a
/// second renaming with the same prefix leaves every name as it is.
pub proof fn lemma_rename_idempotent(s: Symbol, prefix: Seq<u8>, t: Symbol)
    requires
        t.name@ == new_name(s, prefix),
        t.info == s.info,
        t.shndx == s.shndx,
    ensures
        new_name(t, prefix) == new_name(s, prefix),
{
    if renameable(s, prefix) {
        assert((prefix + s.name@).subrange(0, prefix.len() as int) =~= prefix);
    }
}

} // verus!
