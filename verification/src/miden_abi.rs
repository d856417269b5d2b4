//! Recovery of the Miden modules and functions behind WebAssembly component imports: the
//! import names were renamed to satisfy the component model, and are mapped back to the
//! names the linker expects.
use vstd::prelude::*;

verus! {

/// The Miden modules that component imports can stand for.
#[derive(Clone, Copy, Debug, PartialEq, Eq, Structural)]
pub enum ImportedModule {
    IntrinsicsMem,
    IntrinsicsFelt,
    IntrinsicsDebug,
    Account,
    Note,
    Tx,
    StdlibMem,
    RpoFalcon,
    Blake3,
}

/// Whether `s` starts with `prefix`.
pub open spec fn starts_with(s: Seq<char>, prefix: Seq<char>) -> bool {
    prefix.len() <= s.len() && s.take(prefix.len() as int) == prefix
}

/// The Miden module that the import module id `id` stands for, by the first of the known
/// prefixes it starts with; `None` when it starts with none of them.
pub open spec fn imported_module_of(id: Seq<char>) -> Option<ImportedModule> {
    if starts_with(id, "miden:core-intrinsics/intrinsics-mem"@) {
        Some(ImportedModule::IntrinsicsMem)
    } else if starts_with(id, "miden:core-intrinsics/intrinsics-felt"@) {
        Some(ImportedModule::IntrinsicsFelt)
    } else if starts_with(id, "miden:core-intrinsics/intrinsics-debug"@) {
        Some(ImportedModule::IntrinsicsDebug)
    } else if starts_with(id, "miden:core-base/account"@) {
        Some(ImportedModule::Account)
    } else if starts_with(id, "miden:core-import/note"@) {
        Some(ImportedModule::Note)
    } else if starts_with(id, "miden:core-import/tx"@) {
        Some(ImportedModule::Tx)
    } else if starts_with(id, "miden:core-import/stdlib-mem"@) {
        Some(ImportedModule::StdlibMem)
    } else if starts_with(id, "miden:core-import/stdlib-crypto-dsa-rpo-falcon"@) {
        Some(ImportedModule::RpoFalcon)
    } else if starts_with(id, "miden:core-import/stdlib-crypto-hashes-blake3"@) {
        Some(ImportedModule::Blake3)
    } else {
        None
    }
}

/// Whether `id` claims to be a Miden import (it starts with `miden:core-import`) without
/// naming a known one.
pub open spec fn unrecovered_import(id: Seq<char>) -> bool {
    imported_module_of(id) is None && starts_with(id, "miden:core-import"@)
}

/// `s` with every `-` replaced by `_`.
pub open spec fn dashes_to_underscores(s: Seq<char>) -> Seq<char> {
    s.map_values(|c: char| if c == '-' { '_' } else { c })
}

/// The name the linker expects for the imported function `id`: the two hash functions whose
/// names cannot be written in the component model are renamed back, and in every other name
/// each `-` becomes `_`.
pub open spec fn recovered_function_name(id: Seq<char>) -> Seq<char> {
    if id == "hash-one-to-one"@ {
        "hash_1to1"@
    } else if id == "hash-two-to-one"@ {
        "hash_2to1"@
    } else {
        dashes_to_underscores(id)
    }
}

/// Whether `s` starts with `prefix`.
fn has_prefix(s: &str, prefix: &str) -> (r: bool)
    ensures
        r == starts_with(s@, prefix@),
{
    let n = s.unicode_len();
    let m = prefix.unicode_len();
    if m > n {
        return false;
    }
    let mut i: usize = 0;
    while i < m
        invariant
            n == s@.len(),
            m == prefix@.len(),
            m <= n,
            i <= m,
            forall|k: int| 0 <= k < i ==> s@[k] == prefix@[k],
        decreases m - i,
    {
        if s.get_char(i) != prefix.get_char(i) {
            proof {
                assert(s@.take(m as int)[i as int] != prefix@[i as int]);
            }
            return false;
        }
        i = i + 1;
    }
    assert(s@.take(m as int) =~= prefix@);
    true
}

/// The Miden module that the import module id `wasm_module_id` stands for (see
/// `imported_module_of`), or the id itself when it stands for none; an id that claims to be a
/// Miden import must name a known one.
pub fn recover_imported_masm_module(wasm_module_id: &str) -> (r: Result<ImportedModule, String>)
    requires
        !unrecovered_import(wasm_module_id@),
    ensures
        match imported_module_of(wasm_module_id@) {
            Some(m) => r == Ok::<ImportedModule, String>(m),
            None => r is Err && r->Err_0@ == wasm_module_id@,
        },
{
    if has_prefix(wasm_module_id, "miden:core-intrinsics/intrinsics-mem") {
        Ok(ImportedModule::IntrinsicsMem)
    } else if has_prefix(wasm_module_id, "miden:core-intrinsics/intrinsics-felt") {
        Ok(ImportedModule::IntrinsicsFelt)
    } else if has_prefix(wasm_module_id, "miden:core-intrinsics/intrinsics-debug") {
        Ok(ImportedModule::IntrinsicsDebug)
    } else if has_prefix(wasm_module_id, "miden:core-base/account") {
        Ok(ImportedModule::Account)
    } else if has_prefix(wasm_module_id, "miden:core-import/note") {
        Ok(ImportedModule::Note)
    } else if has_prefix(wasm_module_id, "miden:core-import/tx") {
        Ok(ImportedModule::Tx)
    } else if has_prefix(wasm_module_id, "miden:core-import/stdlib-mem") {
        Ok(ImportedModule::StdlibMem)
    } else if has_prefix(wasm_module_id, "miden:core-import/stdlib-crypto-dsa-rpo-falcon") {
        Ok(ImportedModule::RpoFalcon)
    } else if has_prefix(wasm_module_id, "miden:core-import/stdlib-crypto-hashes-blake3") {
        Ok(ImportedModule::Blake3)
    } else {
        Err(wasm_module_id.to_owned())
    }
}

/// `s` with every `-` replaced by `_`.
fn replace_dashes(s: &str) -> (r: String)
    ensures
        r@ == dashes_to_underscores(s@),
{
    let n = s.unicode_len();
    let mut out = String::new();
    let mut start: usize = 0;
    let mut i: usize = 0;
    while i < n
        invariant
            n == s@.len(),
            start <= i <= n,
            out@ + s@.subrange(start as int, i as int) == dashes_to_underscores(s@).take(i as int),
            forall|k: int| start <= k < i ==> s@[k] != '-',
        decreases n - i,
    {
        let c = s.get_char(i);
        if c == '-' {
            let ghost old_out = out@;
            let ghost old_start = start;
            let segment = s.substring_char(start, i);
            out.append(segment);
            out.append("_");
            start = i + 1;
            proof {
                reveal_strlit("_");
                assert(out@ =~= old_out + s@.subrange(old_start as int, i as int) + seq!['_']);
                assert(dashes_to_underscores(s@)[i as int] == '_');
                assert(dashes_to_underscores(s@).take(i + 1) =~= dashes_to_underscores(s@).take(
                    i as int,
                ).push('_'));
                assert(s@.subrange(start as int, i + 1) =~= Seq::<char>::empty());
                assert(out@ + s@.subrange(start as int, i + 1) =~= dashes_to_underscores(s@).take(
                    i + 1,
                ));
            }
        } else {
            proof {
                assert(s@.subrange(start as int, i + 1) =~= s@.subrange(start as int, i as int).push(
                    c,
                ));
                assert(dashes_to_underscores(s@).take(i + 1) =~= dashes_to_underscores(s@).take(
                    i as int,
                ).push(c));
            }
        }
        i = i + 1;
    }
    let rest = s.substring_char(start, n);
    out.append(rest);
    assert(dashes_to_underscores(s@).take(n as int) =~= dashes_to_underscores(s@));
    out
}

/// The name the linker expects for the imported function `wasm_function_id` (see
/// `recovered_function_name`).
pub fn recover_function_name(wasm_function_id: &str) -> (r: String)
    ensures
        r@ == recovered_function_name(wasm_function_id@),
{
    if wasm_function_id.to_owned() == "hash-one-to-one".to_owned() {
        "hash_1to1".to_owned()
    } else if wasm_function_id.to_owned() == "hash-two-to-one".to_owned() {
        "hash_2to1".to_owned()
    } else {
        replace_dashes(wasm_function_id)
    }
}

/// The module an import names once recovered: a Miden module, or, for an import of no Miden
/// module, the import's own module id.
#[derive(Clone, Debug, PartialEq, Eq)]
pub enum RecoveredModule {
    Miden(ImportedModule),
    Given(String),
}

/// The Miden module and function the imported function `wasm_function_id` of the import
/// module `wasm_module_id` stands for; for a module that stands for no Miden module, the
/// given module and function ids, unchanged.
pub fn recover_imported_masm_function_id(wasm_module_id: &str, wasm_function_id: &str) -> (r:
    Option<(RecoveredModule, String)>)
    requires
        !unrecovered_import(wasm_module_id@),
    ensures
        r is Some,
        match imported_module_of(wasm_module_id@) {
            Some(m) => r->Some_0.0 == RecoveredModule::Miden(m) && r->Some_0.1@ == recovered_function_name(
                wasm_function_id@,
            ),
            None => r->Some_0.0 matches RecoveredModule::Given(id) && id@ == wasm_module_id@
                && r->Some_0.1@ == wasm_function_id@,
        },
{
    match recover_imported_masm_module(wasm_module_id) {
        Ok(module) => Some((RecoveredModule::Miden(module), recover_function_name(wasm_function_id))),
        Err(id) => Some((RecoveredModule::Given(id), wasm_function_id.to_owned())),
    }
}

/// `id` agrees with `p` at each index below the length of `p` when it starts with `p`; so
/// it cannot also start with a `q` that differs from `p` at such an index.
proof fn lemma_prefixes_exclusive(id: Seq<char>, p: Seq<char>, q: Seq<char>, d: int)
    requires
        starts_with(id, p),
        0 <= d < p.len(),
        d < q.len(),
        p[d] != q[d],
    ensures
        !starts_with(id, q),
{
    assert(id.take(p.len() as int)[d] == p[d]);
    if starts_with(id, q) {
        assert(id.take(q.len() as int)[d] == q[d]);
    }
}

/// Each known import prefix is recovered as its own Miden module: an id that starts with a
/// known prefix is never taken for the module of another prefix, whatever follows the prefix.
pub proof fn lemma_import_prefixes_recover(id: Seq<char>)
    ensures
        starts_with(id, "miden:core-intrinsics/intrinsics-mem"@) ==> imported_module_of(id) == Some(
            ImportedModule::IntrinsicsMem,
        ),
        starts_with(id, "miden:core-intrinsics/intrinsics-felt"@) ==> imported_module_of(id) == Some(
            ImportedModule::IntrinsicsFelt,
        ),
        starts_with(id, "miden:core-intrinsics/intrinsics-debug"@) ==> imported_module_of(id) == Some(
            ImportedModule::IntrinsicsDebug,
        ),
        starts_with(id, "miden:core-base/account"@) ==> imported_module_of(id) == Some(
            ImportedModule::Account,
        ),
        starts_with(id, "miden:core-import/note"@) ==> imported_module_of(id) == Some(
            ImportedModule::Note,
        ),
        starts_with(id, "miden:core-import/tx"@) ==> imported_module_of(id) == Some(
            ImportedModule::Tx,
        ),
        starts_with(id, "miden:core-import/stdlib-mem"@) ==> imported_module_of(id) == Some(
            ImportedModule::StdlibMem,
        ),
        starts_with(id, "miden:core-import/stdlib-crypto-dsa-rpo-falcon"@) ==> imported_module_of(id) == Some(
            ImportedModule::RpoFalcon,
        ),
        starts_with(id, "miden:core-import/stdlib-crypto-hashes-blake3"@) ==> imported_module_of(id) == Some(
            ImportedModule::Blake3,
        ),
{
    reveal_strlit("miden:core-intrinsics/intrinsics-mem");
    reveal_strlit("miden:core-intrinsics/intrinsics-felt");
    reveal_strlit("miden:core-intrinsics/intrinsics-debug");
    reveal_strlit("miden:core-base/account");
    reveal_strlit("miden:core-import/note");
    reveal_strlit("miden:core-import/tx");
    reveal_strlit("miden:core-import/stdlib-mem");
    reveal_strlit("miden:core-import/stdlib-crypto-dsa-rpo-falcon");
    reveal_strlit("miden:core-import/stdlib-crypto-hashes-blake3");
    if starts_with(id, "miden:core-intrinsics/intrinsics-felt"@) {
        lemma_prefixes_exclusive(id, "miden:core-intrinsics/intrinsics-felt"@, "miden:core-intrinsics/intrinsics-mem"@, 33);
    }
    if starts_with(id, "miden:core-intrinsics/intrinsics-debug"@) {
        lemma_prefixes_exclusive(id, "miden:core-intrinsics/intrinsics-debug"@, "miden:core-intrinsics/intrinsics-mem"@, 33);
        lemma_prefixes_exclusive(id, "miden:core-intrinsics/intrinsics-debug"@, "miden:core-intrinsics/intrinsics-felt"@, 33);
    }
    if starts_with(id, "miden:core-base/account"@) {
        lemma_prefixes_exclusive(id, "miden:core-base/account"@, "miden:core-intrinsics/intrinsics-mem"@, 11);
        lemma_prefixes_exclusive(id, "miden:core-base/account"@, "miden:core-intrinsics/intrinsics-felt"@, 11);
        lemma_prefixes_exclusive(id, "miden:core-base/account"@, "miden:core-intrinsics/intrinsics-debug"@, 11);
    }
    if starts_with(id, "miden:core-import/note"@) {
        lemma_prefixes_exclusive(id, "miden:core-import/note"@, "miden:core-intrinsics/intrinsics-mem"@, 12);
        lemma_prefixes_exclusive(id, "miden:core-import/note"@, "miden:core-intrinsics/intrinsics-felt"@, 12);
        lemma_prefixes_exclusive(id, "miden:core-import/note"@, "miden:core-intrinsics/intrinsics-debug"@, 12);
        lemma_prefixes_exclusive(id, "miden:core-import/note"@, "miden:core-base/account"@, 11);
    }
    if starts_with(id, "miden:core-import/tx"@) {
        lemma_prefixes_exclusive(id, "miden:core-import/tx"@, "miden:core-intrinsics/intrinsics-mem"@, 12);
        lemma_prefixes_exclusive(id, "miden:core-import/tx"@, "miden:core-intrinsics/intrinsics-felt"@, 12);
        lemma_prefixes_exclusive(id, "miden:core-import/tx"@, "miden:core-intrinsics/intrinsics-debug"@, 12);
        lemma_prefixes_exclusive(id, "miden:core-import/tx"@, "miden:core-base/account"@, 11);
        lemma_prefixes_exclusive(id, "miden:core-import/tx"@, "miden:core-import/note"@, 18);
    }
    if starts_with(id, "miden:core-import/stdlib-mem"@) {
        lemma_prefixes_exclusive(id, "miden:core-import/stdlib-mem"@, "miden:core-intrinsics/intrinsics-mem"@, 12);
        lemma_prefixes_exclusive(id, "miden:core-import/stdlib-mem"@, "miden:core-intrinsics/intrinsics-felt"@, 12);
        lemma_prefixes_exclusive(id, "miden:core-import/stdlib-mem"@, "miden:core-intrinsics/intrinsics-debug"@, 12);
        lemma_prefixes_exclusive(id, "miden:core-import/stdlib-mem"@, "miden:core-base/account"@, 11);
        lemma_prefixes_exclusive(id, "miden:core-import/stdlib-mem"@, "miden:core-import/note"@, 18);
        lemma_prefixes_exclusive(id, "miden:core-import/stdlib-mem"@, "miden:core-import/tx"@, 18);
    }
    if starts_with(id, "miden:core-import/stdlib-crypto-dsa-rpo-falcon"@) {
        lemma_prefixes_exclusive(id, "miden:core-import/stdlib-crypto-dsa-rpo-falcon"@, "miden:core-intrinsics/intrinsics-mem"@, 12);
        lemma_prefixes_exclusive(id, "miden:core-import/stdlib-crypto-dsa-rpo-falcon"@, "miden:core-intrinsics/intrinsics-felt"@, 12);
        lemma_prefixes_exclusive(id, "miden:core-import/stdlib-crypto-dsa-rpo-falcon"@, "miden:core-intrinsics/intrinsics-debug"@, 12);
        lemma_prefixes_exclusive(id, "miden:core-import/stdlib-crypto-dsa-rpo-falcon"@, "miden:core-base/account"@, 11);
        lemma_prefixes_exclusive(id, "miden:core-import/stdlib-crypto-dsa-rpo-falcon"@, "miden:core-import/note"@, 18);
        lemma_prefixes_exclusive(id, "miden:core-import/stdlib-crypto-dsa-rpo-falcon"@, "miden:core-import/tx"@, 18);
        lemma_prefixes_exclusive(id, "miden:core-import/stdlib-crypto-dsa-rpo-falcon"@, "miden:core-import/stdlib-mem"@, 25);
    }
    if starts_with(id, "miden:core-import/stdlib-crypto-hashes-blake3"@) {
        lemma_prefixes_exclusive(id, "miden:core-import/stdlib-crypto-hashes-blake3"@, "miden:core-intrinsics/intrinsics-mem"@, 12);
        lemma_prefixes_exclusive(id, "miden:core-import/stdlib-crypto-hashes-blake3"@, "miden:core-intrinsics/intrinsics-felt"@, 12);
        lemma_prefixes_exclusive(id, "miden:core-import/stdlib-crypto-hashes-blake3"@, "miden:core-intrinsics/intrinsics-debug"@, 12);
        lemma_prefixes_exclusive(id, "miden:core-import/stdlib-crypto-hashes-blake3"@, "miden:core-base/account"@, 11);
        lemma_prefixes_exclusive(id, "miden:core-import/stdlib-crypto-hashes-blake3"@, "miden:core-import/note"@, 18);
        lemma_prefixes_exclusive(id, "miden:core-import/stdlib-crypto-hashes-blake3"@, "miden:core-import/tx"@, 18);
        lemma_prefixes_exclusive(id, "miden:core-import/stdlib-crypto-hashes-blake3"@, "miden:core-import/stdlib-mem"@, 25);
        lemma_prefixes_exclusive(id, "miden:core-import/stdlib-crypto-hashes-blake3"@, "miden:core-import/stdlib-crypto-dsa-rpo-falcon"@, 32);
    }
}

} // verus!
