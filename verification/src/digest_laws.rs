//! What digests tell apart.

use vstd::arithmetic::div_mod::{
    lemma_mod_multiples_vanish, lemma_mul_mod_noop_left, lemma_small_mod,
};
use vstd::arithmetic::mul::lemma_mul_is_associative;
use vstd::prelude::*;
use vstd::utf8::{encode_scalar, encode_utf8, encode_utf8_decode_utf8};
use crate::catalog::CatalogSkillView;
use crate::digest::{absorb, absorb_field, absorb_files, mix, FileContent};
use crate::model::EffectiveMode;
use crate::resolve::{digest_of, mode_text};
use crate::text::{digit, hex, Text};

verus! {

/// Absorbing one part after another is absorbing both.
proof fn lemma_absorb_concat(hash: u64, a: Seq<u8>, b: Seq<u8>)
    ensures
        absorb(hash, a + b) == absorb(absorb(hash, a), b),
    decreases b.len(),
{
    if b.len() == 0 {
        assert(a + b =~= a);
    } else {
        assert((a + b).drop_last() =~= a + b.drop_last());
        lemma_absorb_concat(hash, a, b.drop_last());
    }
}

proof fn lemma_absorb_one(hash: u64, x: u8)
    ensures
        absorb(hash, seq![x]) == mix(hash, x as u64),
{
    assert(seq![x].drop_last() =~= Seq::<u8>::empty());
    assert(absorb(hash, seq![x].drop_last()) == hash);
}

proof fn lemma_absorb_field(hash: u64, field: Text)
    ensures
        absorb_field(hash, field) == absorb(hash, encode_utf8(field) + seq![0xffu8]),
{
    lemma_absorb_concat(hash, encode_utf8(field), seq![0xffu8]);
    lemma_absorb_one(absorb(hash, encode_utf8(field)), 0xffu8);
}

/// The digest of a projection is the FNV-1a hash of its content digest, installed name, scope
/// and mode, each ended by a byte that no text holds; a skill without a scope has an empty one.
pub proof fn law_projected_digest_covers_all_fields(
    skill: CatalogSkillView,
    installed_name: Text,
    mode: EffectiveMode,
)
    ensures
        digest_of(skill, installed_name, mode) == hex(
            absorb(
                0xcbf29ce484222325u64,
                encode_utf8(skill.digest) + seq![0xffu8] + encode_utf8(installed_name) + seq![
                    0xffu8,
                ] + encode_utf8(
                    if skill.scope is Some {
                        skill.scope->Some_0
                    } else {
                        Seq::empty()
                    },
                ) + seq![0xffu8] + encode_utf8(
                    if mode == EffectiveMode::Enable {
                        "enable"@
                    } else if mode == EffectiveMode::Manual {
                        "manual"@
                    } else {
                        "dependency"@
                    },
                ) + seq![0xffu8],
            ) as nat,
            16,
        ),
{
    reveal_strlit("");
    assert(""@ =~= Seq::<char>::empty());
    let scope: Text = if skill.scope is Some {
        skill.scope->Some_0
    } else {
        Seq::empty()
    };
    let end = seq![0xffu8];
    let a = encode_utf8(skill.digest) + end;
    let b = encode_utf8(installed_name) + end;
    let c = encode_utf8(scope) + end;
    let d = encode_utf8(mode_text(mode)) + end;
    let basis = 0xcbf29ce484222325u64;
    lemma_absorb_field(basis, skill.digest);
    lemma_absorb_field(absorb(basis, a), installed_name);
    lemma_absorb_concat(basis, a, b);
    lemma_absorb_field(absorb(basis, a + b), scope);
    lemma_absorb_concat(basis, a + b, c);
    lemma_absorb_field(absorb(basis, a + b + c), mode_text(mode));
    lemma_absorb_concat(basis, a + b + c, d);
    assert(a + b + c + d =~= encode_utf8(skill.digest) + seq![0xffu8] + encode_utf8(installed_name)
        + seq![0xffu8] + encode_utf8(scope) + seq![0xffu8] + encode_utf8(mode_text(mode)) + seq![
        0xffu8,
    ]);
}

// Encodings.

proof fn lemma_scalar_bytes(v: u32, i: int)
    requires
        0 <= i < encode_scalar(v).len(),
    ensures
        encode_scalar(v)[i] != 0xff,
{
    assert((v & 0x7F) as u8 != 0xffu8) by (bit_vector);
    assert(0xC0u8 | ((v >> 6) & 0x1F) as u8 != 0xffu8) by (bit_vector);
    assert(0xE0u8 | ((v >> 12) & 0x0F) as u8 != 0xffu8) by (bit_vector);
    assert(0xF0u8 | ((v >> 18) & 0x7) as u8 != 0xffu8) by (bit_vector);
    assert(0x80u8 | (v & 0x3F) as u8 != 0xffu8) by (bit_vector);
    assert(0x80u8 | ((v >> 6) & 0x3F) as u8 != 0xffu8) by (bit_vector);
    assert(0x80u8 | ((v >> 12) & 0x3F) as u8 != 0xffu8) by (bit_vector);
}

proof fn lemma_no_end_mark(s: Text, i: int)
    requires
        0 <= i < encode_utf8(s).len(),
    ensures
        encode_utf8(s)[i] != 0xff,
    decreases s.len(),
{
    if s.len() > 0 {
        let first = encode_scalar(s[0] as u32);
        if i < first.len() {
            lemma_scalar_bytes(s[0] as u32, i);
        } else {
            lemma_no_end_mark(s.drop_first(), i - first.len());
        }
    }
}

/// A field can be read off from what is absorbed: two records whose first fields differ are
/// absorbed from different bytes, whatever follows.
pub proof fn law_fields_are_told_apart(a: Text, b: Text, rest_a: Seq<u8>, rest_b: Seq<u8>)
    requires
        encode_utf8(a) + seq![0xffu8] + rest_a == encode_utf8(b) + seq![0xffu8] + rest_b,
    ensures
        a == b,
        rest_a == rest_b,
{
    let x = encode_utf8(a);
    let y = encode_utf8(b);
    let s = x + seq![0xffu8] + rest_a;
    let t = y + seq![0xffu8] + rest_b;
    assert(s[x.len() as int] == 0xff);
    assert(t[y.len() as int] == 0xff);
    if x.len() < y.len() {
        lemma_no_end_mark(b, x.len() as int);
        assert(t[x.len() as int] == y[x.len() as int]);
    }
    if y.len() < x.len() {
        lemma_no_end_mark(a, y.len() as int);
        assert(s[y.len() as int] == x[y.len() as int]);
    }
    assert(x =~= s.take(x.len() as int));
    assert(y =~= t.take(y.len() as int));
    encode_utf8_decode_utf8(a);
    encode_utf8_decode_utf8(b);
    assert(rest_a =~= s.skip(x.len() as int + 1));
    assert(rest_b =~= t.skip(y.len() as int + 1));
}

// One changed byte.

proof fn lemma_times_prime(a: u64, b: u64)
    requires
        a.wrapping_mul(0x100000001b3u64) == b.wrapping_mul(0x100000001b3u64),
    ensures
        a == b,
{
    let p: int = 0x100000001b3;
    let q: int = 0xce965057aff6957b;
    let m: int = 0x10000000000000000;
    lemma_undone(a as int, p, q, m);
    lemma_undone(b as int, p, q, m);
}

/// Multiplying by an inverse undoes a multiplication.
proof fn lemma_undone(a: int, p: int, q: int, m: int)
    requires
        0 <= a < m,
        p == 0x100000001b3,
        q == 0xce965057aff6957b,
        m == 0x10000000000000000,
    ensures
        (((a * p) % m) * q) % m == a,
{
    lemma_mul_mod_noop_left(a * p, q, m);
    lemma_mul_is_associative(a, p, q);
    let k: int = (p * q - 1) / m;
    assert(p * q == 1 + k * m);
    assert(a * (p * q) == m * (a * k) + a) by (nonlinear_arith)
        requires
            p * q == 1 + k * m,
    ;
    lemma_mod_multiples_vanish(a * k, a, m);
    lemma_small_mod(a as nat, m as nat);
}

proof fn lemma_mix(g: u64, h: u64, x: u64, y: u64)
    ensures
        mix(g, x) == mix(h, x) ==> g == h,
        mix(h, x) == mix(h, y) ==> x == y,
{
    if mix(g, x) == mix(h, x) {
        lemma_times_prime(g ^ x, h ^ x);
        assert(g ^ x == h ^ x ==> g == h) by (bit_vector);
    }
    if mix(h, x) == mix(h, y) {
        lemma_times_prime(h ^ x, h ^ y);
        assert(h ^ x == h ^ y ==> x == y) by (bit_vector);
    }
}

proof fn lemma_absorb_keeps_apart(g: u64, h: u64, bytes: Seq<u8>)
    requires
        g != h,
    ensures
        absorb(g, bytes) != absorb(h, bytes),
    decreases bytes.len(),
{
    if bytes.len() > 0 {
        let front = bytes.drop_last();
        lemma_absorb_keeps_apart(g, h, front);
        lemma_mix(absorb(g, front), absorb(h, front), bytes.last() as u64, 0);
    }
}

/// Two byte sequences that differ in one place have different hashes.
pub proof fn law_one_changed_byte_changes_the_hash(hash: u64, a: Seq<u8>, i: int, x: u8)
    requires
        0 <= i < a.len(),
        a[i] != x,
    ensures
        absorb(hash, a) != absorb(hash, a.update(i, x)),
{
    let b = a.update(i, x);
    let front = a.take(i);
    let back = a.skip(i + 1);
    assert(a =~= front + seq![a[i]] + back);
    assert(b =~= front + seq![x] + back);
    lemma_absorb_concat(hash, front + seq![a[i]], back);
    lemma_absorb_concat(hash, front, seq![a[i]]);
    lemma_absorb_concat(hash, front + seq![x], back);
    lemma_absorb_concat(hash, front, seq![x]);
    let h = absorb(hash, front);
    lemma_absorb_one(h, a[i]);
    lemma_absorb_one(h, x);
    lemma_mix(0, h, a[i] as u64, x as u64);
    lemma_absorb_keeps_apart(mix(h, a[i] as u64), mix(h, x as u64), back);
}

spec fn power16(k: nat) -> nat
    decreases k,
{
    if k == 0 {
        1
    } else {
        16 * power16((k - 1) as nat)
    }
}

proof fn lemma_hex(a: nat, b: nat, places: nat)
    requires
        a < power16(places),
        b < power16(places),
        hex(a, places) == hex(b, places),
    ensures
        a == b,
    decreases places,
{
    if places > 0 {
        let k = (places - 1) as nat;
        let x = hex(a, places);
        let y = hex(b, places);
        assert(x.drop_last() =~= hex(a / 16, k));
        assert(y.drop_last() =~= hex(b / 16, k));
        assert(x.last() == digit(a % 16) && y.last() == digit(b % 16));
        lemma_hex(a / 16, b / 16, k);
    }
}

/// Different hashes are written differently.
proof fn lemma_hex_of_hash(a: u64, b: u64)
    requires
        hex(a as nat, 16) == hex(b as nat, 16),
    ensures
        a == b,
{
    assert(power16(16) == 0x10000000000000000) by {
        reveal_with_fuel(power16, 17);
    }
    lemma_hex(a as nat, b as nat, 16);
}

/// A skill whose content digest has one other byte is a different projection: its digest under
/// the same name, scope and mode is another one.
pub proof fn law_changed_content_is_another_projection(
    skill: CatalogSkillView,
    changed: CatalogSkillView,
    installed_name: Text,
    mode: EffectiveMode,
    i: int,
)
    requires
        changed.scope == skill.scope,
        encode_utf8(changed.digest).len() == encode_utf8(skill.digest).len(),
        0 <= i < encode_utf8(skill.digest).len(),
        encode_utf8(changed.digest)[i] != encode_utf8(skill.digest)[i],
        forall|j: int|
            0 <= j < encode_utf8(skill.digest).len() && j != i ==> (#[trigger] encode_utf8(
                changed.digest,
            )[j]) == encode_utf8(skill.digest)[j],
    ensures
        digest_of(changed, installed_name, mode) != digest_of(skill, installed_name, mode),
{
    law_projected_digest_covers_all_fields(skill, installed_name, mode);
    law_projected_digest_covers_all_fields(changed, installed_name, mode);
    let scope: Text = if skill.scope is Some {
        skill.scope->Some_0
    } else {
        Seq::empty()
    };
    let word = if mode == EffectiveMode::Enable {
        "enable"@
    } else if mode == EffectiveMode::Manual {
        "manual"@
    } else {
        "dependency"@
    };
    let end = seq![0xffu8];
    let x = encode_utf8(skill.digest);
    let y = encode_utf8(changed.digest);
    let a = x + end + encode_utf8(installed_name) + end + encode_utf8(scope) + end + encode_utf8(word)
        + end;
    let b = y + end + encode_utf8(installed_name) + end + encode_utf8(scope) + end + encode_utf8(word)
        + end;
    assert(b =~= a.update(i, y[i]));
    law_one_changed_byte_changes_the_hash(0xcbf29ce484222325u64, a, i, y[i]);
    if digest_of(changed, installed_name, mode) == digest_of(skill, installed_name, mode) {
        lemma_hex_of_hash(
            absorb(0xcbf29ce484222325u64, a),
            absorb(0xcbf29ce484222325u64, b),
        );
    }
}

// Directories.

/// What is absorbed of the first `n` files.
spec fn file_bytes(files: Seq<FileContent>, n: int) -> Seq<u8>
    decreases n,
{
    if n <= 0 {
        Seq::empty()
    } else {
        file_bytes(files, n - 1) + encode_utf8(files[n - 1].name@) + seq![0xffu8]
            + files[n - 1].bytes@ + seq![0xffu8]
    }
}

proof fn lemma_absorb_files(files: Seq<FileContent>, n: int)
    requires
        0 <= n <= files.len(),
    ensures
        absorb_files(files, n) == absorb(0xcbf29ce484222325u64, file_bytes(files, n)),
    decreases n,
{
    if n > 0 {
        lemma_absorb_files(files, n - 1);
        let basis = 0xcbf29ce484222325u64;
        let front = file_bytes(files, n - 1);
        let name = encode_utf8(files[n - 1].name@);
        let end = seq![0xffu8];
        lemma_absorb_field(absorb(basis, front), files[n - 1].name@);
        lemma_absorb_concat(basis, front, name + end);
        assert(front + (name + end) =~= front + name + end);
        lemma_absorb_concat(basis, front + name + end, files[n - 1].bytes@);
        lemma_absorb_concat(basis, front + name + end + files[n - 1].bytes@, end);
        lemma_absorb_one(absorb(basis, front + name + end + files[n - 1].bytes@), 0xffu8);
    }
}

proof fn lemma_changed_file(a: Seq<FileContent>, b: Seq<FileContent>, k: int, i: int, n: int)
    requires
        changes_one_byte(a, b, k, i),
        0 <= n <= a.len(),
    ensures
        file_bytes(a, n).len() == file_bytes(b, n).len(),
        n <= k ==> file_bytes(a, n) == file_bytes(b, n),
        n > k ==> exists|at: int|
            0 <= at < file_bytes(a, n).len() && file_bytes(a, n)[at] != file_bytes(b, n)[at]
                && file_bytes(b, n) == #[trigger] file_bytes(a, n).update(at, file_bytes(b, n)[at]),
    decreases n,
{
    if n > 0 {
        lemma_changed_file(a, b, k, i, n - 1);
        let x = file_bytes(a, n - 1);
        let y = file_bytes(b, n - 1);
        let head = encode_utf8(a[n - 1].name@);
        assert(a[n - 1].name@ == b[n - 1].name@);
        if n - 1 == k {
            let at = x.len() + head.len() + 1 + i;
            assert(file_bytes(a, n)[at] == a[k].bytes@[i]);
            assert(file_bytes(b, n)[at] == b[k].bytes@[i]);
            assert(file_bytes(b, n) =~= file_bytes(a, n).update(at, file_bytes(b, n)[at]));
        } else {
            assert(a[n - 1].bytes@ == b[n - 1].bytes@);
            if n > k {
                let at = choose|at: int|
                    0 <= at < x.len() && x[at] != y[at] && y == #[trigger] x.update(at, y[at]);
                assert(file_bytes(a, n)[at] == x[at]);
                assert(file_bytes(b, n)[at] == y[at]);
                assert(file_bytes(b, n) =~= file_bytes(a, n).update(at, file_bytes(b, n)[at]));
            }
        }
    }
}

/// Two lists of files are the same but for one byte of one file.
pub open spec fn changes_one_byte(a: Seq<FileContent>, b: Seq<FileContent>, k: int, i: int) -> bool {
    &&& a.len() == b.len()
    &&& 0 <= k < a.len()
    &&& forall|j: int| 0 <= j < a.len() ==> (#[trigger] a[j]).name@ == b[j].name@
    &&& forall|j: int| 0 <= j < a.len() && j != k ==> (#[trigger] a[j]).bytes@ == b[j].bytes@
    &&& 0 <= i < a[k].bytes@.len()
    &&& b[k].bytes@ == a[k].bytes@.update(i, b[k].bytes@[i])
    &&& b[k].bytes@[i] != a[k].bytes@[i]
}

/// A directory in which one byte of one file changed has another digest.
pub proof fn law_changed_file_changes_the_digest(
    a: Seq<FileContent>,
    b: Seq<FileContent>,
    k: int,
    i: int,
)
    requires
        changes_one_byte(a, b, k, i),
    ensures
        hex(absorb_files(a, a.len() as int) as nat, 16) != hex(
            absorb_files(b, b.len() as int) as nat,
            16,
        ),
{
    let n = a.len() as int;
    lemma_absorb_files(a, n);
    lemma_absorb_files(b, n);
    lemma_changed_file(a, b, k, i, n);
    let x = file_bytes(a, n);
    let y = file_bytes(b, n);
    let at = choose|at: int|
        0 <= at < x.len() && x[at] != y[at] && y == #[trigger] x.update(at, y[at]);
    law_one_changed_byte_changes_the_hash(0xcbf29ce484222325u64, x, at, y[at]);
    if hex(absorb_files(a, n) as nat, 16) == hex(absorb_files(b, n) as nat, 16) {
        lemma_hex_of_hash(absorb_files(a, n), absorb_files(b, n));
    }
}

/// Nothing absorbed leaves the hash, and each byte is xored in and multiplied by the FNV prime.
pub proof fn law_bytes_are_absorbed_one_by_one(hash: u64, bytes: Seq<u8>, x: u8)
    ensures
        absorb(hash, Seq::empty()) == hash,
        absorb(hash, bytes.push(x)) as nat == ((absorb(hash, bytes) ^ (x as u64)) as nat
            * 0x100000001b3) % 0x10000000000000000,
{
    assert(bytes.push(x).drop_last() =~= bytes);
}

} // verus!
