//! F4Jumble: a keyless, length-preserving permutation of byte strings built
//! from four rounds of BLAKE2b-derived keystreams, so that a change anywhere
//! in its output changes the whole of its inverse.

use vstd::prelude::*;

verus! {

/// Shortest byte string that the permutation accepts.
pub const MIN_LEN: usize = 48;

/// Longest byte string that the permutation accepts.
pub const MAX_LEN: usize = 4194368;

/// The BLAKE2b digest of `input` with `out_len` output bytes and the
/// personalization `personal`.
pub uninterp spec fn blake2b_of(out_len: nat, personal: Seq<u8>, input: Seq<u8>) -> Seq<u8>;

/// Relies on blake2b_simd::Params::hash: a digest of `out_len` bytes that
/// depends only on the parameters and the input.
#[verifier::external_body]
fn blake2b_personal(out_len: usize, personal: &[u8], input: &[u8]) -> (r: Vec<u8>)
    requires
        1 <= out_len <= 64,
        personal@.len() <= 16,
    ensures
        r@ == blake2b_of(out_len as nat, personal@, input@),
        r@.len() == out_len,
{
    blake2b_simd::Params::new().hash_length(out_len).personal(personal).hash(input).as_bytes().to_vec()
}

/// `UA_F4Jumble_H` followed by the round and two zero bytes.
pub open spec fn h_personal(round: u8) -> Seq<u8> {
    seq![85u8, 65, 95, 70, 52, 74, 117, 109, 98, 108, 101, 95, 72, round, 0, 0]
}

/// `UA_F4Jumble_G` followed by the round and the block counter, little-endian.
pub open spec fn g_personal(round: u8, block: int) -> Seq<u8> {
    seq![85u8, 65, 95, 70, 52, 74, 117, 109, 98, 108, 101, 95, 71, round,
        (block % 256) as u8, (block / 256) as u8]
}

/// Length of the left part of a string of `n` bytes.
pub open spec fn left_len(n: int) -> int {
    if n / 2 < 64 { n / 2 } else { 64 }
}

/// The short hash of round `round`: `len` bytes.
pub open spec fn h_round(round: u8, len: int, u: Seq<u8>) -> Seq<u8> {
    blake2b_of(len as nat, h_personal(round), u)
}

/// The keystream of round `round`: `len` bytes, block after block of
/// 64-byte digests.
pub open spec fn g_round(round: u8, len: int, u: Seq<u8>) -> Seq<u8> {
    Seq::new(len as nat, |k: int| blake2b_of(64, g_personal(round, k / 64), u)[k % 64])
}

pub open spec fn xor(a: Seq<u8>, b: Seq<u8>) -> Seq<u8> {
    Seq::new(a.len(), |k: int| a[k] ^ b[k])
}

/// The permutation of `m`.
pub open spec fn jumbled(m: Seq<u8>) -> Seq<u8> {
    let ll = left_len(m.len() as int);
    let lr = m.len() - ll;
    let a = m.take(ll);
    let b = m.skip(ll);
    let x = xor(b, g_round(0, lr, a));
    let y = xor(a, h_round(0, ll, x));
    let d = xor(x, g_round(1, lr, y));
    let c = xor(y, h_round(1, ll, d));
    c + d
}

/// The inverse permutation of `m`.
pub open spec fn unjumbled(m: Seq<u8>) -> Seq<u8> {
    let ll = left_len(m.len() as int);
    let lr = m.len() - ll;
    let c = m.take(ll);
    let d = m.skip(ll);
    let y = xor(c, h_round(1, ll, d));
    let x = xor(d, g_round(1, lr, y));
    let a = xor(y, h_round(0, ll, x));
    let b = xor(x, g_round(0, lr, a));
    a + b
}

pub open spec fn valid_len(n: int) -> bool {
    MIN_LEN <= n <= MAX_LEN
}

proof fn lemma_xor_twice(a: Seq<u8>, k: Seq<u8>)
    ensures
        xor(xor(a, k), k) =~= a,
{
    assert forall|i: int| 0 <= i < a.len() implies #[trigger] xor(xor(a, k), k)[i] == a[i] by {
        let (p, q) = (a[i], k[i]);
        assert((p ^ q) ^ q == p) by (bit_vector);
    }
}

/// The inverse permutation undoes the permutation.
pub proof fn lemma_unjumble_jumbled(m: Seq<u8>)
    ensures
        unjumbled(jumbled(m)) == m,
{
    let ll = left_len(m.len() as int);
    let lr = m.len() - ll;
    let a = m.take(ll);
    let b = m.skip(ll);
    let x = xor(b, g_round(0, lr, a));
    let y = xor(a, h_round(0, ll, x));
    let d = xor(x, g_round(1, lr, y));
    let c = xor(y, h_round(1, ll, d));
    let j = c + d;
    assert(j.len() == m.len());
    assert(j.take(ll) =~= c);
    assert(j.skip(ll) =~= d);
    lemma_xor_twice(y, h_round(1, ll, d));
    lemma_xor_twice(x, g_round(1, lr, y));
    lemma_xor_twice(a, h_round(0, ll, x));
    lemma_xor_twice(b, g_round(0, lr, a));
    assert(a + b =~= m);
}

fn xor_bytes(a: &[u8], k: &[u8]) -> (r: Vec<u8>)
    requires
        k@.len() >= a@.len(),
    ensures
        r@ == xor(a@, k@),
{
    let mut r: Vec<u8> = Vec::new();
    let mut i: usize = 0;
    while i < a.len()
        invariant
            i <= a@.len() <= k@.len(),
            r@ == xor(a@, k@).take(i as int),
        decreases a.len() - i,
    {
        r.push(a[i] ^ k[i]);
        assert(r@ =~= xor(a@, k@).take(i as int + 1));
        i += 1;
    }
    assert(r@ =~= xor(a@, k@));
    r
}

fn h_round_exec(round: u8, len: usize, u: &[u8]) -> (r: Vec<u8>)
    requires
        1 <= len <= 64,
    ensures
        r@ == h_round(round, len as int, u@),
        r@.len() == len,
{
    let personal: Vec<u8> = vec![85u8, 65, 95, 70, 52, 74, 117, 109, 98, 108, 101, 95, 72, round, 0, 0];
    assert(personal@ =~= h_personal(round));
    blake2b_personal(len, personal.as_slice(), u)
}

proof fn lemma_block_index(k: int, j: int, t: int)
    requires
        k == 64 * j + t,
        0 <= t < 64,
        0 <= j,
    ensures
        k / 64 == j,
        k % 64 == t,
{
    assert(k / 64 == j && k % 64 == t) by (nonlinear_arith)
        requires
            k == 64 * j + t,
            0 <= t < 64,
            0 <= j,
    ;
}

fn g_round_exec(round: u8, len: usize, u: &[u8]) -> (r: Vec<u8>)
    requires
        len <= 64 * 65536,
    ensures
        r@ == g_round(round, len as int, u@),
{
    let mut out: Vec<u8> = Vec::new();
    let mut j: usize = 0;
    while out.len() < len
        invariant
            len <= 64 * 65536,
            out@.len() == 64 * j || (out@.len() == len && j > 0),
            out@.len() <= len,
            out@ == g_round(round, out@.len() as int, u@),
        decreases len - out@.len(),
    {
        assert(j < 65536) by (nonlinear_arith)
            requires
                out@.len() == 64 * j,
                out@.len() < len <= 64 * 65536,
        ;
        let personal: Vec<u8> = vec![85u8, 65, 95, 70, 52, 74, 117, 109, 98, 108, 101, 95, 71,
            round, (j % 256) as u8, (j / 256) as u8];
        assert(personal@ =~= g_personal(round, j as int));
        let digest = blake2b_personal(64, personal.as_slice(), u);
        let mut t: usize = 0;
        while t < 64 && out.len() < len
            invariant
                t <= 64,
                out@.len() == 64 * j + t,
                out@.len() <= len,
                digest@ == blake2b_of(64, g_personal(round, j as int), u@),
                digest@.len() == 64,
                out@ == g_round(round, out@.len() as int, u@),
            decreases 64 - t,
        {
            proof {
                lemma_block_index(out@.len() as int, j as int, t as int);
            }
            out.push(digest[t]);
            assert(out@ =~= g_round(round, out@.len() as int, u@));
            t += 1;
        }
        j += 1;
    }
    out
}

/// Applies the permutation. Strings shorter than `MIN_LEN` or longer than
/// `MAX_LEN` are refused, as the format defines the permutation only there.
pub fn jumble(m: &[u8]) -> (r: Option<Vec<u8>>)
    ensures
        valid_len(m@.len() as int) ==> r is Some && r.unwrap()@ == jumbled(m@) && r.unwrap()@.len() == m@.len(),
        !valid_len(m@.len() as int) ==> r is None,
{
    if m.len() < MIN_LEN || m.len() > MAX_LEN {
        return None;
    }
    let ll: usize = if m.len() / 2 < 64 { m.len() / 2 } else { 64 };
    let lr = m.len() - ll;
    let a = vstd::slice::slice_subrange(m, 0, ll);
    let b = vstd::slice::slice_subrange(m, ll, m.len());
    assert(a@ =~= m@.take(ll as int));
    assert(b@ =~= m@.skip(ll as int));
    let g0 = g_round_exec(0, lr, a);
    let x = xor_bytes(b, g0.as_slice());
    let h0 = h_round_exec(0, ll, x.as_slice());
    let y = xor_bytes(a, h0.as_slice());
    let g1 = g_round_exec(1, lr, y.as_slice());
    let mut d = xor_bytes(x.as_slice(), g1.as_slice());
    let h1 = h_round_exec(1, ll, d.as_slice());
    let mut c = xor_bytes(y.as_slice(), h1.as_slice());
    c.append(&mut d);
    Some(c)
}

/// Applies the inverse permutation, with the same bounds on the length.
pub fn unjumble(m: &[u8]) -> (r: Option<Vec<u8>>)
    ensures
        valid_len(m@.len() as int) ==> r is Some && r.unwrap()@ == unjumbled(m@) && r.unwrap()@.len() == m@.len(),
        !valid_len(m@.len() as int) ==> r is None,
{
    if m.len() < MIN_LEN || m.len() > MAX_LEN {
        return None;
    }
    let ll: usize = if m.len() / 2 < 64 { m.len() / 2 } else { 64 };
    let lr = m.len() - ll;
    let c = vstd::slice::slice_subrange(m, 0, ll);
    let d = vstd::slice::slice_subrange(m, ll, m.len());
    assert(c@ =~= m@.take(ll as int));
    assert(d@ =~= m@.skip(ll as int));
    let h1 = h_round_exec(1, ll, d);
    let y = xor_bytes(c, h1.as_slice());
    let g1 = g_round_exec(1, lr, y.as_slice());
    let x = xor_bytes(d, g1.as_slice());
    let h0 = h_round_exec(0, ll, x.as_slice());
    let mut a = xor_bytes(y.as_slice(), h0.as_slice());
    let g0 = g_round_exec(0, lr, a.as_slice());
    let mut b = xor_bytes(x.as_slice(), g0.as_slice());
    a.append(&mut b);
    Some(a)
}

/// The permutation undoes the inverse permutation.
pub proof fn lemma_jumble_unjumbled(m: Seq<u8>)
    ensures
        jumbled(unjumbled(m)) == m,
{
    let ll = left_len(m.len() as int);
    let lr = m.len() - ll;
    let c = m.take(ll);
    let d = m.skip(ll);
    let y = xor(c, h_round(1, ll, d));
    let x = xor(d, g_round(1, lr, y));
    let a = xor(y, h_round(0, ll, x));
    let b = xor(x, g_round(0, lr, a));
    let u = a + b;
    assert(u.len() == m.len());
    assert(u.take(ll) =~= a);
    assert(u.skip(ll) =~= b);
    lemma_xor_twice(x, g_round(0, lr, a));
    lemma_xor_twice(y, h_round(0, ll, x));
    lemma_xor_twice(d, g_round(1, lr, y));
    lemma_xor_twice(c, h_round(1, ll, d));
    assert(c + d =~= m);
}

/// The permutation is a bijection: no two strings have the same image, and
/// every string is the image of one.
pub proof fn lemma_jumble_bijective(m1: Seq<u8>, m2: Seq<u8>)
    ensures
        jumbled(m1) == jumbled(m2) ==> m1 == m2,
        jumbled(unjumbled(m1)) == m1,
{
    lemma_unjumble_jumbled(m1);
    lemma_unjumble_jumbled(m2);
    lemma_jumble_unjumbled(m1);
}

} // verus!
