//! The binary layout of a stored key: the dimension `n` as eight big-endian
//! bytes, then the `n * n` entries row by row, each as the four big-endian
//! bytes of its 32-bit pattern.
use vstd::prelude::*;
use crate::codec::CodecError;
use crate::matrix::{Matrix, flattened, is_table};

verus! {

/// The eight bytes of `x`, most significant first.
pub open spec fn be_bytes_u64(x: u64) -> Seq<u8> {
    Seq::new(8, |k: int| ((x >> ((56 - 8 * k) as u64)) & 0xff) as u8)
}

/// The four bytes of `x`, most significant first.
pub open spec fn be_bytes_u32(x: u32) -> Seq<u8> {
    Seq::new(4, |k: int| ((x >> ((24 - 8 * k) as u32)) & 0xff) as u8)
}

/// The stored form of a key of dimension `n` whose entries, row by row, are
/// `words`.
pub open spec fn key_file(n: u64, words: Seq<u32>) -> Seq<u8> {
    be_bytes_u64(n) + Seq::new(4 * words.len(), |k: int| be_bytes_u32(words[k / 4])[k % 4])
}

/// The big-endian number in the eight bytes of `b` from `s` on.
pub open spec fn be_u64_at(b: Seq<u8>, s: int) -> u64 {
    ((b[s] as u64) << 56u64) | ((b[s + 1] as u64) << 48u64) | ((b[s + 2] as u64) << 40u64) | ((b[s
        + 3] as u64) << 32u64) | ((b[s + 4] as u64) << 24u64) | ((b[s + 5] as u64) << 16u64) | ((b[s
        + 6] as u64) << 8u64) | (b[s + 7] as u64)
}

/// The big-endian number in the four bytes of `b` from `s` on.
pub open spec fn be_u32_at(b: Seq<u8>, s: int) -> u32 {
    ((b[s] as u32) << 24u32) | ((b[s + 1] as u32) << 16u32) | ((b[s + 2] as u32) << 8u32) | (b[s
        + 3] as u32)
}

/// Writes a square table of 32-bit patterns in the stored key layout.
pub fn key_to_bytes(key: &Matrix<u32>) -> (r: Vec<u8>)
    requires
        key.wf(),
        key.n == key.m,
    ensures
        r@ == key_file(key.n as u64, flattened(key@, key.m as nat)),
{
    let ghost words = flattened(key@, key.m as nat);
    let n = key.n as u64;
    let mut r: Vec<u8> = Vec::new();
    for k in 0..8usize
        invariant
            r@.len() == k,
            forall|q: int| 0 <= q < k ==> r@[q] == #[trigger] be_bytes_u64(n)[q],
    {
        let shift = (56 - 8 * k) as u64;
        r.push(((n >> shift) & 0xff) as u8);
    }
    assert(r@ =~= be_bytes_u64(n));
    let ghost mut idx: int = 0;
    assert(r@ =~= key_file(n, words.take(0)));
    assert(0 * (key.m as int) == 0);
    for i in 0..key.n
        invariant
            key.wf(),
            key.n == key.m,
            n == key.n,
            words == flattened(key@, key.m as nat),
            idx == i * key.m,
            r@ =~= key_file(n, words.take(idx)),
    {
        for j in 0..key.m
            invariant
                key.wf(),
                key.n == key.m,
                n == key.n,
                i < key.n,
                words == flattened(key@, key.m as nat),
                idx == i * key.m + j,
                r@ =~= key_file(n, words.take(idx)),
        {
            assert(key@[i as int] == key.data@[i as int]@);
            assert(idx < key.n * key.m) by (nonlinear_arith)
                requires idx == i * key.m + j, i < key.n, j < key.m;
            assert(idx / (key.m as int) == i && idx % (key.m as int) == j) by (nonlinear_arith)
                requires idx == i * key.m + j, j < key.m;
            let x = key.data[i][j];
            assert(words[idx] == x);
            let ghost before = r@;
            r.push(((x >> 24u32) & 0xff) as u8);
            r.push(((x >> 16u32) & 0xff) as u8);
            r.push(((x >> 8u32) & 0xff) as u8);
            r.push((x & 0xff) as u8);
            proof {
                let t = words.take(idx + 1);
                assert(t.take(idx) == words.take(idx));
                assert((x >> 0u32) & 0xff == x & 0xff) by (bit_vector);
                assert forall|k: int| 0 <= k < r@.len() implies r@[k] == #[trigger] key_file(n, t)[k] by {
                    if k >= 8 + 4 * idx {
                        assert((k - 8) / 4 == idx && (k - 8) % 4 == k - 8 - 4 * idx);
                    } else if k >= 8 {
                        assert((k - 8) / 4 < idx);
                        assert(r@[k] == before[k]);
                    } else {
                        assert(r@[k] == before[k]);
                    }
                }
            }
            proof {
                idx = idx + 1;
            }
        }
        assert(idx == (i + 1) * key.m) by (nonlinear_arith)
            requires idx == i * key.m + key.m;
    }
    assert(idx == key.n * key.m);
    assert(words.take(idx) == words);
    r
}

/// Reads a stored key back into its dimension and its table of 32-bit
/// patterns; bytes after the last entry take no part.
pub fn key_from_bytes(b: &[u8]) -> (r: Result<Matrix<u32>, CodecError>)
    ensures
        match r {
            Ok(key) => b@.len() >= 8 && key.wf() && key.n == key.m && key.n == be_u64_at(b@, 0)
                && 8 + 4 * key.n * key.n <= b@.len()
                && forall|i: int, j: int| 0 <= i < key.n && 0 <= j < key.n
                    ==> #[trigger] key@[i][j] == be_u32_at(b@, 8 + 4 * (i * key.n + j)),
            Err(e) => e == CodecError::Truncated && (b@.len() < 8 || 8 + 4 * be_u64_at(b@, 0) * be_u64_at(b@, 0) > b@.len()),
        },
{
    if b.len() < 8 {
        return Err(CodecError::Truncated);
    }
    let n64 = ((b[0] as u64) << 56u64) | ((b[1] as u64) << 48u64) | ((b[2] as u64) << 40u64) | ((b[3]
        as u64) << 32u64) | ((b[4] as u64) << 24u64) | ((b[5] as u64) << 16u64) | ((b[6] as u64) << 8u64)
        | (b[7] as u64);
    assert(n64 == be_u64_at(b@, 0));
    let room = (b.len() - 8) / 4;
    assert((n64 as int) * (n64 as int) <= u128::MAX) by (nonlinear_arith)
        requires n64 <= u64::MAX;
    if (n64 as u128) * (n64 as u128) > room as u128 {
        assert(8 + 4 * n64 * n64 > b@.len()) by (nonlinear_arith)
            requires n64 * n64 > room, room == (b@.len() - 8) / 4, b@.len() >= 8;
        return Err(CodecError::Truncated);
    }
    assert(8 + 4 * n64 * n64 <= b@.len()) by (nonlinear_arith)
        requires n64 * n64 <= room, room == (b@.len() - 8) / 4, b@.len() >= 8;
    assert(n64 <= n64 * n64 || n64 == 0) by (nonlinear_arith);
    let n = n64 as usize;
    let mut data: Vec<Vec<u32>> = Vec::new();
    for i in 0..n
        invariant
            n == n64,
            n64 == be_u64_at(b@, 0),
            8 + 4 * n64 * n64 <= b@.len(),
            data@.len() == i,
            forall|q: int| 0 <= q < i ==> (#[trigger] data@[q])@.len() == n,
            forall|q: int, p: int| 0 <= q < i && 0 <= p < n ==> #[trigger] data@[q]@[p] == be_u32_at(b@, 8 + 4 * (q * n + p)),
    {
        let mut row: Vec<u32> = Vec::new();
        for j in 0..n
            invariant
                n == n64,
                8 + 4 * n64 * n64 <= b@.len(),
                i < n,
                row@.len() == j,
                forall|p: int| 0 <= p < j ==> #[trigger] row@[p] == be_u32_at(b@, 8 + 4 * (i * n + p)),
        {
            assert(8 + 4 * (i * n + j) + 4 <= 8 + 4 * n * n) by (nonlinear_arith)
                requires i < n, j < n;
            assert(b@.len() == b.len());
            let s = 8 + 4 * (i * n + j);
            let x = ((b[s] as u32) << 24u32) | ((b[s + 1] as u32) << 16u32) | ((b[s + 2] as u32) << 8u32)
                | (b[s + 3] as u32);
            row.push(x);
        }
        data.push(row);
    }
    let key = Matrix { n, m: n, data };
    assert forall|i: int, j: int| 0 <= i < key.n && 0 <= j < key.n implies #[trigger] key@[i][j] == be_u32_at(b@, 8 + 4 * (i * key.n + j)) by {
        assert(key@[i] == key.data@[i]@);
    }
    Ok(key)
}

/// Reading a stored key gives back the table it was written from.
pub proof fn lemma_key_file_round_trip(n: u64, t: Seq<Seq<u32>>)
    requires
        is_table(t, n as nat, n as nat),
    ensures
        be_u64_at(key_file(n, flattened(t, n as nat)), 0) == n,
        key_file(n, flattened(t, n as nat)).len() == 8 + 4 * n * n,
        forall|i: int, j: int| 0 <= i < n && 0 <= j < n
            ==> be_u32_at(key_file(n, flattened(t, n as nat)), 8 + 4 * (i * n + j)) == #[trigger] t[i][j],
{
    let words = flattened(t, n as nat);
    let f = key_file(n, words);
    assert(be_u64_at(f, 0) == n) by {
        assert(f[0] == ((n >> 56u64) & 0xff) as u8);
        assert(f[1] == ((n >> 48u64) & 0xff) as u8);
        assert(f[2] == ((n >> 40u64) & 0xff) as u8);
        assert(f[3] == ((n >> 32u64) & 0xff) as u8);
        assert(f[4] == ((n >> 24u64) & 0xff) as u8);
        assert(f[5] == ((n >> 16u64) & 0xff) as u8);
        assert(f[6] == ((n >> 8u64) & 0xff) as u8);
        assert(f[7] == ((n >> 0u64) & 0xff) as u8);
        assert(((((n >> 56u64) & 0xff) as u8 as u64) << 56u64) | ((((n >> 48u64) & 0xff) as u8 as u64) << 48u64)
            | ((((n >> 40u64) & 0xff) as u8 as u64) << 40u64) | ((((n >> 32u64) & 0xff) as u8 as u64) << 32u64)
            | ((((n >> 24u64) & 0xff) as u8 as u64) << 24u64) | ((((n >> 16u64) & 0xff) as u8 as u64) << 16u64)
            | ((((n >> 8u64) & 0xff) as u8 as u64) << 8u64) | (((n >> 0u64) & 0xff) as u8 as u64) == n) by (bit_vector);
    }
    assert(words.len() == n * n);
    assert(4 * words.len() == 4 * n * n) by (nonlinear_arith)
        requires words.len() == n * n;
    assert(f.len() == 8 + 4 * n * n);
    assert forall|i: int, j: int| 0 <= i < n && 0 <= j < n
        implies be_u32_at(f, 8 + 4 * (i * n + j)) == #[trigger] t[i][j] by {
        let k = i * n + j;
        assert(0 <= k < n * n) by (nonlinear_arith)
            requires k == i * n + j, 0 <= i < n, 0 <= j < n;
        assert(k / (n as int) == i && k % (n as int) == j) by (nonlinear_arith)
            requires k == i * n + j, 0 <= j < n, 0 <= i;
        let x = words[k];
        assert(x == t[i][j]);
        assert forall|q: int| 0 <= q < 4 implies #[trigger] f[8 + 4 * k + q] == be_bytes_u32(x)[q] by {
            assert((4 * k + q) / 4 == k && (4 * k + q) % 4 == q) by (nonlinear_arith)
                requires 0 <= q < 4;
        }
        assert(f[8 + 4 * k] == be_bytes_u32(x)[0]);
        assert(f[8 + 4 * k + 1] == be_bytes_u32(x)[1]);
        assert(f[8 + 4 * k + 2] == be_bytes_u32(x)[2]);
        assert(f[8 + 4 * k + 3] == be_bytes_u32(x)[3]);
        assert(((((x >> 24u32) & 0xff) as u8 as u32) << 24u32) | ((((x >> 16u32) & 0xff) as u8 as u32) << 16u32)
            | ((((x >> 8u32) & 0xff) as u8 as u32) << 8u32) | (((x >> 0u32) & 0xff) as u8 as u32) == x) by (bit_vector);
    }
}

} // verus!
