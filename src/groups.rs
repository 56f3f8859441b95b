//! Regrouping bytes into 5-bit values (most significant bit first) and back.
//! Five bytes make eight values; a shorter tail is padded with zero bits.

use vstd::prelude::*;

verus! {

/// The eight 5-bit values of a 5-byte chunk.
pub open spec fn chunk_groups(c: Seq<u8>) -> Seq<u8> {
    seq![
        c[0] >> 3u8,
        ((c[0] & 7u8) << 2u8) | (c[1] >> 6u8),
        (c[1] >> 1u8) & 31u8,
        ((c[1] & 1u8) << 4u8) | (c[2] >> 4u8),
        ((c[2] & 15u8) << 1u8) | (c[3] >> 7u8),
        (c[3] >> 2u8) & 31u8,
        ((c[3] & 3u8) << 3u8) | (c[4] >> 5u8),
        c[4] & 31u8,
    ]
}

/// The five bytes that eight 5-bit values make.
pub open spec fn chunk_bytes(g: Seq<u8>) -> Seq<u8> {
    seq![
        (g[0] << 3u8) | (g[1] >> 2u8),
        ((g[1] & 3u8) << 6u8) | (g[2] << 1u8) | (g[3] >> 4u8),
        ((g[3] & 15u8) << 4u8) | (g[4] >> 1u8),
        ((g[4] & 1u8) << 7u8) | (g[5] << 2u8) | (g[6] >> 3u8),
        ((g[6] & 7u8) << 5u8) | g[7],
    ]
}

pub open spec fn zeros(n: int) -> Seq<u8> {
    Seq::new(n as nat, |i: int| 0u8)
}

/// How many 5-bit values a tail of `n < 5` bytes takes: the ceiling of 8n/5.
pub open spec fn tail_groups(n: int) -> int {
    if n == 0 { 0 } else if n == 1 { 2 } else if n == 2 { 4 } else if n == 3 { 5 } else { 7 }
}

/// How many bytes a tail of `m < 8` values holds, if `m` can end a
/// regrouping at all.
pub open spec fn tail_bytes(m: int) -> Option<int> {
    if m == 0 { Some(0) } else if m == 2 { Some(1) } else if m == 4 { Some(2) }
    else if m == 5 { Some(3) } else if m == 7 { Some(4) } else { None }
}

/// The 5-bit values of a byte string.
pub open spec fn to_groups(b: Seq<u8>) -> Seq<u8>
    decreases b.len(),
{
    if b.len() >= 5 {
        chunk_groups(b.take(5)) + to_groups(b.skip(5))
    } else {
        chunk_groups(b + zeros(5 - b.len())).take(tail_groups(b.len() as int))
    }
}

/// The bytes of a tail of fewer than eight values, when its length is one
/// that a regrouping ends with and its padding bits are zero.
pub open spec fn tail_from_groups(g: Seq<u8>) -> Option<Seq<u8>> {
    match tail_bytes(g.len() as int) {
        None => None,
        Some(n) => {
            let padded = g + zeros(8 - g.len());
            let b = chunk_bytes(padded).take(n);
            if chunk_groups(b + zeros(5 - n)) == padded { Some(b) } else { None }
        },
    }
}

/// The bytes that a sequence of 5-bit values stands for, if it is the
/// regrouping of some byte string.
pub open spec fn from_groups(g: Seq<u8>) -> Option<Seq<u8>>
    decreases g.len(),
{
    if g.len() >= 8 {
        match from_groups(g.skip(8)) {
            Some(rest) => Some(chunk_bytes(g.take(8)) + rest),
            None => None,
        }
    } else {
        tail_from_groups(g)
    }
}

proof fn lemma_chunk_round_trip(c: Seq<u8>)
    requires
        c.len() == 5,
    ensures
        chunk_bytes(chunk_groups(c)) =~= c,
{
    let (b0, b1, b2, b3, b4) = (c[0], c[1], c[2], c[3], c[4]);
    assert(((b0 >> 3u8) << 3u8) | ((((b0 & 7u8) << 2u8) | (b1 >> 6u8)) >> 2u8) == b0)
        by (bit_vector);
    assert((((((b0 & 7u8) << 2u8) | (b1 >> 6u8)) & 3u8) << 6u8) | (((b1 >> 1u8) & 31u8) << 1u8)
        | ((((b1 & 1u8) << 4u8) | (b2 >> 4u8)) >> 4u8) == b1) by (bit_vector);
    assert((((((b1 & 1u8) << 4u8) | (b2 >> 4u8)) & 15u8) << 4u8) | ((((b2 & 15u8) << 1u8) | (
    b3 >> 7u8)) >> 1u8) == b2) by (bit_vector);
    assert((((((b2 & 15u8) << 1u8) | (b3 >> 7u8)) & 1u8) << 7u8) | (((b3 >> 2u8) & 31u8) << 2u8)
        | ((((b3 & 3u8) << 3u8) | (b4 >> 5u8)) >> 3u8) == b3) by (bit_vector);
    assert((((((b3 & 3u8) << 3u8) | (b4 >> 5u8)) & 7u8) << 5u8) | (b4 & 31u8) == b4)
        by (bit_vector);
}

proof fn lemma_tail_round_trip(b: Seq<u8>)
    requires
        b.len() < 5,
    ensures
        tail_from_groups(to_groups(b)) == Some(b),
{
    let n = b.len() as int;
    let c = b + zeros(5 - n);
    let k = tail_groups(n);
    let g = to_groups(b);
    assert(g == chunk_groups(c).take(k));
    let padded = g + zeros(8 - k);
    let z = 0u8;
    assert(z >> 3u8 == 0 && ((z & 7u8) << 2u8) | (z >> 6u8) == 0 && (z >> 1u8) & 31u8 == 0 && ((z & 1u8) << 4u8) | (z >> 4u8) == 0 && ((z & 15u8) << 1u8)
        | (z >> 7u8) == 0 && (z >> 2u8) & 31u8 == 0 && ((z & 3u8) << 3u8) | (z >> 5u8) == 0 && z
        & 31u8 == 0) by (bit_vector)
        requires
            z == 0u8,
    ;
    if n >= 1 {
        let b0 = c[0];
        assert(((b0 & 7u8) << 2u8) | (z >> 6u8) == (b0 & 7u8) << 2u8) by (bit_vector)
            requires
                z == 0u8,
        ;
    }
    if n >= 2 {
        let b1 = c[1];
        assert(((b1 & 1u8) << 4u8) | (z >> 4u8) == (b1 & 1u8) << 4u8) by (bit_vector)
            requires
                z == 0u8,
        ;
    }
    if n >= 3 {
        let b2 = c[2];
        assert(((b2 & 15u8) << 1u8) | (z >> 7u8) == (b2 & 15u8) << 1u8) by (bit_vector)
            requires
                z == 0u8,
        ;
    }
    if n >= 4 {
        let b3 = c[3];
        assert(((b3 & 3u8) << 3u8) | (z >> 5u8) == (b3 & 3u8) << 3u8) by (bit_vector)
            requires
                z == 0u8,
        ;
    }
    assert(forall|j: int| n <= j < 5 ==> c[j] == 0u8);
    assert(forall|j: int| 0 <= j < n ==> c[j] == b[j]);
    assert forall|j: int| 0 <= j < 8 implies #[trigger] padded[j] == chunk_groups(c)[j] by {
        let g8 = chunk_groups(c);
        if j >= k {
            assert(padded[j] == 0u8);
            assert(g8[2] == (c[1] >> 1u8) & 31u8);
            if n <= 1 { assert(c[1] == 0u8); assert(g8[2] == 0u8); assert(g8[3] == 0u8); }
            if n <= 2 { assert(g8[4] == 0u8); }
            if n <= 3 { assert(g8[5] == 0u8); assert(g8[6] == 0u8); }
            assert(g8[7] == 0u8);
            if j == 0 { assert(g8[j] == 0u8); } else if j == 1 { assert(g8[j] == 0u8); }
            else if j == 2 { assert(g8[j] == 0u8); } else if j == 3 { assert(g8[j] == 0u8); }
            else if j == 4 { assert(g8[j] == 0u8); } else if j == 5 { assert(g8[j] == 0u8); }
            else if j == 6 { assert(g8[j] == 0u8); } else { assert(g8[j] == 0u8); }
        } else {
            assert(padded[j] == g[j]);
        }
    }
    assert(padded =~= chunk_groups(c));
    lemma_chunk_round_trip(c);
    assert(chunk_bytes(padded).take(n) =~= b);
}

/// Regrouping a byte string and reading the values back gives the bytes.
pub proof fn lemma_groups_round_trip(b: Seq<u8>)
    ensures
        from_groups(to_groups(b)) == Some(b),
    decreases b.len(),
{
    if b.len() >= 5 {
        lemma_groups_round_trip(b.skip(5));
        let g = to_groups(b);
        let head = chunk_groups(b.take(5));
        assert(g.take(8) =~= head);
        assert(g.skip(8) =~= to_groups(b.skip(5)));
        lemma_chunk_round_trip(b.take(5));
        assert(b.take(5) + b.skip(5) =~= b);
    } else {
        lemma_tail_round_trip(b);
        assert(to_groups(b).len() < 8);
    }
}

/// Every value of a regrouping is below 32.
pub proof fn lemma_groups_5bit(b: Seq<u8>)
    ensures
        forall|i: int| 0 <= i < to_groups(b).len() ==> #[trigger] to_groups(b)[i] < 32,
    decreases b.len(),
{
    let c = if b.len() >= 5 { b.take(5) } else { b + zeros(5 - b.len()) };
    let (b0, b1, b2, b3, b4) = (c[0], c[1], c[2], c[3], c[4]);
    assert(b0 >> 3u8 < 32 && ((b0 & 7u8) << 2u8) | (b1 >> 6u8) < 32 && (b1 >> 1u8) & 31u8 < 32
        && ((b1 & 1u8) << 4u8) | (b2 >> 4u8) < 32 && ((b2 & 15u8) << 1u8) | (b3 >> 7u8) < 32 && (b3
        >> 2u8) & 31u8 < 32 && ((b3 & 3u8) << 3u8) | (b4 >> 5u8) < 32 && b4 & 31u8 < 32)
        by (bit_vector);
    let h = chunk_groups(c);
    assert(forall|i: int| 0 <= i < 8 ==> #[trigger] h[i] < 32);
    if b.len() >= 5 {
        lemma_groups_5bit(b.skip(5));
        let g = to_groups(b);
        assert forall|i: int| 0 <= i < g.len() implies #[trigger] g[i] < 32 by {
            if i >= 8 {
                assert(g[i] == to_groups(b.skip(5))[i - 8]);
            }
        }
    }
}

fn chunk_groups_exec(c: &Vec<u8>) -> (r: Vec<u8>)
    requires
        c@.len() == 5,
    ensures
        r@ == chunk_groups(c@),
{
    let r = vec![
        c[0] >> 3u8,
        ((c[0] & 7u8) << 2u8) | (c[1] >> 6u8),
        (c[1] >> 1u8) & 31u8,
        ((c[1] & 1u8) << 4u8) | (c[2] >> 4u8),
        ((c[2] & 15u8) << 1u8) | (c[3] >> 7u8),
        (c[3] >> 2u8) & 31u8,
        ((c[3] & 3u8) << 3u8) | (c[4] >> 5u8),
        c[4] & 31u8,
    ];
    assert(r@ =~= chunk_groups(c@));
    r
}

fn chunk_bytes_exec(g: &Vec<u8>) -> (r: Vec<u8>)
    requires
        g@.len() == 8,
    ensures
        r@ == chunk_bytes(g@),
{
    let r = vec![
        (g[0] << 3u8) | (g[1] >> 2u8),
        ((g[1] & 3u8) << 6u8) | (g[2] << 1u8) | (g[3] >> 4u8),
        ((g[3] & 15u8) << 4u8) | (g[4] >> 1u8),
        ((g[4] & 1u8) << 7u8) | (g[5] << 2u8) | (g[6] >> 3u8),
        ((g[6] & 7u8) << 5u8) | g[7],
    ];
    assert(r@ =~= chunk_bytes(g@));
    r
}

/// Copies `src[lo..hi]` followed by `pad` zeros into a new vector.
fn copy_padded(src: &[u8], lo: usize, hi: usize, pad: usize) -> (r: Vec<u8>)
    requires
        lo <= hi <= src@.len(),
        pad <= 8,
    ensures
        r@ == src@.subrange(lo as int, hi as int) + zeros(pad as int),
{
    let mut r: Vec<u8> = Vec::new();
    let mut i: usize = lo;
    while i < hi
        invariant
            lo <= i <= hi <= src@.len(),
            r@ == src@.subrange(lo as int, i as int),
        decreases hi - i,
    {
        r.push(src[i]);
        assert(r@ =~= src@.subrange(lo as int, i as int + 1));
        i += 1;
    }
    let mut z: usize = 0;
    while z < pad
        invariant
            z <= pad <= 8,
            r@ == src@.subrange(lo as int, hi as int) + zeros(z as int),
        decreases pad - z,
    {
        r.push(0u8);
        assert(r@ =~= src@.subrange(lo as int, hi as int) + zeros(z as int + 1));
        z += 1;
    }
    r
}

/// The 5-bit values of a byte string.
pub fn bytes_to_groups(b: &[u8]) -> (r: Vec<u8>)
    requires
        b@.len() <= usize::MAX / 2,
    ensures
        r@ == to_groups(b@),
        forall|i: int| 0 <= i < r@.len() ==> #[trigger] r@[i] < 32,
{
    proof { lemma_groups_5bit(b@); }
    let mut out: Vec<u8> = Vec::new();
    let mut i: usize = 0;
    assert(b@.skip(0) =~= b@);
    assert(out@ + to_groups(b@) =~= to_groups(b@));
    while b.len() - i >= 5
        invariant
            i <= b@.len() <= usize::MAX / 2,
            out@ + to_groups(b@.skip(i as int)) == to_groups(b@),
        decreases b.len() - i,
    {
        let c = copy_padded(b, i, i + 5, 0);
        assert(c@ =~= b@.skip(i as int).take(5));
        let g = chunk_groups_exec(&c);
        let ghost before = out@;
        let mut k: usize = 0;
        while k < 8
            invariant
                k <= 8,
                g@.len() == 8,
                out@ == before + g@.take(k as int),
            decreases 8 - k,
        {
            out.push(g[k]);
            assert(out@ =~= before + g@.take(k as int + 1));
            k += 1;
        }
        assert(b@.skip(i as int).skip(5) =~= b@.skip(i as int + 5));
        assert(g@.take(8) =~= g@);
        assert(out@ + to_groups(b@.skip(i as int + 5)) =~= before + to_groups(b@.skip(i as int)));
        i += 5;
    }
    let n = b.len() - i;
    let c = copy_padded(b, i, b.len(), 5 - n);
    assert(c@ =~= b@.skip(i as int) + zeros(5 - n));
    let g = chunk_groups_exec(&c);
    let take: usize = if n == 0 { 0 } else if n == 1 { 2 } else if n == 2 { 4 } else if n == 3 { 5 } else { 7 };
    let ghost before = out@;
    let mut k: usize = 0;
    while k < take
        invariant
            k <= take <= 7,
            g@.len() == 8,
            out@ == before + g@.take(k as int),
        decreases take - k,
    {
        out.push(g[k]);
        assert(out@ =~= before + g@.take(k as int + 1));
        k += 1;
    }
    assert(out@ =~= to_groups(b@));
    out
}

/// The bytes that a sequence of 5-bit values stands for, if it is the
/// regrouping of a byte string.
pub fn groups_to_bytes(g: &[u8]) -> (r: Option<Vec<u8>>)
    ensures
        match r {
            None => from_groups(g@) is None,
            Some(b) => from_groups(g@) == Some(b@),
        },
{
    let mut out: Vec<u8> = Vec::new();
    let mut i: usize = 0;
    assert(g@.skip(0) =~= g@);
    proof {
        match from_groups(g@) {
            Some(rest) => {
                assert(out@ + rest =~= rest);
            },
            None => {},
        }
    }
    while g.len() - i >= 8
        invariant
            i <= g@.len(),
            from_groups(g@) == (match from_groups(g@.skip(i as int)) {
                Some(rest) => Some(out@ + rest),
                None => None,
            }),
        decreases g.len() - i,
    {
        let c = copy_padded(g, i, i + 8, 0);
        assert(c@ =~= g@.skip(i as int).take(8));
        let b = chunk_bytes_exec(&c);
        let ghost before = out@;
        let mut k: usize = 0;
        while k < 5
            invariant
                k <= 5,
                b@.len() == 5,
                out@ == before + b@.take(k as int),
            decreases 5 - k,
        {
            out.push(b[k]);
            assert(out@ =~= before + b@.take(k as int + 1));
            k += 1;
        }
        assert(g@.skip(i as int).skip(8) =~= g@.skip(i as int + 8));
        assert(b@.take(5) =~= b@);
        proof {
            match from_groups(g@.skip(i as int + 8)) {
                Some(rest) => {
                    assert(out@ + rest =~= before + (b@ + rest));
                },
                None => {},
            }
        }
        i += 8;
    }
    let m = g.len() - i;
    let n: usize = if m == 0 { 0 } else if m == 2 { 1 } else if m == 4 { 2 } else if m == 5 { 3 }
        else if m == 7 { 4 } else { return None; };
    let padded = copy_padded(g, i, g.len(), 8 - m);
    assert(padded@ =~= g@.skip(i as int) + zeros(8 - m));
    let bytes = chunk_bytes_exec(&padded);
    let tail = copy_padded(bytes.as_slice(), 0, n, 5 - n);
    assert(tail@ =~= bytes@.take(n as int) + zeros(5 - n));
    let again = chunk_groups_exec(&tail);
    let ghost before = out@;
    let mut k: usize = 0;
    while k < 8
        invariant
            i <= g@.len(),
            m == g@.len() - i,
            m < 8,
            tail_bytes(m as int) == Some(n as int),
            padded@ == g@.skip(i as int) + zeros(8 - m),
            bytes@ == chunk_bytes(padded@),
            again@ == chunk_groups(bytes@.take(n as int) + zeros(5 - n)),
            from_groups(g@) == (match from_groups(g@.skip(i as int)) {
                Some(rest) => Some(before + rest),
                None => None,
            }),
            k <= 8,
            again@.len() == 8,
            padded@.len() == 8,
            forall|j: int| 0 <= j < k ==> #[trigger] again@[j] == padded@[j],
        decreases 8 - k,
    {
        if again[k] != padded[k] {
            assert(again@ != padded@);
            assert(tail_from_groups(g@.skip(i as int)) is None);
            return None;
        }
        k += 1;
    }
    assert(again@ =~= padded@);
    assert(tail_from_groups(g@.skip(i as int)) == Some(bytes@.take(n as int)));
    let mut t: usize = 0;
    while t < n
        invariant
            i <= g@.len(),
            m == g@.len() - i,
            m < 8,
            tail_bytes(m as int) == Some(n as int),
            padded@ == g@.skip(i as int) + zeros(8 - m),
            bytes@ == chunk_bytes(padded@),
            from_groups(g@) == (match from_groups(g@.skip(i as int)) {
                Some(rest) => Some(before + rest),
                None => None,
            }),
            from_groups(g@.skip(i as int)) == Some(bytes@.take(n as int)),
            t <= n <= 4,
            bytes@.len() == 5,
            out@ == before + bytes@.take(t as int),
        decreases n - t,
    {
        out.push(bytes[t]);
        assert(out@ =~= before + bytes@.take(t as int + 1));
        t += 1;
    }
    Some(out)
}

} // verus!
