//! Typecode-length-value items. Typecodes and lengths are written in the
//! CompactSize encoding: one byte below 253, else a marker byte followed by
//! two, four or eight little-endian bytes, always the shortest form.

use vstd::prelude::*;

verus! {

/// One item of a container.
#[derive(Clone, Debug, PartialEq, Eq)]
pub struct TlvItem {
    pub typecode: u64,
    pub value: Vec<u8>,
}

impl TlvItem {
    pub open spec fn view(&self) -> (u64, Seq<u8>) {
        (self.typecode, self.value@)
    }
}

/// The items as (typecode, value) pairs.
pub open spec fn items_view(items: Seq<TlvItem>) -> Seq<(u64, Seq<u8>)> {
    items.map_values(|it: TlvItem| it.view())
}

pub open spec fn le2(b0: u8, b1: u8) -> u64 {
    (b0 as u64) | ((b1 as u64) << 8u64)
}

pub open spec fn le4(b0: u8, b1: u8, b2: u8, b3: u8) -> u64 {
    (b0 as u64) | ((b1 as u64) << 8u64) | ((b2 as u64) << 16u64) | ((b3 as u64) << 24u64)
}

pub open spec fn le8(s: Seq<u8>) -> u64 {
    le4(s[0], s[1], s[2], s[3]) | ((s[4] as u64) << 32u64) | ((s[5] as u64) << 40u64)
        | ((s[6] as u64) << 48u64) | ((s[7] as u64) << 56u64)
}

/// The two low bytes of `n`, least significant first.
pub open spec fn le_bytes2(n: u64) -> Seq<u8> {
    seq![n as u8, (n >> 8u64) as u8]
}

/// The four low bytes of `n`, least significant first.
pub open spec fn le_bytes4(n: u64) -> Seq<u8> {
    seq![n as u8, (n >> 8u64) as u8, (n >> 16u64) as u8, (n >> 24u64) as u8]
}

/// The eight bytes of `n`, least significant first.
pub open spec fn le_bytes8(n: u64) -> Seq<u8> {
    le_bytes4(n) + seq![(n >> 32u64) as u8, (n >> 40u64) as u8, (n >> 48u64) as u8, (n >> 56u64) as u8]
}

/// The CompactSize encoding of `n`.
pub open spec fn compact_size(n: u64) -> Seq<u8> {
    if n < 253 {
        seq![n as u8]
    } else if n <= 0xffff {
        seq![253u8] + le_bytes2(n)
    } else if n <= 0xffff_ffff {
        seq![254u8] + le_bytes4(n)
    } else {
        seq![255u8] + le_bytes8(n)
    }
}

/// The value of a CompactSize encoding at the start of `s` and its length in
/// bytes, if `s` starts with a complete shortest-form encoding.
#[verifier::opaque]
pub open spec fn parse_compact(s: Seq<u8>) -> Option<(u64, int)> {
    if s.len() < 1 {
        None
    } else if s[0] < 253 {
        Some((s[0] as u64, 1))
    } else if s[0] == 253 {
        if s.len() < 3 || le2(s[1], s[2]) < 253 {
            None
        } else {
            Some((le2(s[1], s[2]), 3))
        }
    } else if s[0] == 254 {
        if s.len() < 5 || le4(s[1], s[2], s[3], s[4]) <= 0xffff {
            None
        } else {
            Some((le4(s[1], s[2], s[3], s[4]), 5))
        }
    } else {
        if s.len() < 9 || le8(s.subrange(1, 9)) <= 0xffff_ffff {
            None
        } else {
            Some((le8(s.subrange(1, 9)), 9))
        }
    }
}

/// The serialization of one item.
pub open spec fn item_bytes(item: (u64, Seq<u8>)) -> Seq<u8> {
    compact_size(item.0) + compact_size(item.1.len() as u64) + item.1
}

/// The serialization of a sequence of items, in order.
pub open spec fn items_bytes(items: Seq<(u64, Seq<u8>)>) -> Seq<u8>
    decreases items.len(),
{
    if items.len() == 0 {
        Seq::empty()
    } else {
        item_bytes(items[0]) + items_bytes(items.skip(1))
    }
}

/// The items that `s` holds, in order, if it is exactly a sequence of
/// well-formed items.
pub open spec fn parse_items(s: Seq<u8>) -> Option<Seq<(u64, Seq<u8>)>>
    decreases s.len(),
{
    if s.len() == 0 {
        Some(Seq::empty())
    } else {
        match parse_compact(s) {
            None => None,
            Some((tc, n1)) => {
                if n1 < 1 || n1 > s.len() {
                    None
                } else {
                    match parse_compact(s.skip(n1)) {
                        None => None,
                        Some((len, n2)) => {
                            let rest = s.skip(n1).skip(n2);
                            if n2 < 1 || n2 > s.len() - n1 || len > rest.len() {
                                None
                            } else {
                                match parse_items(rest.skip(len as int)) {
                                    None => None,
                                    Some(tail) => Some(seq![(tc, rest.take(len as int))] + tail),
                                }
                            }
                        },
                    }
                }
            },
        }
    }
}

proof fn lemma_compact_round_trip(n: u64, rest: Seq<u8>)
    ensures
        parse_compact(compact_size(n) + rest) == Some((n, compact_size(n).len() as int)),
        1 <= compact_size(n).len() <= 9,
{
    reveal(parse_compact);
    let s = compact_size(n) + rest;
    if n < 253 {
    } else if n <= 0xffff {
        assert(le2(n as u8, (n >> 8u64) as u8) == n) by (bit_vector)
            requires
                n <= 0xffff,
        ;
        assert(s[1] == n as u8 && s[2] == (n >> 8u64) as u8);
    } else if n <= 0xffff_ffff {
        assert(le4(n as u8, (n >> 8u64) as u8, (n >> 16u64) as u8, (n >> 24u64) as u8) == n)
            by (bit_vector)
            requires
                n <= 0xffff_ffff,
        ;
        assert(s[1] == n as u8 && s[2] == (n >> 8u64) as u8 && s[3] == (n >> 16u64) as u8 && s[4]
            == (n >> 24u64) as u8);
    } else {
        let t = s.subrange(1, 9);
        assert(t =~= le_bytes8(n));
        assert((n as u8 as u64) | (((n >> 8u64) as u8 as u64) << 8u64) | (((n >> 16u64) as u8 as u64)
            << 16u64) | (((n >> 24u64) as u8 as u64) << 24u64) | (((n >> 32u64) as u8 as u64)
            << 32u64) | (((n >> 40u64) as u8 as u64) << 40u64) | (((n >> 48u64) as u8 as u64)
            << 48u64) | (((n >> 56u64) as u8 as u64) << 56u64) == n) by (bit_vector);
        assert(t[0] == n as u8 && t[1] == (n >> 8u64) as u8 && t[2] == (n >> 16u64) as u8 && t[3]
            == (n >> 24u64) as u8 && t[4] == (n >> 32u64) as u8 && t[5] == (n >> 40u64) as u8
            && t[6] == (n >> 48u64) as u8 && t[7] == (n >> 56u64) as u8);
    }
}

proof fn lemma_items_bytes_append(a: Seq<(u64, Seq<u8>)>, b: Seq<(u64, Seq<u8>)>)
    ensures
        items_bytes(a + b) == items_bytes(a) + items_bytes(b),
    decreases a.len(),
{
    if a.len() == 0 {
        assert(a + b =~= b);
        assert(items_bytes(a) + items_bytes(b) =~= items_bytes(b));
    } else {
        lemma_items_bytes_append(a.skip(1), b);
        assert((a + b).skip(1) =~= a.skip(1) + b);
        assert((a + b)[0] == a[0]);
        assert(item_bytes(a[0]) + (items_bytes(a.skip(1)) + items_bytes(b)) =~= items_bytes(a)
            + items_bytes(b));
    }
}

proof fn lemma_parse_item_then(item: (u64, Seq<u8>), r: Seq<u8>)
    requires
        item.1.len() <= u64::MAX,
    ensures
        parse_items(item_bytes(item) + r) == (match parse_items(r) {
            Some(t) => Some(seq![item] + t),
            None => None,
        }),
{
    let (tc, v) = item;
    let s = item_bytes(item) + r;
    let c1 = compact_size(tc);
    let c2 = compact_size(v.len() as u64);
    let after1 = c2 + (v + r);
    assert(s =~= c1 + after1);
    lemma_compact_round_trip(tc, after1);
    assert(s.skip(c1.len() as int) =~= after1);
    lemma_compact_round_trip(v.len() as u64, v + r);
    let rest = after1.skip(c2.len() as int);
    assert(rest =~= v + r);
    assert(rest.take(v.len() as int) =~= v);
    assert(rest.skip(v.len() as int) =~= r);
}

/// Parsing the serialization of items gives back the same items in the same
/// order.
pub proof fn lemma_parse_items_bytes(items: Seq<(u64, Seq<u8>)>)
    requires
        forall|i: int| 0 <= i < items.len() ==> #[trigger] items[i].1.len() <= u64::MAX,
    ensures
        parse_items(items_bytes(items)) == Some(items),
    decreases items.len(),
{
    if items.len() > 0 {
        let tail = items.skip(1);
        assert forall|i: int| 0 <= i < tail.len() implies #[trigger] tail[i].1.len() <= u64::MAX by {
            assert(tail[i] == items[i + 1]);
        }
        lemma_parse_items_bytes(tail);
        lemma_parse_item_then(items[0], items_bytes(tail));
        assert(seq![items[0]] + tail =~= items);
    }
}

/// Reads a CompactSize encoding at `pos`: its value and its length.
pub fn read_compact(s: &[u8], pos: usize) -> (r: Option<(u64, usize)>)
    requires
        pos <= s@.len(),
    ensures
        match r {
            None => parse_compact(s@.skip(pos as int)) is None,
            Some((v, n)) => parse_compact(s@.skip(pos as int)) == Some((v, n as int)) && 1 <= n
                && pos + n <= s@.len(),
        },
{
    reveal(parse_compact);
    let ghost t = s@.skip(pos as int);
    let avail = s.len() - pos;
    if avail < 1 {
        return None;
    }
    let b0 = s[pos];
    assert(t[0] == b0);
    if b0 < 253 {
        Some((b0 as u64, 1))
    } else if b0 == 253 {
        if avail < 3 {
            return None;
        }
        let v = (s[pos + 1] as u64) | ((s[pos + 2] as u64) << 8u64);
        assert(v == le2(t[1], t[2]));
        if v < 253 { None } else { Some((v, 3)) }
    } else if b0 == 254 {
        if avail < 5 {
            return None;
        }
        let v = (s[pos + 1] as u64) | ((s[pos + 2] as u64) << 8u64) | ((s[pos + 3] as u64) << 16u64)
            | ((s[pos + 4] as u64) << 24u64);
        assert(v == le4(t[1], t[2], t[3], t[4]));
        if v <= 0xffff { None } else { Some((v, 5)) }
    } else {
        if avail < 9 {
            return None;
        }
        let v = (s[pos + 1] as u64) | ((s[pos + 2] as u64) << 8u64) | ((s[pos + 3] as u64) << 16u64)
            | ((s[pos + 4] as u64) << 24u64) | ((s[pos + 5] as u64) << 32u64) | ((s[pos + 6] as u64)
            << 40u64) | ((s[pos + 7] as u64) << 48u64) | ((s[pos + 8] as u64) << 56u64);
        assert(v == le8(t.subrange(1, 9)));
        if v <= 0xffff_ffff { None } else { Some((v, 9)) }
    }
}

/// Appends the CompactSize encoding of `n`.
pub fn write_compact(out: &mut Vec<u8>, n: u64)
    ensures
        final(out)@ == old(out)@ + compact_size(n),
{
    if n < 253 {
        out.push(n as u8);
        assert(final(out)@ =~= old(out)@ + compact_size(n));
    } else if n <= 0xffff {
        out.push(253u8);
        out.push(n as u8);
        out.push((n >> 8u64) as u8);
        assert(final(out)@ =~= old(out)@ + compact_size(n));
    } else if n <= 0xffff_ffff {
        out.push(254u8);
        out.push(n as u8);
        out.push((n >> 8u64) as u8);
        out.push((n >> 16u64) as u8);
        out.push((n >> 24u64) as u8);
        assert(final(out)@ =~= old(out)@ + compact_size(n));
    } else {
        out.push(255u8);
        out.push(n as u8);
        out.push((n >> 8u64) as u8);
        out.push((n >> 16u64) as u8);
        out.push((n >> 24u64) as u8);
        out.push((n >> 32u64) as u8);
        out.push((n >> 40u64) as u8);
        out.push((n >> 48u64) as u8);
        out.push((n >> 56u64) as u8);
        assert(final(out)@ =~= old(out)@ + compact_size(n));
    }
}

/// Serializes items, in order.
pub fn serialize_items(items: &[TlvItem]) -> (r: Vec<u8>)
    ensures
        r@ == items_bytes(items_view(items@)),
{
    let ghost all = items_view(items@);
    let mut out: Vec<u8> = Vec::new();
    let mut i: usize = 0;
    while i < items.len()
        invariant
            i <= items@.len(),
            all == items_view(items@),
            out@ == items_bytes(all.take(i as int)),
        decreases items.len() - i,
    {
        let item = &items[i];
        write_compact(&mut out, item.typecode);
        write_compact(&mut out, item.value.len() as u64);
        let mut v = vstd::slice::slice_to_vec(item.value.as_slice());
        out.append(&mut v);
        proof {
            let x = all[i as int];
            assert(x == item.view());
            lemma_items_bytes_append(all.take(i as int), seq![x]);
            assert(all.take(i as int + 1) =~= all.take(i as int) + seq![x]);
            assert(seq![x].skip(1) =~= Seq::<(u64, Seq<u8>)>::empty());
            assert(seq![x][0] == x);
            assert(items_bytes(seq![x].skip(1)) =~= Seq::<u8>::empty());
            assert(items_bytes(seq![x]) =~= item_bytes(x));
            assert(out@ =~= items_bytes(all.take(i as int + 1)));
        }
        i += 1;
    }
    assert(all.take(items@.len() as int) =~= all);
    out
}

/// Parses a byte string that must consist of whole items and nothing else.
pub fn parse_items_exec(s: &[u8]) -> (r: Option<Vec<TlvItem>>)
    ensures
        match r {
            None => parse_items(s@) is None,
            Some(v) => parse_items(s@) == Some(items_view(v@)),
        },
{
    let mut out: Vec<TlvItem> = Vec::new();
    let mut pos: usize = 0;
    assert(s@.skip(0) =~= s@);
    proof {
        match parse_items(s@) {
            Some(t) => {
                assert(items_view(out@) + t =~= t);
            },
            None => {},
        }
    }
    while pos < s.len()
        invariant
            pos <= s@.len(),
            parse_items(s@) == (match parse_items(s@.skip(pos as int)) {
                Some(t) => Some(items_view(out@) + t),
                None => None,
            }),
        decreases s.len() - pos,
    {
        let ghost cur = s@.skip(pos as int);
        let (tc, n1) = match read_compact(s, pos) {
            None => {
                return None;
            },
            Some(x) => x,
        };
        let p1 = pos + n1;
        assert(cur.skip(n1 as int) =~= s@.skip(p1 as int));
        let (len, n2) = match read_compact(s, p1) {
            None => {
                return None;
            },
            Some(x) => x,
        };
        let p2 = p1 + n2;
        assert(cur.skip(n1 as int).skip(n2 as int) =~= s@.skip(p2 as int));
        if len > (s.len() - p2) as u64 {
            return None;
        }
        let end = p2 + len as usize;
        let value = vstd::slice::slice_to_vec(vstd::slice::slice_subrange(s, p2, end));
        let ghost before = out@;
        let item = TlvItem { typecode: tc, value };
        out.push(item);
        proof {
            let rest = s@.skip(p2 as int);
            assert(rest.take(len as int) =~= value@);
            assert(rest.skip(len as int) =~= s@.skip(end as int));
            assert(items_view(out@) =~= items_view(before) + seq![(tc, value@)]);
            match parse_items(s@.skip(end as int)) {
                Some(t) => {
                    assert(items_view(out@) + t =~= items_view(before) + (seq![(tc, value@)] + t));
                },
                None => {},
            }
        }
        pos = end;
    }
    proof {
        assert(s@.skip(pos as int) =~= Seq::<u8>::empty());
        assert(items_view(out@) + Seq::<(u64, Seq<u8>)>::empty() =~= items_view(out@));
    }
    Some(out)
}

} // verus!
