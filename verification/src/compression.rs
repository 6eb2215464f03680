//! Variable-byte (VByte) coding of postings: seven data bits per byte, the
//! high bit set on every byte but the last of a number.  Sorted lists are
//! delta-coded first, so small gaps take one byte each.
use vstd::prelude::*;
use crate::index::{posting_views, IndexView, InvertedIndex, PostingView};

verus! {

// ── Specification ───────────────────────────────────────────────────────

/// 128 to the power `g`.
pub open spec fn pow128(g: nat) -> nat
    decreases g,
{
    if g == 0 {
        1
    } else {
        128 * pow128((g - 1) as nat)
    }
}

/// The VByte encoding of `v`: seven-bit groups, least significant first,
/// every byte but the last carrying the continuation bit.
pub open spec fn vbyte(v: nat) -> Seq<u8>
    decreases v,
{
    if v < 128 {
        seq![v as u8]
    } else {
        seq![((v % 128) + 128) as u8] + vbyte(v / 128)
    }
}

/// What the decoder reads from `data` at `i`, the byte there being group `g`
/// of the number: the value of the groups read and the position after them.
pub open spec fn dec(data: Seq<u8>, i: int, g: nat) -> (nat, int)
    decreases data.len() - i,
{
    if i < 0 || i >= data.len() {
        (0, i)
    } else {
        let b = data[i];
        let here = ((b % 128) as nat) * pow128(g);
        if b < 128 {
            (here, i + 1)
        } else {
            let rest = dec(data, i + 1, g + 1);
            (here + rest.0, rest.1)
        }
    }
}

/// The decoder would shift a group by 32 bits or more: it meets a sixth byte
/// after five bytes with the continuation bit.
pub open spec fn dec_overflows(data: Seq<u8>, i: int, g: nat) -> bool
    decreases data.len() - i,
{
    if i < 0 || i >= data.len() {
        false
    } else if g >= 5 {
        true
    } else {
        data[i] >= 128 && dec_overflows(data, i + 1, g + 1)
    }
}

/// The number decoded from `data` at `pos` (its groups, truncated to 32 bits).
pub open spec fn dec_value(data: Seq<u8>, pos: int) -> u32 {
    (dec(data, pos, 0).0 % 0x1_0000_0000) as u32
}

/// The position after the number decoded from `data` at `pos`.
pub open spec fn dec_end(data: Seq<u8>, pos: int) -> int {
    dec(data, pos, 0).1
}

/// Gaps of a list: each element minus the one before it (the first minus 0).
pub open spec fn gap_encoding(ids: Seq<u32>) -> Seq<u8>
    decreases ids.len(),
{
    if ids.len() == 0 {
        Seq::empty()
    } else {
        let prev: int = if ids.len() > 1 {
            ids[ids.len() - 2] as int
        } else {
            0
        };
        gap_encoding(ids.drop_last()) + vbyte((ids.last() - prev) as nat)
    }
}

/// The list is sorted in non-decreasing order.
pub open spec fn non_decreasing(ids: Seq<u32>) -> bool {
    forall|i: int, j: int| 0 <= i <= j < ids.len() ==> ids[i] <= ids[j]
}

/// The compressed form of a sorted list: its length (as `u32`), then the VByte gaps.
pub open spec fn compressed(ids: Seq<u32>) -> Seq<u8> {
    vbyte((ids.len() as u32) as nat) + gap_encoding(ids)
}

/// Reads `n` gap-coded numbers from `data` at `pos`, the last one read being `prev`;
/// `None` where decoding would overflow.
pub open spec fn ids_from(data: Seq<u8>, pos: int, n: nat, prev: u32) -> Option<Seq<u32>>
    decreases n,
{
    if n == 0 {
        Some(Seq::empty())
    } else if dec_overflows(data, pos, 0) || prev + dec_value(data, pos) > u32::MAX {
        None
    } else {
        let id = (prev + dec_value(data, pos)) as u32;
        match ids_from(data, dec_end(data, pos), (n - 1) as nat, id) {
            Some(rest) => Some(seq![id] + rest),
            None => None,
        }
    }
}

/// What decompression yields for `data`; `None` where it would overflow.
pub open spec fn decompressed(data: Seq<u8>) -> Option<Seq<u32>> {
    if data.len() == 0 {
        Some(Seq::empty())
    } else if dec_overflows(data, 0, 0) {
        None
    } else {
        ids_from(data, dec_end(data, 0), dec_value(data, 0) as nat, 0)
    }
}

/// Number of seven-bit groups needed for `v`.
pub open spec fn vbyte_len(v: nat) -> nat {
    if v < 0x80 {
        1
    } else if v < 0x4000 {
        2
    } else if v < 0x20_0000 {
        3
    } else if v < 0x1000_0000 {
        4
    } else {
        5
    }
}

// ── Lemmas ──────────────────────────────────────────────────────────────

proof fn lemma_div_mod_128(v: nat)
    ensures
        v == 128 * (v / 128) + v % 128,
        v % 128 < 128,
        v >= 128 ==> v / 128 < v && v / 128 >= 1,
{
}

/// A number below 2^32 takes one byte per started group of seven bits.
pub proof fn lemma_vbyte_len(v: nat)
    requires
        v <= u32::MAX,
    ensures
        vbyte(v).len() == vbyte_len(v),
        vbyte(v).len() <= 5,
    decreases v,
{
    if v >= 128 {
        lemma_div_mod_128(v);
        lemma_vbyte_len(v / 128);
    }
}

/// Decoding the encoding of `v`, placed at `i` as group `g`, yields `v * 128^g`
/// and stops right after it.
proof fn lemma_dec_vbyte(data: Seq<u8>, i: int, g: nat, v: nat)
    requires
        0 <= i,
        i + vbyte(v).len() <= data.len(),
        data.subrange(i, i + vbyte(v).len()) == vbyte(v),
    ensures
        dec(data, i, g) == (v * pow128(g), i + vbyte(v).len()),
    decreases v,
{
    if v < 128 {
        assert(data[i] == data.subrange(i, i + 1)[0]);
    } else {
        lemma_div_mod_128(v);
        let w = v / 128;
        let b = ((v % 128) + 128) as u8;
        assert(data[i] == data.subrange(i, i + vbyte(v).len())[0]);
        assert(data[i] == b);
        assert(data.subrange(i + 1, i + 1 + vbyte(w).len()) =~= data.subrange(
            i,
            i + vbyte(v).len(),
        ).subrange(1, vbyte(v).len() as int));
        assert(vbyte(v).subrange(1, vbyte(v).len() as int) =~= vbyte(w));
        lemma_dec_vbyte(data, i + 1, g + 1, w);
        assert(b % 128 == v % 128);
        assert(pow128(g + 1) == 128 * pow128(g));
        assert((v % 128) * pow128(g) + w * (128 * pow128(g)) == v * pow128(g)) by (nonlinear_arith)
            requires
                v == 128 * w + v % 128,
        ;
    }
}

/// The encoding of `v`, placed at `i` as group `g`, is read without overflow
/// when at most five groups are involved.
proof fn lemma_vbyte_no_overflow(data: Seq<u8>, i: int, g: nat, v: nat)
    requires
        0 <= i,
        i + vbyte(v).len() <= data.len(),
        data.subrange(i, i + vbyte(v).len()) == vbyte(v),
        g + vbyte(v).len() <= 5,
    ensures
        !dec_overflows(data, i, g),
    decreases v,
{
    if v < 128 {
        assert(data[i] == data.subrange(i, i + 1)[0]);
    } else {
        lemma_div_mod_128(v);
        let w = v / 128;
        assert(data.subrange(i + 1, i + 1 + vbyte(w).len()) =~= data.subrange(
            i,
            i + vbyte(v).len(),
        ).subrange(1, vbyte(v).len() as int));
        assert(vbyte(v).subrange(1, vbyte(v).len() as int) =~= vbyte(w));
        lemma_vbyte_no_overflow(data, i + 1, g + 1, w);
    }
}

/// Decoding, at its start, the VByte encoding of a 32-bit number gives back the
/// number and the position right after its encoding, whatever follows it.
pub proof fn lemma_vbyte_roundtrip(data: Seq<u8>, pos: int, v: u32)
    requires
        0 <= pos,
        pos + vbyte(v as nat).len() <= data.len(),
        data.subrange(pos, pos + vbyte(v as nat).len()) == vbyte(v as nat),
    ensures
        !dec_overflows(data, pos, 0),
        dec_value(data, pos) == v,
        dec_end(data, pos) == pos + vbyte(v as nat).len(),
{
    lemma_vbyte_len(v as nat);
    lemma_dec_vbyte(data, pos, 0, v as nat);
    lemma_vbyte_no_overflow(data, pos, 0, v as nat);
    assert(pow128(0) == 1);
    assert(dec(data, pos, 0).0 == v as nat);
}

/// The gap encoding of a prefix is a prefix of the gap encoding.
proof fn lemma_gap_encoding_prefix(ids: Seq<u32>, k: int)
    requires
        0 <= k <= ids.len(),
    ensures
        gap_encoding(ids.take(k)).len() <= gap_encoding(ids).len(),
        gap_encoding(ids).subrange(0, gap_encoding(ids.take(k)).len() as int) == gap_encoding(
            ids.take(k),
        ),
    decreases ids.len(),
{
    if k == ids.len() {
        assert(ids.take(k) =~= ids);
    } else {
        assert(ids.drop_last().take(k) =~= ids.take(k));
        lemma_gap_encoding_prefix(ids.drop_last(), k);
        assert(gap_encoding(ids).subrange(0, gap_encoding(ids.drop_last()).len() as int)
            =~= gap_encoding(ids.drop_last()));
    }
}

/// Reading the gaps of `ids` from position `k` on, after the encoding of `ids[..k]`,
/// gives back `ids[k..]`.
proof fn lemma_ids_from_gaps(data: Seq<u8>, base: int, ids: Seq<u32>, k: int)
    requires
        non_decreasing(ids),
        0 <= k <= ids.len(),
        0 <= base,
        base + gap_encoding(ids).len() <= data.len(),
        data.subrange(base, base + gap_encoding(ids).len()) == gap_encoding(ids),
    ensures
        ids_from(
            data,
            base + gap_encoding(ids.take(k)).len(),
            (ids.len() - k) as nat,
            if k == 0 {
                0u32
            } else {
                ids[k - 1]
            },
        ) == Some(ids.subrange(k, ids.len() as int)),
    decreases ids.len() - k,
{
    if k == ids.len() {
        assert(ids.subrange(k, ids.len() as int) =~= Seq::<u32>::empty());
    } else {
        let prev: u32 = if k == 0 {
            0u32
        } else {
            ids[k - 1]
        };
        let t1 = ids.take(k + 1);
        assert(t1.drop_last() =~= ids.take(k));
        let gap = (ids[k] - prev) as nat;
        assert(gap_encoding(t1) == gap_encoding(ids.take(k)) + vbyte(gap));
        lemma_gap_encoding_prefix(ids, k + 1);
        let pos = base + gap_encoding(ids.take(k)).len();
        let lk = gap_encoding(ids.take(k)).len() as int;
        assert(data.subrange(pos, pos + vbyte(gap).len()) =~= gap_encoding(ids).subrange(
            lk,
            lk + vbyte(gap).len(),
        ));
        assert(gap_encoding(ids).subrange(lk, lk + vbyte(gap).len()) =~= gap_encoding(t1).subrange(
            lk,
            lk + vbyte(gap).len(),
        ));
        assert(gap_encoding(t1).subrange(lk, lk + vbyte(gap).len()) =~= vbyte(gap));
        assert(ids[k] >= prev);
        lemma_vbyte_roundtrip(data, pos, (ids[k] - prev) as u32);
        lemma_ids_from_gaps(data, base, ids, k + 1);
        assert(seq![ids[k]] + ids.subrange(k + 1, ids.len() as int) =~= ids.subrange(
            k,
            ids.len() as int,
        ));
    }
}

/// Decompressing the compressed form of a sorted list gives the list back
/// (for lists whose length fits in a `u32`).
pub proof fn lemma_compress_roundtrip(ids: Seq<u32>)
    requires
        non_decreasing(ids),
        ids.len() <= u32::MAX,
    ensures
        decompressed(compressed(ids)) == Some(ids),
{
    let data = compressed(ids);
    let n = (ids.len() as u32) as nat;
    let h = vbyte(n).len() as int;
    lemma_vbyte_len(n);
    assert(data.subrange(0, h) =~= vbyte(n));
    lemma_vbyte_roundtrip(data, 0, ids.len() as u32);
    assert(data.subrange(h, h + gap_encoding(ids).len()) =~= gap_encoding(ids));
    lemma_ids_from_gaps(data, h, ids, 0);
    assert(ids.take(0) =~= Seq::<u32>::empty());
    assert(ids.subrange(0, ids.len() as int) =~= ids);
}

/// The seven-bit groups of `v`, least significant first.
pub open spec fn digits(v: nat) -> Seq<u8>
    decreases v,
{
    if v < 128 {
        seq![v as u8]
    } else {
        seq![(v % 128) as u8] + digits(v / 128)
    }
}

/// Groups with the continuation bit added to all but the last.
pub open spec fn final_groups(t: Seq<u8>) -> Seq<u8> {
    Seq::new(
        t.len(),
        |i: int|
            if i < t.len() - 1 {
                (t[i] + 128) as u8
            } else {
                t[i]
            },
    )
}

proof fn lemma_digits(v: nat)
    ensures
        digits(v).len() >= 1,
        forall|t: int| 0 <= t < digits(v).len() ==> #[trigger] digits(v)[t] < 128,
        final_groups(digits(v)) == vbyte(v),
    decreases v,
{
    if v >= 128 {
        lemma_div_mod_128(v);
        lemma_digits(v / 128);
        let d = digits(v);
        assert forall|t: int| 0 <= t < d.len() implies #[trigger] d[t] < 128 by {
            if t > 0 {
                assert(d[t] == digits(v / 128)[t - 1]);
            }
        }
        assert(final_groups(d) =~= seq![((v % 128) + 128) as u8] + final_groups(digits(v / 128)));
    } else {
        assert(final_groups(digits(v)) =~= vbyte(v));
    }
}

// ── Executable coding ───────────────────────────────────────────────────

/// Encode a single u32 into VByte format, appending bytes to `out`.
pub fn vbyte_encode_u32(value: u32, out: &mut Vec<u8>)
    ensures
        final(out)@ == old(out)@ + vbyte(value as nat),
{
    if value == 0 {
        out.push(0);
        assert(vbyte(0) =~= seq![0u8]);
        return;
    }
    let mut value = value;
    let ghost orig = value as nat;
    let mut temp: Vec<u8> = Vec::new();
    while value > 0
        invariant
            orig > 0,
            value > 0 ==> temp@ + digits(value as nat) == digits(orig),
            value == 0 ==> temp@ == digits(orig),
        decreases value,
    {
        let low = (value & 0x7f) as u8;
        assert(value & 0x7f == value % 128) by (bit_vector);
        assert(value >> 7 == value / 128) by (bit_vector);
        proof {
            lemma_div_mod_128(value as nat);
            if value >= 128 {
                assert(temp@.push(low) + digits((value / 128) as nat) =~= temp@ + digits(
                    value as nat,
                ));
            } else {
                assert(temp@.push(low) =~= temp@ + digits(value as nat));
            }
        }
        temp.push(low);
        value = value >> 7;
    }
    proof {
        lemma_digits(orig);
    }
    let n = temp.len();
    let mut i: usize = 0;
    while i < n - 1
        invariant
            n == temp@.len(),
            n >= 1,
            i <= n - 1,
            temp@ == digits(orig),
            forall|t: int| 0 <= t < n ==> #[trigger] temp@[t] < 128,
            final_groups(temp@) == vbyte(orig),
            out@ == old(out)@ + final_groups(temp@).take(i as int),
        decreases n - i,
    {
        let x = temp[i];
        assert(x < 128 ==> x | 0x80 == x + 128) by (bit_vector);
        out.push(x | 0x80);
        i += 1;
        assert(out@ =~= old(out)@ + final_groups(temp@).take(i as int));
    }
    out.push(temp[n - 1]);
    assert(out@ =~= old(out)@ + final_groups(temp@));
}

/// Decode a single VByte-encoded u32 from `data` starting at `pos`.
/// Returns (decoded_value, new_pos); a position at or past the end reads as 0.
pub fn vbyte_decode_u32(data: &[u8], pos: usize) -> (r: (u32, usize))
    requires
        !dec_overflows(data@, pos as int, 0),
    ensures
        r.0 == dec_value(data@, pos as int),
        r.1 == dec_end(data@, pos as int),
{
    let mut acc: u64 = 0;
    let mut mult: u64 = 1;
    let mut g: usize = 0;
    let mut i = pos;
    let ghost total = dec(data@, pos as int, 0);
    loop
        invariant_except_break
            pos <= i,
            g <= 5,
            i - pos == g,
            mult == pow128(g as nat),
            acc < pow128(g as nat),
            !dec_overflows(data@, i as int, g as nat),
            total.0 == acc + dec(data@, i as int, g as nat).0,
            total.1 == dec(data@, i as int, g as nat).1,
        ensures
            acc == total.0,
            i == total.1,
        decreases data@.len() - i,
    {
        if i >= data.len() {
            break;
        }
        let byte = data[i];
        proof {
            assert(g < 5);
            lemma_pow128_small(g as nat);
        }
        let x = (byte & 0x7f) as u64;
        assert(byte & 0x7f == byte % 128) by (bit_vector);
        assert(byte & 0x80 == 0 <==> byte < 128) by (bit_vector);
        proof {
            assert(x * mult <= 127 * pow128(g as nat)) by (nonlinear_arith)
                requires
                    x <= 127,
                    mult == pow128(g as nat),
            ;
        }
        acc = acc + x * mult;
        i += 1;
        if byte & 0x80 == 0 {
            break;
        }
        mult = mult * 128;
        g += 1;
        proof {
            assert(pow128(g as nat) == 128 * pow128((g - 1) as nat));
        }
    }
    ((acc % 0x1_0000_0000) as u32, i)
}

proof fn lemma_pow128_small(g: nat)
    requires
        g < 5,
    ensures
        pow128(g) <= 0x1000_0000,
        pow128(g + 1) <= 0x8_0000_0000,
{
    reveal_with_fuel(pow128, 6);
}

/// Delta-encode a sorted list of doc IDs, then VByte-compress: the count first,
/// then each gap to the previous ID.
pub fn compress_doc_ids(doc_ids: &[u32]) -> (out: Vec<u8>)
    requires
        non_decreasing(doc_ids@),
    ensures
        out@ == compressed(doc_ids@),
{
    let mut out: Vec<u8> = Vec::new();
    vbyte_encode_u32(doc_ids.len() as u32, &mut out);
    let mut prev: u32 = 0;
    let mut i: usize = 0;
    assert(doc_ids@.take(0) =~= Seq::<u32>::empty());
    while i < doc_ids.len()
        invariant
            i <= doc_ids.len(),
            non_decreasing(doc_ids@),
            prev == (if i == 0 {
                0u32
            } else {
                doc_ids@[i - 1]
            }),
            out@ == vbyte((doc_ids@.len() as u32) as nat) + gap_encoding(doc_ids@.take(i as int)),
        decreases doc_ids.len() - i,
    {
        let id = doc_ids[i];
        let delta = id - prev;
        vbyte_encode_u32(delta, &mut out);
        proof {
            let t = doc_ids@.take(i + 1);
            assert(t.drop_last() =~= doc_ids@.take(i as int));
            assert(t.last() == id);
            if i > 0 {
                assert(t[t.len() - 2] == doc_ids@[i - 1]);
            }
        }
        prev = id;
        i += 1;
    }
    assert(doc_ids@.take(doc_ids@.len() as int) =~= doc_ids@);
    out
}

/// Decompress a VByte-encoded, delta-encoded list of doc IDs.
pub fn decompress_doc_ids(data: &[u8]) -> (ids: Vec<u32>)
    requires
        decompressed(data@) is Some,
    ensures
        decompressed(data@) == Some(ids@),
{
    if data.len() == 0 {
        return Vec::new();
    }
    let (count, new_pos) = vbyte_decode_u32(data, 0);
    let mut pos = new_pos;
    let mut doc_ids: Vec<u32> = Vec::new();
    let mut prev: u32 = 0;
    let mut k: u32 = 0;
    while k < count
        invariant
            k <= count,
            count == dec_value(data@, 0),
            ids_from(data@, pos as int, (count - k) as nat, prev) is Some,
            decompressed(data@) == Some(
                doc_ids@ + ids_from(data@, pos as int, (count - k) as nat, prev)->Some_0,
            ),
        decreases count - k,
    {
        let ghost rest = ids_from(data@, pos as int, (count - k) as nat, prev)->Some_0;
        let (delta, new_pos) = vbyte_decode_u32(data, pos);
        let id = prev + delta;
        proof {
            let tail = ids_from(data@, new_pos as int, (count - k - 1) as nat, id)->Some_0;
            assert(rest == seq![id] + tail);
            assert(doc_ids@ + rest =~= doc_ids@.push(id) + tail);
        }
        doc_ids.push(id);
        pos = new_pos;
        prev = id;
        k += 1;
    }
    assert(doc_ids@ + Seq::<u32>::empty() =~= doc_ids@);
    doc_ids
}

/// Compress a sorted list of positions (same coding as doc IDs).
pub fn compress_positions(positions: &[u32]) -> (out: Vec<u8>)
    requires
        non_decreasing(positions@),
    ensures
        out@ == compressed(positions@),
{
    compress_doc_ids(positions)
}

/// Decompress a list of positions.
pub fn decompress_positions(data: &[u8]) -> (ids: Vec<u32>)
    requires
        decompressed(data@) is Some,
    ensures
        decompressed(data@) == Some(ids@),
{
    decompress_doc_ids(data)
}

/// Compressed posting: stores tf + compressed positions.
#[derive(Clone, Debug)]
pub struct CompressedPosting {
    pub doc_id: u32,
    pub term_freq: u32,
    pub positions_compressed: Vec<u8>,
}

impl CompressedPosting {
    /// A posting for `doc_id` whose term frequency is the number of positions.
    pub fn from_positions(doc_id: u32, positions: &[u32]) -> (r: Self)
        requires
            non_decreasing(positions@),
        ensures
            r.doc_id == doc_id,
            r.term_freq == positions@.len() as u32,
            r.positions_compressed@ == compressed(positions@),
    {
        CompressedPosting {
            doc_id,
            term_freq: positions.len() as u32,
            positions_compressed: compress_positions(positions),
        }
    }

    /// The positions stored in this posting.
    pub fn decompress_positions(&self) -> (ids: Vec<u32>)
        requires
            decompressed(self.positions_compressed@) is Some,
        ensures
            decompressed(self.positions_compressed@) == Some(ids@),
    {
        decompress_positions(self.positions_compressed.as_slice())
    }
}

// ── Sizes of an index, plain and compressed ─────────────────────────────

/// The document ids of a postings list.
pub open spec fn posting_docs(ps: Seq<PostingView>) -> Seq<u32> {
    ps.map_values(|p: PostingView| p.0)
}

/// Bytes of a postings list stored plainly: per posting, 4 for the document,
/// 4 for the frequency and 4 per position.
pub open spec fn plain_bytes(ps: Seq<PostingView>) -> int
    decreases ps.len(),
{
    if ps.len() == 0 {
        0
    } else {
        plain_bytes(ps.drop_last()) + 8 + 4 * ps.last().2.len()
    }
}

/// Bytes of the postings stored compressed, the documents aside: per
/// posting, its compressed positions and 4 for the frequency.
pub open spec fn packed_positions_bytes(ps: Seq<PostingView>) -> int
    decreases ps.len(),
{
    if ps.len() == 0 {
        0
    } else {
        packed_positions_bytes(ps.drop_last()) + compressed(ps.last().2).len() + 4
    }
}

/// Bytes of the whole index stored plainly.
pub open spec fn index_plain_bytes(v: IndexView) -> int
    decreases v.len(),
{
    if v.len() == 0 {
        0
    } else {
        index_plain_bytes(v.drop_last()) + plain_bytes(v.last().1)
    }
}

/// Bytes of the whole index compressed: per term, its compressed document
/// ids and its compressed postings.
pub open spec fn index_packed_bytes(v: IndexView) -> int
    decreases v.len(),
{
    if v.len() == 0 {
        0
    } else {
        index_packed_bytes(v.drop_last()) + compressed(posting_docs(v.last().1)).len()
            + packed_positions_bytes(v.last().1)
    }
}

/// Every list of an index can be compressed: document ids and positions
/// are in non-decreasing order.
pub open spec fn compressible(v: IndexView) -> bool {
    forall|k: int|
        0 <= k < v.len() ==> non_decreasing(posting_docs(#[trigger] v[k].1)) && forall|i: int|
            0 <= i < v[k].1.len() ==> non_decreasing((#[trigger] v[k].1[i]).2)
}

/// A consistent index can always be compressed: its postings lists are in
/// document order and its positions increasing, so `compression_sizes`
/// gives `None` only when a size does not fit in `usize`.
pub proof fn lemma_consistent_compressible(ix: InvertedIndex)
    requires
        crate::index::consistent(ix),
    ensures
        compressible(ix@),
{
    let v = ix@;
    assert forall|k: int| 0 <= k < v.len() implies non_decreasing(posting_docs(#[trigger] v[k].1)) && forall|i: int|
        0 <= i < v[k].1.len() ==> non_decreasing((#[trigger] v[k].1[i]).2) by {
        let ds = posting_docs(v[k].1);
        assert forall|i: int, j: int| 0 <= i <= j < ds.len() implies ds[i] <= ds[j] by {
            if i < j {
                assert(v[k].1[i].0 < v[k].1[j].0);
            }
        }
        assert forall|i: int| 0 <= i < v[k].1.len() implies non_decreasing((#[trigger] v[k].1[i]).2) by {
            let p = v[k].1[i];
            assert forall|a: int, b: int| 0 <= a <= b < p.2.len() implies p.2[a] <= p.2[b] by {
                if a < b {
                    assert(p.2[a] < p.2[b]);
                }
            }
        }
    }
}

proof fn lemma_index_sizes_grow(v: IndexView, k: int)
    requires
        0 <= k <= v.len(),
    ensures
        0 <= index_plain_bytes(v.take(k)) <= index_plain_bytes(v),
        0 <= index_packed_bytes(v.take(k)) <= index_packed_bytes(v),
    decreases v.len() - k,
{
    if k < v.len() {
        lemma_index_sizes_grow(v, k + 1);
        assert(v.take(k + 1).drop_last() =~= v.take(k));
        assert(v.take(k + 1).last() == v[k]);
        lemma_index_sizes_nonneg(v.take(k));
        lemma_list_sizes_nonneg(v[k].1);
    } else {
        assert(v.take(k) =~= v);
        lemma_index_sizes_nonneg(v);
    }
}

proof fn lemma_index_sizes_nonneg(v: IndexView)
    ensures
        index_plain_bytes(v) >= 0,
        index_packed_bytes(v) >= 0,
    decreases v.len(),
{
    if v.len() > 0 {
        lemma_index_sizes_nonneg(v.drop_last());
        lemma_list_sizes_nonneg(v.last().1);
    }
}

proof fn lemma_list_sizes_grow(ps: Seq<PostingView>, i: int)
    requires
        0 <= i <= ps.len(),
    ensures
        0 <= plain_bytes(ps.take(i)) <= plain_bytes(ps),
        0 <= packed_positions_bytes(ps.take(i)) <= packed_positions_bytes(ps),
    decreases ps.len() - i,
{
    if i < ps.len() {
        lemma_list_sizes_grow(ps, i + 1);
        assert(ps.take(i + 1).drop_last() =~= ps.take(i));
        assert(ps.take(i + 1).last() == ps[i]);
        lemma_list_sizes_nonneg(ps.take(i));
    } else {
        assert(ps.take(i) =~= ps);
        lemma_list_sizes_nonneg(ps);
    }
}

proof fn lemma_list_sizes_nonneg(ps: Seq<PostingView>)
    ensures
        plain_bytes(ps) >= 0,
        packed_positions_bytes(ps) >= 0,
    decreases ps.len(),
{
    if ps.len() > 0 {
        lemma_list_sizes_nonneg(ps.drop_last());
    }
}

/// Whether `v` is in non-decreasing order.
fn is_non_decreasing(v: &[u32]) -> (r: bool)
    ensures
        r == non_decreasing(v@),
{
    let mut i: usize = 1;
    while i < v.len()
        invariant
            1 <= i,
            forall|a: int, b: int| 0 <= a <= b < i && b < v@.len() ==> v@[a] <= v@[b],
        decreases v.len() - i,
    {
        if v[i - 1] > v[i] {
            return false;
        }
        proof {
            assert forall|a: int, b: int| 0 <= a <= b < i + 1 && b < v@.len() implies v@[a] <= v@[b] by {
                if b == i && a < i {
                    assert(v@[a] <= v@[i - 1]);
                }
            }
        }
        i += 1;
    }
    true
}

/// The sizes of an index stored plainly and compressed, in bytes: the
/// figures the compression statistics compare.  `None` when a list is out
/// of order (it cannot be delta-coded) or a size does not fit in `usize`.
pub fn compression_sizes(index: &InvertedIndex) -> (r: Option<(usize, usize)>)
    ensures
        match r {
            Some((plain, packed)) => {
                &&& compressible(index@)
                &&& plain == index_plain_bytes(index@)
                &&& packed == index_packed_bytes(index@)
            },
            None => !compressible(index@) || index_plain_bytes(index@) > usize::MAX
                || index_packed_bytes(index@) > usize::MAX,
        },
{
    let ghost v = index@;
    let mut plain: usize = 0;
    let mut packed: usize = 0;
    let n = index.term_count();
    let mut k: usize = 0;
    proof {
        assert(v.take(0) =~= Seq::<(Seq<char>, Seq<PostingView>)>::empty());
    }
    while k < n
        invariant
            v == index@,
            n == v.len(),
            k <= n,
            forall|kk: int| 0 <= kk < k ==> non_decreasing(posting_docs(#[trigger] v[kk].1)) && forall|i: int|
                0 <= i < v[kk].1.len() ==> non_decreasing((#[trigger] v[kk].1[i]).2),
            plain == index_plain_bytes(v.take(k as int)),
            packed == index_packed_bytes(v.take(k as int)),
        decreases n - k,
    {
        let (_, ps) = index.entry_at(k);
        let ghost pv = v[k as int].1;
        proof {
            assert(v.take(k + 1).drop_last() =~= v.take(k as int));
            assert(v.take(k + 1).last() == v[k as int]);
            lemma_index_sizes_grow(v, k + 1);
            lemma_list_sizes_grow(pv, pv.len() as int);
            assert(pv.take(pv.len() as int) =~= pv);
        }
        let mut docs: Vec<u32> = Vec::new();
        let mut i: usize = 0;
        while i < ps.len()
            invariant
                i <= ps@.len(),
                posting_views(ps@) == pv,
                docs@ == posting_docs(pv).take(i as int),
            decreases ps.len() - i,
        {
            assert(posting_views(ps@)[i as int] == ps@[i as int]@);
            docs.push(ps[i].doc_id);
            i += 1;
            assert(docs@ =~= posting_docs(pv).take(i as int));
        }
        assert(posting_docs(pv).take(ps@.len() as int) =~= posting_docs(pv));
        if !is_non_decreasing(&docs) {
            return None;
        }
        let head = compress_doc_ids(&docs).len();
        let mut lp: usize = 0;
        let mut lq: usize = 0;
        let mut j: usize = 0;
        proof {
            assert(pv.take(0) =~= Seq::<PostingView>::empty());
        }
        while j < ps.len()
            invariant
                j <= ps@.len(),
                v == index@,
                k < v.len(),
                posting_views(ps@) == pv,
                pv == v[k as int].1,
                forall|i: int| 0 <= i < j ==> non_decreasing((#[trigger] pv[i]).2),
                head == compressed(posting_docs(pv)).len(),
                lp == plain_bytes(pv.take(j as int)),
                lq == packed_positions_bytes(pv.take(j as int)),
                plain + plain_bytes(pv) <= index_plain_bytes(v),
                packed + head + packed_positions_bytes(pv) <= index_packed_bytes(v),
            decreases ps.len() - j,
        {
            proof {
                assert(posting_views(ps@)[j as int] == ps@[j as int]@);
                assert(pv.take(j + 1).drop_last() =~= pv.take(j as int));
                assert(pv.take(j + 1).last() == pv[j as int]);
                lemma_list_sizes_grow(pv, j + 1);
            }
            let p = &ps[j];
            if !is_non_decreasing(&p.positions) {
                return None;
            }
            let c = compress_positions(&p.positions).len();
            let step_p = match p.positions.len().checked_mul(4) {
                Some(x) => x.checked_add(8),
                None => None,
            };
            let np = match step_p {
                Some(x) => lp.checked_add(x),
                None => None,
            };
            let nq = match c.checked_add(4) {
                Some(x) => lq.checked_add(x),
                None => None,
            };
            match (np, nq) {
                (Some(a), Some(b)) => {
                    lp = a;
                    lq = b;
                },
                _ => {
                    return None;
                },
            }
            j += 1;
        }
        proof {
            assert(pv.take(ps@.len() as int) =~= pv);
        }
        let np = plain.checked_add(lp);
        let nq = match packed.checked_add(head) {
            Some(x) => x.checked_add(lq),
            None => None,
        };
        match (np, nq) {
            (Some(a), Some(b)) => {
                plain = a;
                packed = b;
            },
            _ => {
                return None;
            },
        }
        k += 1;
    }
    proof {
        assert(v.take(n as int) =~= v);
    }
    Some((plain, packed))
}

} // verus!
