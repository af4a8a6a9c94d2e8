//! The weights file: the four bytes `CNN1`, then every weight of every
//! parameter blob, in order, as the little-endian bytes of its bit pattern.
use vstd::prelude::*;

verus! {

/// The file's first four bytes, `CNN1`.
pub open spec fn magic() -> Seq<u8> {
    seq![0x43u8, 0x4eu8, 0x4eu8, 0x31u8]
}

/// The four little-endian bytes of a word.
pub open spec fn le_bytes(x: u32) -> Seq<u8> {
    seq![
        (x % 0x100) as u8,
        ((x / 0x100) % 0x100) as u8,
        ((x / 0x1_0000) % 0x100) as u8,
        (x / 0x100_0000) as u8,
    ]
}

/// The word whose little-endian bytes start at position `p` of `b`.
pub open spec fn le_word(b: Seq<u8>, p: int) -> u32 {
    (b[p] as int + b[p + 1] as int * 0x100 + b[p + 2] as int * 0x1_0000 + b[p + 3] as int
        * 0x100_0000) as u32
}

/// The bytes of a sequence of words, word after word.
pub open spec fn words_bytes(ws: Seq<u32>) -> Seq<u8>
    decreases ws.len(),
{
    if ws.len() == 0 {
        Seq::empty()
    } else {
        words_bytes(ws.drop_last()) + le_bytes(ws.last())
    }
}

/// The bytes of a sequence of blobs, blob after blob.
pub open spec fn blobs_bytes(bs: Seq<Seq<u32>>) -> Seq<u8>
    decreases bs.len(),
{
    if bs.len() == 0 {
        Seq::empty()
    } else {
        blobs_bytes(bs.drop_last()) + words_bytes(bs.last())
    }
}

/// The whole file that holds the blobs `bs`.
pub open spec fn encoding(bs: Seq<Seq<u32>>) -> Seq<u8> {
    magic() + blobs_bytes(bs)
}

/// The sum of a sequence of sizes.
pub open spec fn total(sizes: Seq<usize>) -> int
    decreases sizes.len(),
{
    if sizes.len() == 0 {
        0
    } else {
        total(sizes.drop_last()) + sizes.last()
    }
}

/// What a file holds when read as blobs of the given sizes: `None` unless it
/// starts with `CNN1` and then holds exactly four bytes per weight.
pub open spec fn decoding(bytes: Seq<u8>, sizes: Seq<usize>) -> Option<Seq<Seq<u32>>> {
    if bytes.len() >= 4 && bytes.subrange(0, 4) == magic() && bytes.len() - 4 == 4 * total(sizes) {
        Some(
            Seq::new(
                sizes.len(),
                |i: int|
                    Seq::new(
                        sizes[i] as nat,
                        |j: int| le_word(bytes, 4 + 4 * (total(sizes.take(i)) + j)),
                    ),
            ),
        )
    } else {
        None
    }
}

/// The contents of a vector of blobs.
pub open spec fn blobs_view(v: Seq<Vec<u32>>) -> Seq<Seq<u32>> {
    Seq::new(v.len(), |i: int| v[i]@)
}

/// The sizes of a sequence of blobs.
pub open spec fn blob_sizes(bs: Seq<Seq<u32>>) -> Seq<usize> {
    Seq::new(bs.len(), |i: int| bs[i].len() as usize)
}

proof fn lemma_le_roundtrip(x: u32)
    ensures
        le_word(le_bytes(x), 0) == x,
{
    assert((x % 0x100) + ((x / 0x100) % 0x100) * 0x100 + ((x / 0x1_0000) % 0x100) * 0x1_0000 + (x
        / 0x100_0000) * 0x100_0000 == x) by (bit_vector);
}

proof fn lemma_total_nonneg(sizes: Seq<usize>)
    ensures
        total(sizes) >= 0,
    decreases sizes.len(),
{
    if sizes.len() > 0 {
        lemma_total_nonneg(sizes.drop_last());
    }
}

proof fn lemma_total_step(sizes: Seq<usize>, i: int)
    requires
        0 <= i < sizes.len(),
    ensures
        total(sizes.take(i + 1)) == total(sizes.take(i)) + sizes[i],
{
    assert(sizes.take(i + 1).drop_last() =~= sizes.take(i));
}

proof fn lemma_total_prefix_bound(sizes: Seq<usize>, i: int)
    requires
        0 <= i <= sizes.len(),
    ensures
        0 <= total(sizes.take(i)) <= total(sizes),
    decreases sizes.len() - i,
{
    lemma_total_nonneg(sizes.take(i));
    if i < sizes.len() {
        lemma_total_step(sizes, i);
        lemma_total_prefix_bound(sizes, i + 1);
    } else {
        assert(sizes.take(i) =~= sizes);
    }
}

proof fn lemma_words_bytes(ws: Seq<u32>)
    ensures
        words_bytes(ws).len() == 4 * ws.len(),
        forall|j: int, r: int|
            0 <= j < ws.len() && 0 <= r < 4 ==> #[trigger] words_bytes(ws)[4 * j + r] == le_bytes(
                ws[j],
            )[r],
    decreases ws.len(),
{
    if ws.len() > 0 {
        let init = ws.drop_last();
        lemma_words_bytes(init);
        assert forall|j: int, r: int| 0 <= j < ws.len() && 0 <= r < 4 implies #[trigger] words_bytes(
            ws,
        )[4 * j + r] == le_bytes(ws[j])[r] by {
            if j < init.len() {
                assert(words_bytes(init)[4 * j + r] == le_bytes(init[j])[r]);
            }
        }
    }
}

proof fn lemma_blobs_bytes(bs: Seq<Seq<u32>>)
    requires
        forall|i: int| 0 <= i < bs.len() ==> #[trigger] bs[i].len() <= usize::MAX,
    ensures
        blobs_bytes(bs).len() == 4 * total(blob_sizes(bs)),
        forall|i: int, j: int, r: int|
            0 <= i < bs.len() && 0 <= j < bs[i].len() && 0 <= r < 4 ==> #[trigger] blobs_bytes(
                bs,
            )[4 * (total(blob_sizes(bs).take(i)) + j) + r] == le_bytes(bs[i][j])[r],
    decreases bs.len(),
{
    if bs.len() > 0 {
        let init = bs.drop_last();
        let last = bs.last();
        lemma_blobs_bytes(init);
        lemma_words_bytes(last);
        assert(blob_sizes(bs).drop_last() =~= blob_sizes(init));
        assert(blobs_bytes(bs) == blobs_bytes(init) + words_bytes(last));
        assert forall|i: int, j: int, r: int|
            0 <= i < bs.len() && 0 <= j < bs[i].len() && 0 <= r < 4 implies #[trigger] blobs_bytes(
            bs,
        )[4 * (total(blob_sizes(bs).take(i)) + j) + r] == le_bytes(bs[i][j])[r] by {
            let si = blob_sizes(init);
            if i < init.len() {
                assert(blob_sizes(bs).take(i) =~= si.take(i));
                lemma_total_prefix_bound(si, i + 1);
                lemma_total_nonneg(si.take(i));
                lemma_total_step(si, i);
                assert(init[i] == bs[i]);
                assert(si[i] == init[i].len());
                let q: int = total(si.take(i)) + j;
                assert(q < total(si));
                assert(4 * q + r < blobs_bytes(init).len());
                assert(blobs_bytes(init)[4 * q + r] == le_bytes(init[i][j])[r]);
                assert(blobs_bytes(bs)[4 * q + r] == blobs_bytes(init)[4 * q + r]);
            } else {
                assert(blob_sizes(bs).take(i) =~= si);
                let q: int = total(si) + j;
                assert(4 * q + r == blobs_bytes(init).len() + 4 * j + r);
                assert(words_bytes(last)[4 * j + r] == le_bytes(last[j])[r]);
                assert(blobs_bytes(bs)[4 * q + r] == words_bytes(last)[4 * j + r]);
            }
        }
    }
}

/// Reading a file back with the sizes of the blobs that were written gives
/// back exactly those blobs.
pub proof fn lemma_decoding_inverts_encoding(bs: Seq<Seq<u32>>)
    requires
        forall|i: int| 0 <= i < bs.len() ==> #[trigger] bs[i].len() <= usize::MAX,
    ensures
        decoding(encoding(bs), blob_sizes(bs)) == Some(bs),
{
    let e = encoding(bs);
    let sizes = blob_sizes(bs);
    lemma_blobs_bytes(bs);
    assert(e.subrange(0, 4) =~= magic());
    let d = Seq::new(
        sizes.len(),
        |i: int| Seq::new(sizes[i] as nat, |j: int| le_word(e, 4 + 4 * (total(sizes.take(i)) + j))),
    );
    assert forall|i: int| 0 <= i < bs.len() implies #[trigger] d[i] == bs[i] by {
        assert forall|j: int| 0 <= j < bs[i].len() implies #[trigger] d[i][j] == bs[i][j] by {
            let p: int = 4 * (total(sizes.take(i)) + j);
            lemma_total_prefix_bound(sizes, i + 1);
            lemma_total_nonneg(sizes.take(i));
            lemma_total_step(sizes, i);
            assert(sizes[i] == bs[i].len());
            assert(p + 3 < blobs_bytes(bs).len());
            assert(blobs_bytes(bs)[p + 0] == le_bytes(bs[i][j])[0]);
            assert(blobs_bytes(bs)[p + 1] == le_bytes(bs[i][j])[1]);
            assert(blobs_bytes(bs)[p + 2] == le_bytes(bs[i][j])[2]);
            assert(blobs_bytes(bs)[p + 3] == le_bytes(bs[i][j])[3]);
            lemma_le_roundtrip(bs[i][j]);
        }
        assert(d[i] =~= bs[i]);
    }
    assert(d =~= bs);
}

/// The file of blobs `bs` is `CNN1`, then the blobs in the order given: word
/// `j` of blob `i` is the little-endian word at byte
/// `4 + 4 * (number of words in blobs 0 .. i + j)`, and nothing follows.
pub proof fn lemma_encoding_layout(bs: Seq<Seq<u32>>)
    requires
        forall|i: int| 0 <= i < bs.len() ==> #[trigger] bs[i].len() <= usize::MAX,
    ensures
        encoding(bs).len() == 4 + 4 * total(blob_sizes(bs)),
        encoding(bs)[0] == 0x43u8,
        encoding(bs)[1] == 0x4eu8,
        encoding(bs)[2] == 0x4eu8,
        encoding(bs)[3] == 0x31u8,
        forall|i: int, j: int|
            0 <= i < bs.len() && 0 <= j < bs[i].len() ==> le_word(
                encoding(bs),
                4 + 4 * (total(blob_sizes(bs).take(i)) + j),
            ) == #[trigger] bs[i][j],
{
    let e = encoding(bs);
    let sizes = blob_sizes(bs);
    lemma_blobs_bytes(bs);
    assert forall|i: int, j: int| 0 <= i < bs.len() && 0 <= j < bs[i].len() implies le_word(
        e,
        4 + 4 * (total(sizes.take(i)) + j),
    ) == #[trigger] bs[i][j] by {
        let p: int = 4 * (total(sizes.take(i)) + j);
        lemma_total_prefix_bound(sizes, i + 1);
        lemma_total_nonneg(sizes.take(i));
        lemma_total_step(sizes, i);
        assert(sizes[i] == bs[i].len());
        assert(p + 3 < blobs_bytes(bs).len());
        assert(blobs_bytes(bs)[p + 0] == le_bytes(bs[i][j])[0]);
        assert(blobs_bytes(bs)[p + 1] == le_bytes(bs[i][j])[1]);
        assert(blobs_bytes(bs)[p + 2] == le_bytes(bs[i][j])[2]);
        assert(blobs_bytes(bs)[p + 3] == le_bytes(bs[i][j])[3]);
        lemma_le_roundtrip(bs[i][j]);
    }
}

/// A file is read as blobs of the given sizes exactly when it starts with
/// `CNN1` and then holds four bytes per weight; blob `i` then takes the
/// `sizes[i]` words that follow the words of blobs `0 .. i`, in order.
pub proof fn lemma_decoding_layout(bytes: Seq<u8>, sizes: Seq<usize>)
    ensures
        decoding(bytes, sizes) is Some <==> (bytes.len() >= 4 && bytes[0] == 0x43u8 && bytes[1]
            == 0x4eu8 && bytes[2] == 0x4eu8 && bytes[3] == 0x31u8 && bytes.len() - 4 == 4 * total(
            sizes,
        )),
        decoding(bytes, sizes) matches Some(d) ==> {
            &&& d.len() == sizes.len()
            &&& forall|i: int| 0 <= i < sizes.len() ==> (#[trigger] d[i]).len() == sizes[i]
            &&& forall|i: int, j: int|
                0 <= i < sizes.len() && 0 <= j < sizes[i] ==> #[trigger] d[i][j] == le_word(
                    bytes,
                    4 + 4 * (total(sizes.take(i)) + j),
                )
        },
{
    if bytes.len() >= 4 {
        let m = bytes.subrange(0, 4);
        if m == magic() {
            assert(m[0] == bytes[0] && m[1] == bytes[1] && m[2] == bytes[2] && m[3] == bytes[3]);
        }
        if bytes[0] == 0x43u8 && bytes[1] == 0x4eu8 && bytes[2] == 0x4eu8 && bytes[3] == 0x31u8 {
            assert(m =~= magic());
        }
    }
}

fn push_word(out: &mut Vec<u8>, x: u32)
    ensures
        final(out)@ == old(out)@ + le_bytes(x),
{
    out.push((x % 0x100) as u8);
    out.push(((x / 0x100) % 0x100) as u8);
    out.push(((x / 0x1_0000) % 0x100) as u8);
    out.push((x / 0x100_0000) as u8);
    assert(final(out)@ =~= old(out)@ + le_bytes(x));
}

/// The file that holds `blobs`: `CNN1`, then every weight's little-endian bytes.
pub fn encode(blobs: &Vec<Vec<u32>>) -> (out: Vec<u8>)
    ensures
        out@ == encoding(blobs_view(blobs@)),
        out@.len() == 4 + 4 * total(blob_sizes(blobs_view(blobs@))),
        out@[0] == 0x43u8,
        out@[1] == 0x4eu8,
        out@[2] == 0x4eu8,
        out@[3] == 0x31u8,
        forall|i: int, j: int|
            0 <= i < blobs@.len() && 0 <= j < blobs@[i]@.len() ==> le_word(
                out@,
                4 + 4 * (total(blob_sizes(blobs_view(blobs@)).take(i)) + j),
            ) == #[trigger] blobs@[i]@[j],
{
    let ghost bv = blobs_view(blobs@);
    let mut out: Vec<u8> = Vec::new();
    out.push(0x43u8);
    out.push(0x4eu8);
    out.push(0x4eu8);
    out.push(0x31u8);
    assert(out@ =~= magic() + blobs_bytes(bv.take(0)));
    let mut b: usize = 0;
    while b < blobs.len()
        invariant
            bv == blobs_view(blobs@),
            b <= blobs@.len(),
            forall|k: int| 0 <= k < b ==> #[trigger] bv[k].len() <= usize::MAX,
            out@ == magic() + blobs_bytes(bv.take(b as int)),
        decreases blobs@.len() - b,
    {
        let blob: &Vec<u32> = &blobs[b];
        let blen: usize = blob.len();
        let ghost before = out@;
        assert(words_bytes(blob@.take(0)) =~= Seq::<u8>::empty());
        assert(out@ =~= before + words_bytes(blob@.take(0)));
        let mut i: usize = 0;
        while i < blob.len()
            invariant
                i <= blob@.len(),
                out@ == before + words_bytes(blob@.take(i as int)),
            decreases blob@.len() - i,
        {
            push_word(&mut out, blob[i]);
            assert(blob@.take(i + 1).drop_last() =~= blob@.take(i as int));
            assert(out@ =~= before + words_bytes(blob@.take(i + 1)));
            i = i + 1;
        }
        assert(blob@.take(i as int) =~= blob@);
        assert(bv.take(b + 1).drop_last() =~= bv.take(b as int));
        assert(bv.take(b + 1).last() == blob@);
        assert(out@ =~= magic() + blobs_bytes(bv.take(b + 1)));
        b = b + 1;
    }
    assert(bv.take(b as int) =~= bv);
    proof {
        lemma_encoding_layout(bv);
        assert forall|i: int, j: int|
            0 <= i < blobs@.len() && 0 <= j < blobs@[i]@.len() implies le_word(
                out@,
                4 + 4 * (total(blob_sizes(bv).take(i)) + j),
            ) == #[trigger] blobs@[i]@[j] by {
            assert(bv[i][j] == blobs@[i]@[j]);
        }
    }
    out
}

fn read_word(bytes: &[u8], p: usize) -> (x: u32)
    requires
        p + 4 <= bytes@.len(),
    ensures
        x == le_word(bytes@, p as int),
{
    (bytes[p] as u32) + (bytes[p + 1] as u32) * 0x100 + (bytes[p + 2] as u32) * 0x1_0000 + (bytes[p
        + 3] as u32) * 0x100_0000
}

/// Reads a file as blobs of the given sizes; `None` when it does not start
/// with `CNN1` or does not hold exactly four bytes per weight.
pub fn decode(bytes: &[u8], sizes: &[usize]) -> (r: Option<Vec<Vec<u32>>>)
    ensures
        match r {
            Some(v) => decoding(bytes@, sizes@) == Some(blobs_view(v@)),
            None => decoding(bytes@, sizes@) is None,
        },
        r is Some <==> (bytes@.len() >= 4 && bytes@[0] == 0x43u8 && bytes@[1] == 0x4eu8 && bytes@[2]
            == 0x4eu8 && bytes@[3] == 0x31u8 && bytes@.len() - 4 == 4 * total(sizes@)),
        r matches Some(v) ==> {
            &&& v@.len() == sizes@.len()
            &&& forall|i: int| 0 <= i < sizes@.len() ==> (#[trigger] v@[i])@.len() == sizes@[i]
            &&& forall|i: int, j: int|
                0 <= i < sizes@.len() && 0 <= j < sizes@[i] ==> #[trigger] v@[i]@[j] == le_word(
                    bytes@,
                    4 + 4 * (total(sizes@.take(i)) + j),
                )
        },
{
    proof {
        lemma_decoding_layout(bytes@, sizes@);
    }
    if bytes.len() < 4 || bytes[0] != 0x43u8 || bytes[1] != 0x4eu8 || bytes[2] != 0x4eu8 || bytes[3]
        != 0x31u8 {
        proof {
            if bytes@.len() >= 4 {
                assert(bytes@.subrange(0, 4)[0] == bytes@[0]);
                assert(bytes@.subrange(0, 4)[1] == bytes@[1]);
                assert(bytes@.subrange(0, 4)[2] == bytes@[2]);
                assert(bytes@.subrange(0, 4)[3] == bytes@[3]);
            }
        }
        return None;
    }
    assert(bytes@.subrange(0, 4) =~= magic());
    let len: usize = bytes.len();
    let mut t: usize = 0;
    let mut i: usize = 0;
    while i < sizes.len()
        invariant
            len == bytes@.len(),
            i <= sizes@.len(),
            t == total(sizes@.take(i as int)),
        decreases sizes@.len() - i,
    {
        proof {
            lemma_total_step(sizes@, i as int);
        }
        match t.checked_add(sizes[i]) {
            Some(s) => {
                t = s;
            },
            None => {
                proof {
                    lemma_total_prefix_bound(sizes@, i + 1);
                    assert(bytes@.len() - 4 != 4 * total(sizes@));
                }
                return None;
            },
        }
        i = i + 1;
    }
    assert(sizes@.take(i as int) =~= sizes@);
    let need: usize = match t.checked_mul(4) {
        Some(m) => m,
        None => {
            return None;
        },
    };
    if bytes.len() - 4 != need {
        return None;
    }
    let ghost d = decoding(bytes@, sizes@).unwrap();
    let mut out: Vec<Vec<u32>> = Vec::new();
    let mut off: usize = 4;
    let mut b: usize = 0;
    while b < sizes.len()
        invariant
            d == decoding(bytes@, sizes@).unwrap(),
            decoding(bytes@, sizes@) is Some,
            bytes@.len() == 4 + 4 * total(sizes@),
            bytes@.len() <= usize::MAX,
            b <= sizes@.len(),
            out@.len() == b,
            off == 4 + 4 * total(sizes@.take(b as int)),
            forall|k: int| 0 <= k < b ==> #[trigger] out@[k]@ == d[k],
        decreases sizes@.len() - b,
    {
        let n: usize = sizes[b];
        proof {
            lemma_total_step(sizes@, b as int);
            lemma_total_prefix_bound(sizes@, b + 1);
            lemma_total_nonneg(sizes@.take(b as int));
        }
        let mut blob: Vec<u32> = Vec::new();
        let mut j: usize = 0;
        while j < n
            invariant
                d == decoding(bytes@, sizes@).unwrap(),
                decoding(bytes@, sizes@) is Some,
                bytes@.len() == 4 + 4 * total(sizes@),
                bytes@.len() <= usize::MAX,
                b < sizes@.len(),
                n == sizes@[b as int],
                total(sizes@.take(b + 1)) == total(sizes@.take(b as int)) + n,
                total(sizes@.take(b + 1)) <= total(sizes@),
                total(sizes@.take(b as int)) >= 0,
                j <= n,
                off == 4 + 4 * (total(sizes@.take(b as int)) + j),
                blob@.len() == j,
                forall|jj: int| 0 <= jj < j ==> #[trigger] blob@[jj] == d[b as int][jj],
            decreases n - j,
        {
            let x: u32 = read_word(bytes, off);
            blob.push(x);
            off = off + 4;
            j = j + 1;
        }
        assert(blob@ =~= d[b as int]);
        out.push(blob);
        b = b + 1;
    }
    assert(blobs_view(out@) =~= d);
    Some(out)
}

} // verus!
