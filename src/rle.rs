//! Run-length codec: a byte stream as `(value, count)` pairs.
use vstd::prelude::*;

verus! {

/// Largest count that one pair holds; longer runs are split.
pub const RLE_MAX: u8 = 254;

#[derive(Debug, Clone, Copy, PartialEq, Eq, Structural)]
pub enum DecodeError {
    /// The encoded stream does not consist of whole pairs.
    MalformedStream,
}

/// `n` copies of `v`.
pub open spec fn repeat(v: u8, n: nat) -> Seq<u8> {
    Seq::new(n, |_i: int| v)
}

/// The bytes that a stream of `(value, count)` pairs stands for.
pub open spec fn rle_expand(e: Seq<u8>) -> Seq<u8>
    decreases e.len(),
{
    if e.len() < 2 {
        Seq::empty()
    } else {
        rle_expand(e.take(e.len() - 2)) + repeat(e[e.len() - 2], e[e.len() - 1] as nat)
    }
}

/// Every count lies in `1..=RLE_MAX`, and a pair is followed by a pair of the same value only
/// when its count is `RLE_MAX`: the pairs stand for maximal runs, split at the cap.
pub open spec fn canonical_pairs(e: Seq<u8>) -> bool {
    &&& e.len() % 2 == 0
    &&& forall|k: int| 0 <= k < e.len() / 2 ==> 1 <= #[trigger] e[2 * k + 1] <= RLE_MAX
    &&& forall|k: int|
        0 <= k && k + 1 < e.len() / 2 ==> e[2 * k] != #[trigger] e[2 * k + 2] || e[2 * k + 1]
            == RLE_MAX
}

/// `e` is the run-length encoding of `data`.
pub open spec fn is_run_encoding(e: Seq<u8>, data: Seq<u8>) -> bool {
    canonical_pairs(e) && rle_expand(e) == data
}

proof fn lemma_expand_push(e: Seq<u8>, v: u8, c: u8)
    ensures
        rle_expand(e + seq![v, c]) == rle_expand(e) + repeat(v, c as nat),
{
    let f = e + seq![v, c];
    assert(f.take(f.len() - 2) =~= e);
}

proof fn lemma_repeat_push(v: u8, n: nat)
    ensures
        repeat(v, n + 1) == repeat(v, n).push(v),
{
    assert(repeat(v, n + 1) =~= repeat(v, n).push(v));
}

proof fn lemma_canonical_push(e: Seq<u8>, v: u8)
    requires
        canonical_pairs(e),
        e.len() >= 2,
        e[e.len() - 2] != v || e[e.len() - 1] == RLE_MAX,
    ensures
        canonical_pairs(e + seq![v, 1u8]),
{
    let f = e + seq![v, 1u8];
    assert forall|k: int| 0 <= k < f.len() / 2 implies 1 <= #[trigger] f[2 * k + 1] <= RLE_MAX by {
        if k < e.len() / 2 {
            assert(f[2 * k + 1] == e[2 * k + 1]);
        }
    }
    assert forall|k: int| 0 <= k && k + 1 < f.len() / 2 implies f[2 * k] != #[trigger] f[2 * k
        + 2] || f[2 * k + 1] == RLE_MAX by {
        if k + 1 < e.len() / 2 {
            assert(f[2 * k] == e[2 * k] && f[2 * k + 1] == e[2 * k + 1] && f[2 * k + 2] == e[2 * k
                + 2]);
        } else {
            assert(2 * k == e.len() - 2);
        }
    }
}

proof fn lemma_canonical_bump(e: Seq<u8>)
    requires
        canonical_pairs(e),
        e.len() >= 2,
        e[e.len() - 1] < RLE_MAX,
    ensures
        canonical_pairs(e.update(e.len() - 1, (e[e.len() - 1] + 1) as u8)),
{
    let f = e.update(e.len() - 1, (e[e.len() - 1] + 1) as u8);
    assert forall|k: int| 0 <= k < f.len() / 2 implies 1 <= #[trigger] f[2 * k + 1] <= RLE_MAX by {
        assert(e[2 * k + 1] >= 1);
    }
    assert forall|k: int| 0 <= k && k + 1 < f.len() / 2 implies f[2 * k] != #[trigger] f[2 * k
        + 2] || f[2 * k + 1] == RLE_MAX by {
        assert(e[2 * k] != e[2 * k + 2] || e[2 * k + 1] == RLE_MAX);
    }
}

/// The greedy run-length encoding of `data`: each byte extends the last pair when it has the
/// same value and a count below the cap, and starts a new pair otherwise.
pub open spec fn rle_encoding(data: Seq<u8>) -> Seq<u8>
    decreases data.len(),
{
    if data.len() == 0 {
        Seq::empty()
    } else {
        let e = rle_encoding(data.drop_last());
        let v = data.last();
        if e.len() >= 2 && e[e.len() - 2] == v && e[e.len() - 1] < RLE_MAX {
            e.update(e.len() - 1, (e[e.len() - 1] + 1) as u8)
        } else {
            e + seq![v, 1u8]
        }
    }
}

/// The greedy encoding is a run-length encoding: canonical pairs that expand to the data.
pub proof fn lemma_rle_encoding_valid(data: Seq<u8>)
    ensures
        is_run_encoding(rle_encoding(data), data),
        data.len() > 0 ==> rle_encoding(data).len() >= 2,
    decreases data.len(),
{
    if data.len() == 0 {
        assert(rle_expand(Seq::<u8>::empty()) =~= data);
    } else {
        let d = data.drop_last();
        lemma_rle_encoding_valid(d);
        let e = rle_encoding(d);
        let v = data.last();
        assert(data =~= d.push(v));
        if e.len() >= 2 && e[e.len() - 2] == v && e[e.len() - 1] < RLE_MAX {
            let c = e[e.len() - 1];
            let base = e.take(e.len() - 2);
            assert(e =~= base + seq![v, c]);
            lemma_expand_push(base, v, c);
            lemma_expand_push(base, v, (c + 1) as u8);
            lemma_repeat_push(v, c as nat);
            lemma_canonical_bump(e);
            assert(e.update(e.len() - 1, (c + 1) as u8) =~= base + seq![v, (c + 1) as u8]);
            assert(rle_expand(base) + repeat(v, c as nat).push(v) =~= (rle_expand(base) + repeat(
                v,
                c as nat,
            )).push(v));
            assert(rle_expand(rle_encoding(data)) == data);
            assert(canonical_pairs(rle_encoding(data)));
        } else {
            lemma_expand_push(e, v, 1u8);
            assert(repeat(v, 1) =~= seq![v]);
            if e.len() >= 2 {
                lemma_canonical_push(e, v);
            } else {
                assert(e.len() == 0);
                assert(e + seq![v, 1u8] =~= seq![v, 1u8]);
            }
            assert(rle_expand(e + seq![v, 1u8]) =~= data);
            assert(rle_expand(rle_encoding(data)) == data);
            assert(canonical_pairs(rle_encoding(data)));
        }
    }
}

/// The run-length encoding of `data`: one `(value, count)` pair per run, with runs longer
/// than `RLE_MAX` split; empty input gives empty output.
pub fn run_length_encode(data: &[u8]) -> (r: Vec<u8>)
    ensures
        r@ == rle_encoding(data@),
        is_run_encoding(r@, data@),
{
    proof {
        lemma_rle_encoding_valid(data@);
    }
    let mut encoded: Vec<u8> = Vec::new();
    if data.len() == 0 {
        return encoded;
    }
    let mut current: u8 = data[0];
    let mut count: u8 = 1;
    proof {
        let t = data@.take(1);
        assert(t.drop_last() =~= Seq::<u8>::empty());
        assert(encoded@ + seq![current, count] =~= seq![current, count]);
        assert(rle_encoding(Seq::<u8>::empty()) == Seq::<u8>::empty());
        assert(rle_encoding(t) =~= seq![current, count]);
    }
    let mut i: usize = 1;
    while i < data.len()
        invariant
            1 <= i <= data@.len(),
            1 <= count <= RLE_MAX,
            encoded@ + seq![current, count] == rle_encoding(data@.take(i as int)),
        decreases data@.len() - i,
    {
        let byte = data[i];
        let ghost old_e = encoded@ + seq![current, count];
        proof {
            assert(data@.take(i + 1).drop_last() =~= data@.take(i as int));
        }
        if byte == current {
            if count == RLE_MAX {
                encoded.push(current);
                encoded.push(count);
                count = 0;
                proof {
                    assert(encoded@ =~= old_e);
                }
            } else {
                proof {
                    assert(old_e.update(old_e.len() - 1, (count + 1) as u8) =~= encoded@ + seq![
                        current,
                        (count + 1) as u8,
                    ]);
                }
            }
            count += 1;
        } else {
            encoded.push(current);
            encoded.push(count);
            current = byte;
            count = 1;
            proof {
                assert(encoded@ =~= old_e);
            }
        }
        i += 1;
    }
    let ghost last = encoded@ + seq![current, count];
    encoded.push(current);
    encoded.push(count);
    proof {
        assert(encoded@ =~= last);
        assert(data@.take(data@.len() as int) =~= data@);
    }
    encoded
}

/// Expands `(value, count)` pairs; a stream that is not a whole number of pairs is malformed.
pub fn run_length_decode(data: &[u8]) -> (r: Result<Vec<u8>, DecodeError>)
    ensures
        match r {
            Ok(v) => data@.len() % 2 == 0 && v@ == rle_expand(data@),
            Err(e) => data@.len() % 2 == 1 && e == DecodeError::MalformedStream,
        },
{
    if data.len() % 2 != 0 {
        return Err(DecodeError::MalformedStream);
    }
    let mut decoded: Vec<u8> = Vec::new();
    let pairs = data.len() / 2;
    let mut k: usize = 0;
    while k < pairs
        invariant
            data@.len() == 2 * pairs,
            data.len() == 2 * pairs,
            k <= pairs,
            decoded@ == rle_expand(data@.take(2 * k)),
        decreases pairs - k,
    {
        let value = data[2 * k];
        let count = data[2 * k + 1];
        let ghost base = decoded@;
        let mut j: u8 = 0;
        while j < count
            invariant
                j <= count,
                decoded@ == base + repeat(value, j as nat),
            decreases count - j,
        {
            decoded.push(value);
            proof {
                lemma_repeat_push(value, j as nat);
                assert(decoded@ =~= base + repeat(value, (j + 1) as nat));
            }
            j += 1;
        }
        proof {
            let t = data@.take(2 * (k + 1));
            assert(t.take(t.len() - 2) =~= data@.take(2 * k));
            assert(t[t.len() - 2] == value && t[t.len() - 1] == count);
        }
        k += 1;
    }
    assert(data@.take(2 * k) =~= data@);
    Ok(decoded)
}

/// Decoding the encoding of any bytes accepts it, as a whole number of pairs, and gives the
/// bytes back.
pub proof fn lemma_rle_round_trip(data: Seq<u8>)
    ensures
        rle_encoding(data).len() % 2 == 0,
        rle_expand(rle_encoding(data)) == data,
{
    lemma_rle_encoding_valid(data);
}

} // verus!
