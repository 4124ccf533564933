//! Splitting a serialized message into fragments of `FRAGMENT_DSIZE` bytes
//! and joining received fragments back into one byte sequence.
use vstd::prelude::*;

use crate::wire::{Fragment, FRAGMENT_DSIZE};

verus! {

broadcast use vstd::seq_lib::group_to_multiset_ensures;

/// Number of fragments that a message of `len` bytes needs.
pub open spec fn chunk_count(len: int) -> int {
    (len + 127) / 128
}

/// Byte `k` of `bytes` extended with zeros.
pub open spec fn padded_byte(bytes: Seq<u8>, k: int) -> u8 {
    if k < bytes.len() {
        bytes[k]
    } else {
        0
    }
}

/// Number of payload bytes of fragment `i` of a message of `len` bytes.
pub open spec fn chunk_len(len: int, i: int) -> int {
    if len - 128 * i < 128 {
        len - 128 * i
    } else {
        128
    }
}

/// `f` is fragment number `i` of the `total` fragments of `bytes`: it holds
/// the bytes from `128 * i` on (at most 128 of them), padded with zeros.
pub open spec fn is_fragment_of(f: Fragment, bytes: Seq<u8>, i: int, total: int) -> bool {
    &&& f.fragment_index == i
    &&& f.total_n_fragments == total
    &&& f.length == chunk_len(bytes.len() as int, i)
    &&& forall|j: int| 0 <= j < 128 ==> #[trigger] f.data@[j] == padded_byte(bytes, 128 * i + j)
}

/// `frags` are the fragments of `bytes`: one per 128 bytes (the last one
/// possibly shorter), numbered in order, each knowing how many there are,
/// how many payload bytes it holds, and holding them padded with zeros.
pub open spec fn is_fragmentation_of(frags: Seq<Fragment>, bytes: Seq<u8>) -> bool {
    &&& frags.len() == chunk_count(bytes.len() as int)
    &&& forall|i: int| 0 <= i < frags.len() ==> is_fragment_of(#[trigger] frags[i], bytes, i, frags.len() as int)
}

/// The concatenation of the whole data blocks of `frags`, in order.
pub open spec fn payload(frags: Seq<Fragment>) -> Seq<u8>
    decreases frags.len(),
{
    if frags.len() == 0 {
        Seq::empty()
    } else {
        payload(frags.drop_last()) + frags.last().data@
    }
}

/// Fragments ordered by their index.
pub open spec fn sorted_by_index(frags: Seq<Fragment>) -> bool {
    forall|i: int, j: int|
        0 <= i <= j < frags.len() ==> #[trigger] frags[i].fragment_index <= #[trigger] frags[j].fragment_index
}

/// Splits `bytes` into fragments of `FRAGMENT_DSIZE` bytes.
pub fn fragment_bytes(bytes: &Vec<u8>) -> (frags: Vec<Fragment>)
    ensures
        is_fragmentation_of(frags@, bytes@),
{
    let n = bytes.len();
    let n_frag: usize = n / FRAGMENT_DSIZE + if n % FRAGMENT_DSIZE != 0 {
        1
    } else {
        0
    };
    assert(n_frag == chunk_count(n as int));
    let mut ret: Vec<Fragment> = Vec::new();
    while ret.len() < n_frag
        invariant
            n == bytes@.len(),
            n_frag == chunk_count(n as int),
            ret@.len() <= n_frag,
            forall|i: int| 0 <= i < ret@.len() ==> is_fragment_of(#[trigger] ret@[i], bytes@, i, n_frag as int),
        decreases n_frag - ret@.len(),
    {
        let idx = ret.len();
        assert(128 * idx < n);
        let start: usize = FRAGMENT_DSIZE * idx;
        let c: usize = if n - start < FRAGMENT_DSIZE {
            n - start
        } else {
            FRAGMENT_DSIZE
        };
        let mut data = [0u8; 128];
        let mut j: usize = 0;
        while j < c
            invariant
                c <= 128,
                start + c <= n,
                n == bytes@.len(),
                data@.len() == 128,
                j <= c,
                forall|q: int| 0 <= q < j ==> data@[q] == bytes@[start + q],
                forall|q: int| j <= q < 128 ==> data@[q] == 0,
            decreases c - j,
        {
            data[j] = bytes[start + j];
            j += 1;
        }
        ret.push(
            Fragment {
                fragment_index: idx as u64,
                total_n_fragments: n_frag as u64,
                length: c as u8,
                data,
            },
        );
        proof {
            let i = idx as int;
            assert forall|q: int| 0 <= q < 128 implies #[trigger] ret@[i].data@[q] == padded_byte(bytes@, 128 * i + q) by {
                if q < c {
                } else {
                    assert(start + q >= n);
                }
            }
        }
    }
    assert(ret@.len() == n_frag);
    ret
}

/// The whole data blocks of `frags`, one after the other.
pub fn defragment_bytes(frags: &Vec<Fragment>) -> (msg: Vec<u8>)
    ensures
        msg@ == payload(frags@),
{
    let mut msg: Vec<u8> = Vec::new();
    let mut i: usize = 0;
    while i < frags.len()
        invariant
            i <= frags@.len(),
            msg@ == payload(frags@.take(i as int)),
        decreases frags@.len() - i,
    {
        let f = frags[i];
        let ghost before = msg@;
        let mut j: usize = 0;
        while j < FRAGMENT_DSIZE
            invariant
                j <= 128,
                msg@ == before + f.data@.take(j as int),
            decreases 128 - j,
        {
            msg.push(f.data[j]);
            j += 1;
            assert(msg@ =~= before + f.data@.take(j as int));
        }
        assert(f.data@.take(128) =~= f.data@);
        assert(frags@.take(i + 1).drop_last() =~= frags@.take(i as int));
        i += 1;
    }
    assert(frags@.take(frags@.len() as int) =~= frags@);
    msg
}

/// Orders `frags` by fragment index, keeping the same fragments.
pub fn sort_fragments(frags: &mut Vec<Fragment>)
    ensures
        sorted_by_index(final(frags)@),
        final(frags)@.to_multiset() == old(frags)@.to_multiset(),
        final(frags)@.len() == old(frags)@.len(),
{
    let mut out: Vec<Fragment> = Vec::new();
    let mut i: usize = 0;
    while i < frags.len()
        invariant
            i <= frags@.len(),
            sorted_by_index(out@),
            out@.to_multiset() == frags@.take(i as int).to_multiset(),
            out@.len() == i,
        decreases frags@.len() - i,
    {
        let f = frags[i];
        let mut p = out.len();
        while p > 0 && out[p - 1].fragment_index > f.fragment_index
            invariant
                p <= out@.len(),
                sorted_by_index(out@),
                forall|q: int| p <= q < out@.len() ==> #[trigger] out@[q].fragment_index > f.fragment_index,
            decreases p,
        {
            p -= 1;
        }
        let ghost prev = out@;
        out.insert(p, f);
        proof {
            assert(out@ == prev.insert(p as int, f));
            assert forall|a: int, b: int| 0 <= a <= b < out@.len() implies #[trigger] out@[a].fragment_index
                <= #[trigger] out@[b].fragment_index by {
                if p > 0 {
                    assert(prev[p - 1].fragment_index <= f.fragment_index);
                }
                if a < p && b < p {
                    assert(out@[a] == prev[a] && out@[b] == prev[b]);
                } else if a < p && b == p {
                    assert(prev[a].fragment_index <= prev[p - 1].fragment_index);
                } else if a < p {
                    assert(out@[a] == prev[a] && out@[b] == prev[b - 1]);
                } else if a == p && b > p {
                    assert(out@[b] == prev[b - 1]);
                } else if a > p {
                    assert(out@[a] == prev[a - 1] && out@[b] == prev[b - 1]);
                }
            }
            assert(frags@.take(i + 1) =~= frags@.take(i as int).push(f));
        }
        i += 1;
    }
    assert(frags@.take(frags@.len() as int) =~= frags@);
    *frags = out;
}

/// Each position of the payload holds the byte of the matching fragment.
pub proof fn lemma_payload_index(frags: Seq<Fragment>)
    ensures
        payload(frags).len() == 128 * frags.len(),
        forall|k: int|
            0 <= k < 128 * frags.len() ==> #[trigger] payload(frags)[k] == frags[k / 128].data@[k % 128],
    decreases frags.len(),
{
    if frags.len() > 0 {
        let init = frags.drop_last();
        lemma_payload_index(init);
        assert forall|k: int| 0 <= k < 128 * frags.len() implies #[trigger] payload(frags)[k]
            == frags[k / 128].data@[k % 128] by {
            if k < 128 * init.len() {
                assert(payload(frags)[k] == payload(init)[k]);
                assert(k / 128 < init.len());
                assert(init[k / 128] == frags[k / 128]);
            } else {
                let r = k - 128 * init.len();
                assert(payload(frags)[k] == frags.last().data@[r]);
                assert(k / 128 == init.len() && k % 128 == r);
            }
        }
    }
}

/// Joining the fragments of a message gives the message back, padded with
/// zeros up to a whole number of fragments.
pub proof fn lemma_defragment_fragment(bytes: Seq<u8>, frags: Seq<Fragment>)
    requires
        is_fragmentation_of(frags, bytes),
    ensures
        payload(frags) == bytes + Seq::new((128 * chunk_count(bytes.len() as int) - bytes.len()) as nat, |i: int| 0u8),
        bytes.len() <= 128 * chunk_count(bytes.len() as int) < bytes.len() + 128,
{
    let len = bytes.len() as int;
    lemma_payload_index(frags);
    let zeros = Seq::new((128 * chunk_count(len) - len) as nat, |i: int| 0u8);
    let expected = bytes + zeros;
    assert forall|k: int| 0 <= k < 128 * frags.len() implies #[trigger] payload(frags)[k] == expected[k] by {
        let i = k / 128;
        let j = k % 128;
        assert(0 <= i < frags.len());
        assert(is_fragment_of(frags[i], bytes, i, frags.len() as int));
        assert(frags[i].data@[j] == padded_byte(bytes, 128 * i + j));
        assert(128 * i + j == k);
    }
    assert(payload(frags) =~= expected);
}

} // verus!
