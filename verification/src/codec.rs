//! The index-addressed proof wire format.
//!
//! A proof blob is a 4-byte little-endian entry count `N`, then `N` 33-byte
//! little-endian tree indices, then `N` 32-byte chunks in the same order.
//! Decoding rejects, with a typed error, every buffer whose length does not
//! match its declared count.

use vstd::prelude::*;

verus! {

use crate::chunk::H256;
use crate::error::Error;
use crate::u264::{U264, le_value, le_bytes, p2, lemma_le_bytes_len, lemma_le_bytes_value,
    lemma_le_value_bound, lemma_p2_le, lemma_p2_64_val, write_le_bytes};

/// The concatenation of the encoded indices of an entry list.
pub open spec fn cat_indices(ev: Seq<(Seq<u8>, Seq<u8>)>) -> Seq<u8>
    decreases ev.len(),
{
    if ev.len() == 0 {
        Seq::<u8>::empty()
    } else {
        ev[0].0 + cat_indices(ev.drop_first())
    }
}

/// The concatenation of the chunks of an entry list.
pub open spec fn cat_chunks(ev: Seq<(Seq<u8>, Seq<u8>)>) -> Seq<u8>
    decreases ev.len(),
{
    if ev.len() == 0 {
        Seq::<u8>::empty()
    } else {
        ev[0].1 + cat_chunks(ev.drop_first())
    }
}

/// A well-formed entry list: 33-byte indices, 32-byte chunks.
pub open spec fn entries_wf(ev: Seq<(Seq<u8>, Seq<u8>)>) -> bool {
    forall|j: int| 0 <= j < ev.len() ==> (#[trigger] ev[j]).0.len() == 33 && ev[j].1.len() == 32
}

/// The byte image of an entry list.
pub open spec fn encode_spec(ev: Seq<(Seq<u8>, Seq<u8>)>) -> Seq<u8> {
    le_bytes(ev.len(), 4) + cat_indices(ev) + cat_chunks(ev)
}

/// The entry list a byte string declares, if its length is consistent.
pub open spec fn decode_spec(b: Seq<u8>) -> Option<Seq<(Seq<u8>, Seq<u8>)>> {
    if b.len() < 4 {
        None
    } else {
        let n = le_value(b.subrange(0, 4));
        if b.len() != 4 + 65 * n {
            None
        } else {
            Some(
                Seq::new(
                    n,
                    |i: int|
                        (
                            b.subrange(4 + 33 * i, 4 + 33 * i + 33),
                            b.subrange(4 + 33 * n + 32 * i, 4 + 33 * n + 32 * i + 32),
                        ),
                ),
            )
        }
    }
}

/// The view of an entry vector.
pub open spec fn view_entries(es: Seq<(U264, H256)>) -> Seq<(Seq<u8>, Seq<u8>)> {
    es.map_values(|e: (U264, H256)| (e.0@, e.1@))
}

proof fn lemma_cat_lens(ev: Seq<(Seq<u8>, Seq<u8>)>)
    requires
        entries_wf(ev),
    ensures
        cat_indices(ev).len() == 33 * ev.len(),
        cat_chunks(ev).len() == 32 * ev.len(),
    decreases ev.len(),
{
    if ev.len() > 0 {
        assert(entries_wf(ev.drop_first())) by {
            assert(forall|j: int|
                0 <= j < ev.drop_first().len() ==> #[trigger] ev.drop_first()[j] == ev[j + 1]);
        };
        lemma_cat_lens(ev.drop_first());
    }
}

proof fn lemma_cat_extract(ev: Seq<(Seq<u8>, Seq<u8>)>, i: int)
    requires
        entries_wf(ev),
        0 <= i < ev.len(),
    ensures
        cat_indices(ev).subrange(33 * i, 33 * i + 33) == ev[i].0,
        cat_chunks(ev).subrange(32 * i, 32 * i + 32) == ev[i].1,
    decreases ev.len(),
{
    lemma_cat_lens(ev);
    assert(entries_wf(ev.drop_first())) by {
        assert(forall|j: int|
            0 <= j < ev.drop_first().len() ==> #[trigger] ev.drop_first()[j] == ev[j + 1]);
    };
    if i == 0 {
        assert(cat_indices(ev).subrange(0, 33) =~= ev[0].0);
        assert(cat_chunks(ev).subrange(0, 32) =~= ev[0].1);
    } else {
        lemma_cat_extract(ev.drop_first(), i - 1);
        lemma_cat_lens(ev.drop_first());
        assert(cat_indices(ev).subrange(33 * i, 33 * i + 33) =~= cat_indices(
            ev.drop_first(),
        ).subrange(33 * (i - 1), 33 * (i - 1) + 33));
        assert(cat_chunks(ev).subrange(32 * i, 32 * i + 32) =~= cat_chunks(
            ev.drop_first(),
        ).subrange(32 * (i - 1), 32 * (i - 1) + 32));
        assert(ev.drop_first()[i - 1] == ev[i]);
    }
}

proof fn lemma_cat_push(ev: Seq<(Seq<u8>, Seq<u8>)>, e: (Seq<u8>, Seq<u8>))
    ensures
        cat_indices(ev.push(e)) == cat_indices(ev) + e.0,
        cat_chunks(ev.push(e)) == cat_chunks(ev) + e.1,
    decreases ev.len(),
{
    if ev.len() == 0 {
        assert(ev.push(e).drop_first() =~= Seq::<(Seq<u8>, Seq<u8>)>::empty());
        assert(ev.push(e)[0] == e);
        assert(cat_indices(Seq::<(Seq<u8>, Seq<u8>)>::empty()) =~= Seq::<u8>::empty());
        assert(cat_chunks(Seq::<(Seq<u8>, Seq<u8>)>::empty()) =~= Seq::<u8>::empty());
        assert(cat_indices(ev.push(e)) =~= cat_indices(ev) + e.0);
        assert(cat_chunks(ev.push(e)) =~= cat_chunks(ev) + e.1);
    } else {
        assert(ev.push(e).drop_first() =~= ev.drop_first().push(e));
        lemma_cat_push(ev.drop_first(), e);
        assert(ev.push(e)[0] == ev[0]);
        assert(cat_indices(ev.push(e)) =~= cat_indices(ev) + e.0);
        assert(cat_chunks(ev.push(e)) =~= cat_chunks(ev) + e.1);
    }
}

/// Round trip: decoding the encoding of any well-formed entry list yields
/// exactly that list.
pub proof fn lemma_codec_round_trip(ev: Seq<(Seq<u8>, Seq<u8>)>)
    requires
        entries_wf(ev),
        ev.len() <= u32::MAX,
    ensures
        decode_spec(encode_spec(ev)) == Some(ev),
{
    let b = encode_spec(ev);
    let n = ev.len();
    lemma_le_bytes_len(n, 4);
    lemma_cat_lens(ev);
    assert(p2(32) <= p2(64)) by {
        lemma_p2_le(32, 64);
    };
    lemma_p2_64_val();
    assert(p2(32) == 0x1_0000_0000) by {
        crate::u264::lemma_p2_256();
        crate::u264::lemma_p2_adds(8, 8);
        assert(p2(16) == 0x1_0000) by (nonlinear_arith)
            requires p2(16) == p2(8) * p2(8), p2(8) == 256;
        crate::u264::lemma_p2_adds(16, 16);
        assert(p2(32) == 0x1_0000_0000) by (nonlinear_arith)
            requires p2(32) == p2(16) * p2(16), p2(16) == 0x1_0000;
    };
    lemma_le_bytes_value(n, 4);
    assert(b.subrange(0, 4) =~= le_bytes(n, 4));
    assert(b.len() == 4 + 65 * n);
    assert(le_value(b.subrange(0, 4)) == n);
    let dec = decode_spec(b)->Some_0;
    assert forall|i: int| 0 <= i < n implies dec[i] == ev[i] by {
        lemma_cat_extract(ev, i);
        assert(b.subrange(4 + 33 * i, 4 + 33 * i + 33) =~= cat_indices(ev).subrange(
            33 * i,
            33 * i + 33,
        ));
        assert(b.subrange(4 + 33 * (n as int) + 32 * i, 4 + 33 * (n as int) + 32 * i + 32)
            =~= cat_chunks(ev).subrange(32 * i, 32 * i + 32));
    }
    assert(dec =~= ev);
}

/// Encodes an entry list into the wire format.
pub fn encode(entries: &Vec<(U264, H256)>) -> (r: Vec<u8>)
    requires
        entries@.len() <= u32::MAX,
    ensures
        r@ == encode_spec(view_entries(entries@)),
{
    let n = entries.len();
    let mut out: Vec<u8> = write_le_bytes(n as u64, 4);
    let ghost ev = view_entries(entries@);
    proof {
        assert(le_bytes(entries@.len() as nat, 4) == le_bytes(n as u64 as nat, 4));
        assert(ev.len() == entries@.len());
        assert(view_entries(entries@.take(0)) =~= Seq::<(Seq<u8>, Seq<u8>)>::empty());
        assert(out@ =~= le_bytes(ev.len(), 4) + cat_indices(view_entries(entries@.take(0))));
    }
    let mut i: usize = 0;
    while i < n
        invariant
            i <= n,
            n == entries@.len(),
            ev == view_entries(entries@),
            out@ == le_bytes(ev.len(), 4) + cat_indices(view_entries(entries@.take(i as int))),
        decreases n - i,
    {
        let ghost pre = out@;
        let bytes = entries[i].0.to_bytes();
        let mut j: usize = 0;
        while j < 33
            invariant
                j <= 33,
                bytes@.len() == 33,
                out@ == pre + bytes@.take(j as int),
            decreases 33 - j,
        {
            out.push(bytes[j]);
            proof {
                assert(pre + bytes@.take(j + 1) =~= (pre + bytes@.take(j as int)).push(
                    bytes@[j as int],
                ));
            }
            j = j + 1;
        }
        proof {
            assert(bytes@.take(33) =~= bytes@);
            assert(view_entries(entries@.take(i + 1)) =~= view_entries(
                entries@.take(i as int),
            ).push((entries@[i as int].0@, entries@[i as int].1@)));
            lemma_cat_push(view_entries(entries@.take(i as int)), (entries@[i as int].0@,
                entries@[i as int].1@));
            assert(out@ =~= le_bytes(ev.len(), 4) + cat_indices(view_entries(entries@.take(i
                + 1))));
        }
        i = i + 1;
    }
    proof {
        assert(entries@.take(n as int) =~= entries@);
    }
    let ghost mid = out@;
    let mut i: usize = 0;
    while i < n
        invariant
            i <= n,
            n == entries@.len(),
            ev == view_entries(entries@),
            mid == le_bytes(ev.len(), 4) + cat_indices(ev),
            out@ == mid + cat_chunks(view_entries(entries@.take(i as int))),
        decreases n - i,
    {
        proof {
            if i == 0 {
                assert(view_entries(entries@.take(0)) =~= Seq::<(Seq<u8>, Seq<u8>)>::empty());
                assert(mid + cat_chunks(view_entries(entries@.take(0))) =~= mid);
            }
        }
        let ghost pre = out@;
        let bytes = entries[i].1.as_bytes();
        let mut j: usize = 0;
        while j < 32
            invariant
                j <= 32,
                bytes@.len() == 32,
                bytes@ == entries@[i as int].1@,
                out@ == pre + bytes@.take(j as int),
            decreases 32 - j,
        {
            out.push(bytes[j]);
            proof {
                assert(pre + bytes@.take(j + 1) =~= (pre + bytes@.take(j as int)).push(
                    bytes@[j as int],
                ));
            }
            j = j + 1;
        }
        proof {
            assert(bytes@.take(32) =~= bytes@);
            assert(view_entries(entries@.take(i + 1)) =~= view_entries(
                entries@.take(i as int),
            ).push((entries@[i as int].0@, entries@[i as int].1@)));
            lemma_cat_push(view_entries(entries@.take(i as int)), (entries@[i as int].0@,
                entries@[i as int].1@));
            assert(out@ =~= mid + cat_chunks(view_entries(entries@.take(i + 1))));
        }
        i = i + 1;
    }
    proof {
        assert(entries@.take(n as int) =~= entries@);
        assert(out@ =~= encode_spec(ev));
    }
    out
}

/// Decodes a wire-format blob, rejecting every length inconsistency.
pub fn decode(bytes: &[u8]) -> (r: Result<Vec<(U264, H256)>, Error>)
    ensures
        match r {
            Ok(es) => decode_spec(bytes@) == Some(view_entries(es@)),
            Err(e) => e == Error::MalformedProof && decode_spec(bytes@) is None,
        },
{
    let blen = bytes.len();
    if blen < 4 {
        return Err(Error::MalformedProof);
    }
    let mut nacc: u64 = 0;
    let mut k: usize = 4;
    proof {
        assert(bytes@.subrange(0, 4).skip(4) =~= Seq::<u8>::empty());
    }
    while k > 0
        invariant
            bytes@.len() >= 4,
            bytes@.len() == blen,
            k <= 4,
            nacc == le_value(bytes@.subrange(0, 4).skip(k as int)),
            nacc < p2((8 * (4 - k)) as nat),
        decreases k,
    {
        let ghost hdr = bytes@.subrange(0, 4);
        proof {
            crate::u264::lemma_p2_256();
            crate::u264::lemma_p2_adds((8 * (4 - k)) as nat, 8);
            assert(nacc * 256 + 256 <= p2((8 * (4 - k) + 8) as nat)) by (nonlinear_arith)
                requires
                    nacc < p2((8 * (4 - k)) as nat),
                    p2((8 * (4 - k) + 8) as nat) == p2((8 * (4 - k)) as nat) * 256;
            assert(p2((8 * (4 - k) + 8) as nat) <= p2(64)) by {
                lemma_p2_le((8 * (4 - k) + 8) as nat, 64);
            };
            lemma_p2_64_val();
            assert(hdr.skip(k - 1).drop_first() =~= hdr.skip(k as int));
            assert(hdr.skip(k - 1)[0] == hdr[k - 1]);
            assert(hdr[k - 1] == bytes@[k - 1]);
        }
        nacc = nacc * 256 + (bytes[k - 1] as u64);
        k = k - 1;
    }
    proof {
        assert(bytes@.subrange(0, 4).skip(0) =~= bytes@.subrange(0, 4));
    }
    let n = nacc;
    let expected: u64 = match (65u64).checked_mul(n) {
        Some(x) => match x.checked_add(4) {
            Some(y) => y,
            None => {
                return Err(Error::MalformedProof);
            },
        },
        None => {
            return Err(Error::MalformedProof);
        },
    };
    proof {
        assert(blen <= usize::MAX);
        assert(usize::MAX <= u64::MAX);
    }
    if (blen as u64) != expected {
        return Err(Error::MalformedProof);
    }
    let nu = n as usize;
    let ghost dec = decode_spec(bytes@)->Some_0;
    let mut es: Vec<(U264, H256)> = Vec::new();
    let mut i: usize = 0;
    while i < nu
        invariant
            i <= nu,
            nu == n,
            bytes@.len() == 4 + 65 * n,
            dec == decode_spec(bytes@)->Some_0,
            decode_spec(bytes@) is Some,
            dec.len() == n,
            es@.len() == i,
            bytes@.len() <= usize::MAX,
            forall|j: int| 0 <= j < i ==> view_entries(es@)[j] == dec[j],
        decreases nu - i,
    {
        proof {
            assert(33 * (i + 1) <= 33 * (n as int)) by (nonlinear_arith)
                requires i + 1 <= n as int;
            assert(32 * (i + 1) <= 32 * (n as int)) by (nonlinear_arith)
                requires i + 1 <= n as int;
            assert(33 * (n as int) + 32 * (n as int) == 65 * (n as int));
        }
        let istart = 4 + 33 * i;
        let idx_slice = vstd::slice::slice_subrange(bytes, istart, istart + 33);
        let idx = U264::from_bytes(vstd::slice::slice_to_vec(idx_slice));
        let cstart = 4 + 33 * nu + 32 * i;
        let chunk_slice = vstd::slice::slice_subrange(bytes, cstart, cstart + 32);
        let chunk = H256::from_slice(chunk_slice);
        es.push((idx, chunk));
        proof {
            assert(view_entries(es@) =~= view_entries(es@.take(i as int)).push((idx@, chunk@)));
            assert(forall|j: int|
                0 <= j < i ==> #[trigger] view_entries(es@)[j] == view_entries(
                    es@.take(i as int),
                )[j]);
        }
        i = i + 1;
    }
    proof {
        assert(view_entries(es@) =~= dec);
    }
    Ok(es)
}

} // verus!
