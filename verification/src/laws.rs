//! What holds of the model, proved once for every key and every input.

use vstd::prelude::*;
use std::convert::Infallible;
use crate::data::RC4DataStream;
use crate::mem::MemReader;
use crate::model::{
    State, advance, cipher, concat, identity, initial_state, is_permutation, keystream, mask,
    mask_parts, schedule, step, swap,
};
use crate::reader::Reader;

verus! {

/// The identity table is a permutation.
pub proof fn lemma_identity_is_permutation()
    ensures
        is_permutation(identity()),
{
    let s = identity();
    assert forall|v: u8| #[trigger] s.contains(v) by {
        assert(s[v as int] == v);
    }
}

/// Exchanging two entries of a permutation gives a permutation.
pub proof fn lemma_swap_keeps_permutation(s: Seq<u8>, a: int, b: int)
    requires
        is_permutation(s),
        0 <= a < 256,
        0 <= b < 256,
    ensures
        is_permutation(swap(s, a, b)),
{
    let t = swap(s, a, b);
    assert forall|v: u8| #[trigger] t.contains(v) by {
        assert(s.contains(v));
        let k = choose|k: int| 0 <= k < s.len() && s[k] == v;
        if k == a {
            assert(t[b] == v);
        } else if k == b {
            assert(t[a] == v);
        } else {
            assert(t[k] == v);
        }
    }
}

/// The key schedule leaves a permutation after every round.
pub proof fn lemma_schedule_is_permutation(key: Seq<u8>, rounds: nat)
    requires
        rounds <= 256,
    ensures
        is_permutation(schedule(key, rounds).0),
    decreases rounds,
{
    if rounds == 0 {
        lemma_identity_is_permutation();
    } else {
        let p = (rounds - 1) as nat;
        lemma_schedule_is_permutation(key, p);
        let (s, j) = schedule(key, p);
        lemma_swap_keeps_permutation(s, p as int, schedule(key, rounds).1 as int);
    }
}

/// Producing a byte leaves the table a permutation.
pub proof fn lemma_step_keeps_permutation(st: State)
    requires
        is_permutation(st.perm),
    ensures
        is_permutation(step(st).perm),
{
    let next = step(st);
    lemma_swap_keeps_permutation(st.perm, next.i as int, next.j as int);
}

/// Producing any number of bytes leaves the table a permutation.
pub proof fn lemma_advance_keeps_permutation(st: State, n: nat)
    requires
        is_permutation(st.perm),
    ensures
        is_permutation(advance(st, n).perm),
    decreases n,
{
    if n > 0 {
        lemma_advance_keeps_permutation(st, (n - 1) as nat);
        lemma_step_keeps_permutation(advance(st, (n - 1) as nat));
    }
}

/// The table is a permutation once the key schedule has run, and it stays
/// one however many bytes are produced afterwards.
pub proof fn lemma_table_is_always_permutation(key: Seq<u8>, n: nat)
    ensures
        is_permutation(advance(initial_state(key), n).perm),
{
    lemma_schedule_is_permutation(key, 256);
    lemma_advance_keeps_permutation(initial_state(key), n);
}

/// Two keys that hold the same bytes give the same keystream, byte for
/// byte and however long, and leave their generators in the same state.
pub proof fn lemma_keystream_is_determined_by_key(k1: Seq<u8>, k2: Seq<u8>, n: nat)
    requires
        k1.len() == k2.len(),
        forall|p: int| 0 <= p < k1.len() ==> k1[p] == k2[p],
    ensures
        keystream(initial_state(k1), n) == keystream(initial_state(k2), n),
        advance(initial_state(k1), n) == advance(initial_state(k2), n),
{
    assert(k1 =~= k2);
}

/// Producing `a` bytes and then `b` more leaves the state that producing
/// `a + b` bytes at once leaves.
pub proof fn lemma_advance_split(st: State, a: nat, b: nat)
    ensures
        advance(advance(st, a), b) == advance(st, a + b),
    decreases b,
{
    if b > 0 {
        lemma_advance_split(st, a, (b - 1) as nat);
        assert(a + b - 1 == a + (b - 1));
    }
}

/// The keystream does not depend on how it is cut into requests: `a` bytes
/// followed by the next `b` bytes are the `a + b` bytes asked for at once.
pub proof fn lemma_keystream_split(st: State, a: nat, b: nat)
    ensures
        keystream(st, a + b) == keystream(st, a) + keystream(advance(st, a), b),
{
    let whole = keystream(st, a + b);
    let parts = keystream(st, a) + keystream(advance(st, a), b);
    assert forall|k: int| 0 <= k < a + b implies whole[k] == parts[k] by {
        if k >= a {
            lemma_advance_split(st, a, (k - a + 1) as nat);
            assert(a + (k - a + 1) == k + 1);
        }
    }
    assert(whole =~= parts);
}

/// Masking two pieces one after the other gives what masking them as one
/// piece gives.
pub proof fn lemma_mask_split(st: State, d1: Seq<u8>, d2: Seq<u8>)
    ensures
        mask(d1 + d2, keystream(st, d1.len() + d2.len())) == mask(d1, keystream(st, d1.len()))
            + mask(d2, keystream(advance(st, d1.len()), d2.len())),
{
    lemma_keystream_split(st, d1.len(), d2.len());
    assert(mask(d1 + d2, keystream(st, d1.len() + d2.len())) =~= mask(d1, keystream(st, d1.len()))
        + mask(d2, keystream(advance(st, d1.len()), d2.len())));
}

/// A reader may deliver its bytes in parts of any lengths, over any number
/// of calls: what comes out of the cipher is what comes out when all the
/// bytes are delivered at once. The keystream is used up by the bytes, not by the
/// calls.
pub proof fn lemma_partial_reads(st: State, parts: Seq<Seq<u8>>)
    ensures
        mask_parts(st, parts) == mask(concat(parts), keystream(st, concat(parts).len())),
    decreases parts.len(),
{
    if parts.len() == 0 {
        assert(mask(concat(parts), keystream(st, concat(parts).len())) =~= Seq::<u8>::empty());
    } else {
        lemma_partial_reads(st, parts.drop_last());
        lemma_mask_split(st, concat(parts.drop_last()), parts.last());
    }
}

/// Masking twice with the same keystream gives the data back.
pub proof fn lemma_mask_twice(data: Seq<u8>, ks: Seq<u8>)
    ensures
        mask(mask(data, ks), ks) == data,
{
    assert forall|k: int| 0 <= k < data.len() implies mask(mask(data, ks), ks)[k] == data[k] by {
        if k < ks.len() {
            let d = data[k];
            let x = ks[k];
            assert((d ^ x) ^ x == d) by (bit_vector);
        }
    }
    assert(mask(mask(data, ks), ks) =~= data);
}

/// Deciphering under the key that enciphered gives the data back.
pub proof fn lemma_cipher_round_trip(key: Seq<u8>, data: Seq<u8>)
    requires
        key.len() > 0,
    ensures
        cipher(key, cipher(key, data)) == data,
{
    lemma_mask_twice(data, keystream(initial_state(key), data.len()));
}

/// A cipher reader over a cipher reader, both at the same place in the same
/// keystream, delivers what the reader underneath both delivers, and the two
/// stay at the same place.
pub proof fn lemma_nested_read_round_trip<R: Reader>(
    pre: RC4DataStream<RC4DataStream<R>>,
    post: RC4DataStream<RC4DataStream<R>>,
    before: Seq<u8>,
    after: Seq<u8>,
    res: Result<usize, R::Error>,
)
    requires
        pre.raw() == pre.data().raw(),
        RC4DataStream::<RC4DataStream<R>>::reads(pre, post, before, after, res),
    ensures
        R::reads(pre.data().data(), post.data().data(), before, after, res),
        post.raw() == post.data().raw(),
{
    match res {
        Ok(n) => {
            let ks = keystream(pre.raw(), n as nat);
            let mid = choose|mid: Seq<u8>|
                #[trigger] RC4DataStream::<R>::reads(pre.data(), post.data(), before, mid, res)
                    && after == mask(mid, ks);
            let low = choose|low: Seq<u8>|
                #[trigger] R::reads(pre.data().data(), post.data().data(), before, low, res)
                    && mid == mask(low, ks);
            lemma_mask_twice(low, ks);
        },
        Err(_) => {},
    }
}

/// A cipher reader fresh from `key` over the bytes `data` in memory fills a
/// buffer that can take them all with `cipher(key, data)`.
pub proof fn lemma_read_from_memory(
    key: Seq<u8>,
    data: Seq<u8>,
    pre: RC4DataStream<MemReader>,
    post: RC4DataStream<MemReader>,
    before: Seq<u8>,
    after: Seq<u8>,
    res: Result<usize, Infallible>,
)
    requires
        pre.raw() == initial_state(key),
        pre.data()@ == data,
        data.len() <= before.len() <= usize::MAX,
        RC4DataStream::<MemReader>::reads(pre, post, before, after, res),
    ensures
        res == Ok::<usize, Infallible>(data.len() as usize),
        after.take(data.len() as int) == cipher(key, data),
        after.skip(data.len() as int) == before.skip(data.len() as int),
        post.data()@.len() == 0,
{
    match res {
        Ok(n) => {
            let ks = keystream(pre.raw(), n as nat);
            let mid = choose|mid: Seq<u8>|
                #[trigger] MemReader::reads(pre.data(), post.data(), before, mid, res) && after
                    == mask(mid, ks);
            assert(mid.take(data.len() as int) =~= data);
            assert(after.take(data.len() as int) =~= cipher(key, data));
            assert(after.skip(data.len() as int) =~= before.skip(data.len() as int));
        },
        Err(_) => {},
    }
}

} // verus!
