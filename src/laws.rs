use vstd::prelude::*;

use crate::decoder::{
    decode_from, decode_result, initial_state, is_run, lemma_decode_from_done,
    lemma_decode_from_len, lemma_decode_from_short, lemma_decode_from_step, run_length, step,
    stops, transparent_black, DecodeState,
};
use crate::header::{header_of, DecodeError, Qoi, QOI_HEADER_SIZE, QOI_PADDING};
use crate::pixel::{color_hash, Rgba};

verus! {

/// Reading a header is a function of the bytes alone: two calls on the same
/// bytes give the same description, and so do two inputs that share their
/// first `QOI_HEADER_SIZE` bytes.
pub proof fn header_parse_is_deterministic(a: Seq<u8>, b: Seq<u8>)
    requires
        a == b || (a.len() >= QOI_HEADER_SIZE && b.len() >= QOI_HEADER_SIZE && a.subrange(
            0,
            QOI_HEADER_SIZE as int,
        ) == b.subrange(0, QOI_HEADER_SIZE as int)),
    ensures
        header_of(a) == header_of(b),
{
    if a != b {
        assert forall|i: int| 0 <= i < QOI_HEADER_SIZE implies a[i] == b[i] by {
            assert(a[i] == a.subrange(0, QOI_HEADER_SIZE as int)[i]);
        }
    }
}

/// A run that ends exactly on the last pixel completes the image; a run that
/// would go past it fails with `OutputIsTooSmall`.
pub proof fn run_at_tail(bytes: Seq<u8>, n: int, s: DecodeState)
    requires
        !stops(bytes, n, s),
        is_run(bytes[s.pos]),
    ensures
        s.out.len() + run_length(bytes[s.pos]) == n ==> decode_from(bytes, n, s) == Ok::<
            Seq<Rgba>,
            DecodeError,
        >(s.out + Seq::new(run_length(bytes[s.pos]) as nat, |i: int| s.px)),
        s.out.len() + run_length(bytes[s.pos]) > n ==> decode_from(bytes, n, s) == Err::<
            Seq<Rgba>,
            DecodeError,
        >(DecodeError::OutputIsTooSmall),
{
    lemma_decode_from_step(bytes, n, s);
    if let Ok(t) = step(bytes, n, s) {
        if t.out.len() >= n {
            lemma_decode_from_done(bytes, n, t);
        }
    }
}

/// The decoder's state after `k` tokens of an image of `n` pixels, starting
/// from the initial state; `None` where it stopped or failed before that.
pub open spec fn state_after(bytes: Seq<u8>, n: int, k: nat) -> Option<DecodeState>
    decreases k,
{
    if k == 0 {
        Some(initial_state())
    } else {
        match state_after(bytes, n, (k - 1) as nat) {
            Some(s) => if stops(bytes, n, s) {
                None
            } else {
                match step(bytes, n, s) {
                    Ok(t) => Some(t),
                    Err(_) => None,
                }
            },
            None => None,
        }
    }
}

/// The most recent pixel of `stored` whose hash is `slot`, or transparent
/// black where there is none.
pub open spec fn last_stored(stored: Seq<Rgba>, slot: int) -> Rgba
    decreases stored.len(),
{
    if stored.len() == 0 {
        transparent_black()
    } else if color_hash(stored.last()) == slot {
        stored.last()
    } else {
        last_stored(stored.drop_last(), slot)
    }
}

/// Every cache slot holds the last pixel stored with that slot's hash.
pub open spec fn cache_consistent(s: DecodeState) -> bool {
    &&& s.index.len() == 64
    &&& forall|slot: int| 0 <= slot < 64 ==> #[trigger] s.index[slot] == last_stored(s.stored, slot)
}

/// In every state the decoder reaches, each cache slot holds the most recent
/// pixel stored with its hash, or transparent black if no such pixel was stored.
pub proof fn cache_holds_last_stored(bytes: Seq<u8>, n: int, k: nat)
    ensures
        state_after(bytes, n, k) matches Some(s) ==> cache_consistent(s),
    decreases k,
{
    if k > 0 {
        cache_holds_last_stored(bytes, n, (k - 1) as nat);
        if let Some(s) = state_after(bytes, n, (k - 1) as nat) {
            if !stops(bytes, n, s) && !is_run(bytes[s.pos]) {
                if let Ok(t) = step(bytes, n, s) {
                    assert(t.stored.drop_last() =~= s.stored);
                }
            }
        }
    }
}

/// A cache lookup of a slot that no earlier token stored a pixel into yields
/// transparent black, which is then decoded like any other pixel.
pub proof fn lookup_of_unwritten_slot(bytes: Seq<u8>, n: int, k: nat, s: DecodeState)
    requires
        state_after(bytes, n, k) == Some(s),
        !stops(bytes, n, s),
        bytes[s.pos] < 64,
        forall|j: int| 0 <= j < s.stored.len() ==> color_hash(#[trigger] s.stored[j]) != bytes[s.pos],
    ensures
        step(bytes, n, s) matches Ok(t) && t.px == transparent_black() && t.out.last()
            == transparent_black(),
{
    cache_holds_last_stored(bytes, n, k);
    lemma_last_stored_absent(s.stored, bytes[s.pos] as int);
}

/// Where no stored pixel has hash `slot`, the slot is still transparent black.
proof fn lemma_last_stored_absent(stored: Seq<Rgba>, slot: int)
    requires
        forall|j: int| 0 <= j < stored.len() ==> color_hash(#[trigger] stored[j]) != slot,
    ensures
        last_stored(stored, slot) == transparent_black(),
    decreases stored.len(),
{
    if stored.len() > 0 {
        let rest = stored.drop_last();
        assert forall|j: int| 0 <= j < rest.len() implies color_hash(#[trigger] rest[j]) != slot by {
            assert(rest[j] == stored[j]);
        }
        lemma_last_stored_absent(rest, slot);
    }
}

/// Decoding from the start gives what decoding from any state it reaches gives.
proof fn lemma_state_after_decode(bytes: Seq<u8>, n: int, k: nat)
    ensures
        state_after(bytes, n, k) matches Some(s) ==> decode_from(bytes, n, initial_state())
            == decode_from(bytes, n, s),
    decreases k,
{
    if k > 0 {
        lemma_state_after_decode(bytes, n, (k - 1) as nat);
        if let Some(s) = state_after(bytes, n, (k - 1) as nat) {
            if !stops(bytes, n, s) {
                lemma_decode_from_step(bytes, n, s);
            }
        }
    }
}

/// A state reached after `k` tokens was preceded by a state after each
/// `j <= k` tokens, at a cursor no further on (strictly before it where `j < k`).
proof fn lemma_state_after_earlier(bytes: Seq<u8>, n: int, j: nat, k: nat)
    requires
        j <= k,
        state_after(bytes, n, k) is Some,
    ensures
        state_after(bytes, n, j) is Some,
        state_after(bytes, n, j)->Some_0.pos >= QOI_HEADER_SIZE,
        state_after(bytes, n, j)->Some_0.pos <= state_after(bytes, n, k)->Some_0.pos,
        j < k ==> state_after(bytes, n, j)->Some_0.pos < state_after(bytes, n, k)->Some_0.pos,
    decreases k,
{
    if k > 0 {
        lemma_state_after_earlier(bytes, n, (k - 1) as nat, (k - 1) as nat);
        if j < k {
            lemma_state_after_earlier(bytes, n, j, (k - 1) as nat);
        }
    }
}

/// A step reads no byte beyond the five that start at the cursor.
proof fn lemma_step_local(a: Seq<u8>, b: Seq<u8>, n: int, s: DecodeState)
    requires
        0 <= s.pos,
        s.pos + 5 <= a.len(),
        s.pos + 5 <= b.len(),
        forall|i: int| s.pos <= i < s.pos + 5 ==> a[i] == b[i],
    ensures
        step(a, n, s) == step(b, n, s),
{
    assert(a[s.pos] == b[s.pos]);
    assert(a[s.pos + 1] == b[s.pos + 1]);
    assert(a[s.pos + 2] == b[s.pos + 2]);
    assert(a[s.pos + 3] == b[s.pos + 3]);
    assert(a[s.pos + 4] == b[s.pos + 4]);
}

/// Up to a state that leaves at least the padding in `short`, a prefix of
/// `bytes`, decoding `short` goes through the same states as decoding `bytes`.
proof fn lemma_state_after_prefix(bytes: Seq<u8>, short: Seq<u8>, n: int, j: nat, k: nat)
    requires
        j <= k,
        short.len() <= bytes.len(),
        short == bytes.subrange(0, short.len() as int),
        state_after(bytes, n, k) matches Some(s) && s.pos + QOI_PADDING <= short.len(),
    ensures
        state_after(short, n, j) == state_after(bytes, n, j),
    decreases j,
{
    if j > 0 {
        lemma_state_after_prefix(bytes, short, n, (j - 1) as nat, k);
        lemma_state_after_earlier(bytes, n, (j - 1) as nat, k);
        lemma_state_after_earlier(bytes, n, j, k);
        let sp = state_after(bytes, n, (j - 1) as nat)->Some_0;
        assert forall|i: int| sp.pos <= i < sp.pos + 5 implies short[i] == bytes[i] by {
            assert(short[i] == bytes.subrange(0, short.len() as int)[i]);
        }
        lemma_step_local(short, bytes, n, sp);
    }
}

/// A stream cut short: where decoding reaches, with pixels still missing, a
/// token that is the last byte before the final `QOI_PADDING` bytes (as the
/// one-byte last token of a minimal stream is), dropping the final byte of the
/// stream makes decoding fail with `DataIsTooSmall`.
pub proof fn truncated_stream_is_too_small(bytes: Seq<u8>, n: int, k: nat, s: DecodeState)
    requires
        state_after(bytes, n, k) == Some(s),
        s.out.len() < n,
        s.pos + QOI_PADDING + 1 == bytes.len(),
    ensures
        decode_from(bytes.drop_last(), n, initial_state()) == Err::<Seq<Rgba>, DecodeError>(
            DecodeError::DataIsTooSmall,
        ),
{
    lemma_state_after_earlier(bytes, n, k, k);
    let short = bytes.drop_last();
    assert(short =~= bytes.subrange(0, short.len() as int));
    lemma_state_after_prefix(bytes, short, n, k, k);
    lemma_state_after_decode(short, n, k);
    lemma_decode_from_short(short, n, s);
}

/// A decode that succeeds yields exactly one pixel for each of the image's
/// `width * height` positions, whatever the size of the output buffer.
pub proof fn decoded_pixels_fill_image(q: Qoi, bytes: Seq<u8>, out_len: int)
    ensures
        decode_result(q, bytes, out_len) matches Ok(p) ==> p.len() == q.pixel_count(),
{
    if q.width == 0 || q.height == 0 {
        vstd::arithmetic::mul::lemma_mul_basics(q.width as int);
        vstd::arithmetic::mul::lemma_mul_basics(q.height as int);
    } else {
        lemma_decode_from_len(bytes, q.pixel_count(), initial_state());
    }
}

} // verus!
