use vstd::prelude::*;

use crate::header::{header_of, DecodeError, Qoi, QOI_HEADER_SIZE, QOI_PADDING};
use crate::pixel::{channel, color_hash, wrap, Rgba};

verus! {

/// The decoder's state between two tokens.
pub struct DecodeState {
    /// Index of the next token in the encoded bytes.
    pub pos: int,
    /// The running pixel.
    pub px: Rgba,
    /// The 64 cache slots.
    pub index: Seq<Rgba>,
    /// Every pixel stored into the cache so far, oldest first.
    pub stored: Seq<Rgba>,
    /// The pixels decoded so far.
    pub out: Seq<Rgba>,
}

/// The value of a cache slot that nothing was stored into.
pub open spec fn transparent_black() -> Rgba {
    Rgba { r: 0, g: 0, b: 0, a: 0 }
}

/// The running pixel before the first token.
pub open spec fn opaque_black() -> Rgba {
    Rgba { r: 0, g: 0, b: 0, a: 255 }
}

/// State before the first token: opaque black running pixel, cache of
/// transparent black, cursor just after the header.
pub open spec fn initial_state() -> DecodeState {
    DecodeState {
        pos: QOI_HEADER_SIZE as int,
        px: opaque_black(),
        index: Seq::new(64, |i: int| transparent_black()),
        stored: seq![],
        out: seq![],
    }
}

/// Whether `b` starts a run token (`0b11xxxxxx`, but for the two literal tags).
pub open spec fn is_run(b: u8) -> bool {
    0xc0 <= b < 0xfe
}

/// How many times a run token repeats the running pixel.
pub open spec fn run_length(b: u8) -> int {
    b % 64 + 1
}

/// Length in bytes of the token that starts with `b`.
pub open spec fn token_len(b: u8) -> int {
    if b == 0xfe {
        4
    } else if b == 0xff {
        5
    } else if 0x80 <= b < 0xc0 {
        2
    } else {
        1
    }
}

/// The pixel produced by the (non-run) token at `pos`, from the running pixel
/// `px` and the cache `index`.
pub open spec fn token_pixel(bytes: Seq<u8>, pos: int, px: Rgba, index: Seq<Rgba>) -> Rgba {
    let b1 = bytes[pos];
    if b1 == 0xfe {
        Rgba { r: bytes[pos + 1], g: bytes[pos + 2], b: bytes[pos + 3], a: px.a }
    } else if b1 == 0xff {
        Rgba { r: bytes[pos + 1], g: bytes[pos + 2], b: bytes[pos + 3], a: bytes[pos + 4] }
    } else if b1 < 0x40 {
        index[b1 as int]
    } else if b1 < 0x80 {
        Rgba {
            r: wrap(px.r + (b1 / 16) % 4 - 2),
            g: wrap(px.g + (b1 / 4) % 4 - 2),
            b: wrap(px.b + b1 % 4 - 2),
            a: px.a,
        }
    } else {
        let vg = b1 % 64 - 32;
        let b2 = bytes[pos + 1];
        Rgba {
            r: wrap(px.r + vg + b2 / 16 - 8),
            g: wrap(px.g + vg),
            b: wrap(px.b + vg + b2 % 16 - 8),
            a: px.a,
        }
    }
}

/// Effect of the token at `s.pos` on an image of `n` pixels.
pub open spec fn step(bytes: Seq<u8>, n: int, s: DecodeState) -> Result<DecodeState, DecodeError> {
    let b1 = bytes[s.pos];
    if is_run(b1) {
        if s.out.len() + run_length(b1) > n {
            Err(DecodeError::OutputIsTooSmall)
        } else {
            Ok(DecodeState {
                pos: s.pos + 1,
                out: s.out + Seq::new(run_length(b1) as nat, |i: int| s.px),
                ..s
            })
        }
    } else {
        let p = token_pixel(bytes, s.pos, s.px, s.index);
        Ok(DecodeState {
            pos: s.pos + token_len(b1),
            px: p,
            index: s.index.update(color_hash(p), p),
            stored: s.stored.push(p),
            out: s.out.push(p),
        })
    }
}

/// Whether the decoder stops in state `s`, before reading another token.
pub open spec fn stops(bytes: Seq<u8>, n: int, s: DecodeState) -> bool {
    s.out.len() >= n || bytes.len() - s.pos <= QOI_PADDING
}

/// The pixels decoded from state `s` on, for an image of `n` pixels.
#[verifier::opaque]
pub open spec fn decode_from(bytes: Seq<u8>, n: int, s: DecodeState) -> Result<Seq<Rgba>, DecodeError>
    decreases bytes.len() - s.pos,
{
    if s.out.len() >= n {
        Ok(s.out)
    } else if bytes.len() - s.pos <= QOI_PADDING {
        Err(DecodeError::DataIsTooSmall)
    } else {
        match step(bytes, n, s) {
            Ok(t) => decode_from(bytes, n, t),
            Err(e) => Err(e),
        }
    }
}

/// Decoding stops in a state where every pixel is decoded.
pub proof fn lemma_decode_from_done(bytes: Seq<u8>, n: int, s: DecodeState)
    requires
        s.out.len() >= n,
    ensures
        decode_from(bytes, n, s) == Ok::<Seq<Rgba>, DecodeError>(s.out),
{
    reveal(decode_from);
}

/// Where pixels are missing and no more than the padding is left, the input is too short.
pub proof fn lemma_decode_from_short(bytes: Seq<u8>, n: int, s: DecodeState)
    requires
        s.out.len() < n,
        bytes.len() - s.pos <= QOI_PADDING,
    ensures
        decode_from(bytes, n, s) == Err::<Seq<Rgba>, DecodeError>(DecodeError::DataIsTooSmall),
{
    reveal(decode_from);
}

/// Otherwise decoding reads the token at `s.pos` and goes on from where it leads.
pub proof fn lemma_decode_from_step(bytes: Seq<u8>, n: int, s: DecodeState)
    requires
        !stops(bytes, n, s),
    ensures
        decode_from(bytes, n, s) == match step(bytes, n, s) {
            Ok(t) => decode_from(bytes, n, t),
            Err(e) => Err(e),
        },
{
    reveal(decode_from);
}

/// A decode that succeeds from a state with at most `n` pixels gives exactly `n`.
pub proof fn lemma_decode_from_len(bytes: Seq<u8>, n: int, s: DecodeState)
    requires
        s.out.len() <= n,
    ensures
        decode_from(bytes, n, s) matches Ok(p) ==> p.len() == n,
    decreases bytes.len() - s.pos,
{
    reveal(decode_from);
    if !stops(bytes, n, s) {
        if let Ok(t) = step(bytes, n, s) {
            lemma_decode_from_len(bytes, n, t);
        }
    }
}

/// The pixels of the image that `q` describes, decoded from the token stream
/// after the header of `bytes`, into an output of `out_len` bytes.
pub open spec fn decode_result(q: Qoi, bytes: Seq<u8>, out_len: int) -> Result<Seq<Rgba>, DecodeError> {
    if q.width == 0 || q.height == 0 {
        Ok(seq![])
    } else if q.spec_decoded_size() > out_len {
        Err(DecodeError::OutputIsTooSmall)
    } else if bytes.len() < QOI_HEADER_SIZE {
        Err(DecodeError::DataIsTooSmall)
    } else {
        decode_from(bytes, q.pixel_count(), initial_state())
    }
}

/// The bytes of `pixels`, `ch` channels each.
pub open spec fn pixel_bytes(pixels: Seq<Rgba>, ch: int) -> Seq<u8> {
    Seq::new((pixels.len() * ch) as nat, |i: int| channel(pixels[i / ch], i % ch))
}

/// `base` with its first bytes replaced by `pixels`, `ch` channels each.
pub open spec fn written(base: Seq<u8>, pixels: Seq<Rgba>, ch: int) -> Seq<u8> {
    Seq::new(
        base.len(),
        |i: int|
            if i < pixels.len() * ch {
                channel(pixels[i / ch], i % ch)
            } else {
                base[i]
            },
    )
}


/// Writing one more pixel after `pixels` changes only its own bytes.
proof fn lemma_written_push(base: Seq<u8>, pixels: Seq<Rgba>, p: Rgba, ch: int)
    requires
        ch == 3 || ch == 4,
        (pixels.len() + 1) * ch <= base.len(),
    ensures
        ({
            let k = pixels.len() * ch;
            let w = written(base, pixels, ch);
            let w3 = w.update(k, p.r).update(k + 1, p.g).update(k + 2, p.b);
            written(base, pixels.push(p), ch) == if ch == 4 {
                w3.update(k + 3, p.a)
            } else {
                w3
            }
        }),
{
    let k = pixels.len() * ch;
    let w = written(base, pixels, ch);
    let w3 = w.update(k, p.r).update(k + 1, p.g).update(k + 2, p.b);
    let lhs = written(base, pixels.push(p), ch);
    let rhs = if ch == 4 {
        w3.update(k + 3, p.a)
    } else {
        w3
    };
    assert forall|i: int| 0 <= i < base.len() implies lhs[i] == rhs[i] by {
        if ch == 4 {
            if i < k {
                assert(i / 4 < pixels.len());
            } else if i < k + 4 {
                assert(i / 4 == pixels.len());
            }
        } else {
            if i < k {
                assert(i / 3 < pixels.len());
            } else if i < k + 3 {
                assert(i / 3 == pixels.len());
            }
        }
    }
    assert(lhs =~= rhs);
}

/// Writes `px` at byte `at` of `output`, with three or four channels.
fn write_pixel(
    output: &mut [u8],
    at: usize,
    px: Rgba,
    ch: usize,
    Ghost(base): Ghost<Seq<u8>>,
    Ghost(pixels): Ghost<Seq<Rgba>>,
)
    requires
        ch == 3 || ch == 4,
        at == pixels.len() * ch,
        at + ch <= old(output)@.len(),
        old(output)@ == written(base, pixels, ch as int),
    ensures
        final(output)@ == written(base, pixels.push(px), ch as int),
{
    proof {
        lemma_written_push(base, pixels, px, ch as int);
    }
    output[at] = px.r;
    output[at + 1] = px.g;
    output[at + 2] = px.b;
    if ch == 4 {
        output[at + 3] = px.a;
    }
}


/// Adding a multiple of 256 leaves the wrapped byte unchanged.
proof fn lemma_wrap_shift(x: int, k: int)
    ensures
        wrap(x + 256 * k) == wrap(x),
{
    vstd::arithmetic::div_mod::lemma_mod_multiples_vanish(k, x, 256);
}

/// The pixel that a small-difference token `b1` makes of `px`.
fn diff_pixel(px: Rgba, b1: u8) -> (r: Rgba)
    requires
        0x40 <= b1 < 0x80,
    ensures
        r == (Rgba {
            r: wrap(px.r + (b1 / 16) % 4 - 2),
            g: wrap(px.g + (b1 / 4) % 4 - 2),
            b: wrap(px.b + b1 % 4 - 2),
            a: px.a,
        }),
{
    proof {
        lemma_wrap_shift(px.r + (b1 / 16) % 4 - 2, 1);
        lemma_wrap_shift(px.g + (b1 / 4) % 4 - 2, 1);
        lemma_wrap_shift(px.b + b1 % 4 - 2, 1);
    }
    // adding 254 takes 2 away modulo 256
    Rgba {
        r: ((px.r as u32 + (b1 / 16 % 4) as u32 + 254) % 256) as u8,
        g: ((px.g as u32 + (b1 / 4 % 4) as u32 + 254) % 256) as u8,
        b: ((px.b as u32 + (b1 % 4) as u32 + 254) % 256) as u8,
        a: px.a,
    }
}

/// The pixel that a luma token `b1`, `b2` makes of `px`.
fn luma_pixel(px: Rgba, b1: u8, b2: u8) -> (r: Rgba)
    requires
        0x80 <= b1 < 0xc0,
    ensures
        r == (Rgba {
            r: wrap(px.r + (b1 % 64 - 32) + b2 / 16 - 8),
            g: wrap(px.g + (b1 % 64 - 32)),
            b: wrap(px.b + (b1 % 64 - 32) + b2 % 16 - 8),
            a: px.a,
        }),
{
    let vg = (b1 % 64) as u32;
    proof {
        lemma_wrap_shift(px.r + (vg - 32) + b2 / 16 - 8, 1);
        lemma_wrap_shift(px.g + (vg - 32), 1);
        lemma_wrap_shift(px.b + (vg - 32) + b2 % 16 - 8, 1);
    }
    // the green difference is biased by 32, the other two by 8
    Rgba {
        r: ((px.r as u32 + vg + (b2 / 16) as u32 + 216) % 256) as u8,
        g: ((px.g as u32 + vg + 224) % 256) as u8,
        b: ((px.b as u32 + vg + (b2 % 16) as u32 + 216) % 256) as u8,
        a: px.a,
    }
}

/// Reads the token at `pos`, which is not a run, and returns the pixel it
/// produces and the index of the token after it.
fn read_token(bytes: &[u8], pos: usize, px: Rgba, index: &[Rgba; 64]) -> (r: (Rgba, usize))
    requires
        pos + QOI_PADDING < bytes@.len(),
        !is_run(bytes@[pos as int]),
    ensures
        r.0 == token_pixel(bytes@, pos as int, px, index@),
        r.1 == pos + token_len(bytes@[pos as int]),
{
    let b1 = bytes[pos];
    if b1 == 0xfe {
        (Rgba { r: bytes[pos + 1], g: bytes[pos + 2], b: bytes[pos + 3], a: px.a }, pos + 4)
    } else if b1 == 0xff {
        (Rgba { r: bytes[pos + 1], g: bytes[pos + 2], b: bytes[pos + 3], a: bytes[pos + 4] }, pos + 5)
    } else if b1 < 0x40 {
        (index[b1 as usize], pos + 1)
    } else if b1 < 0x80 {
        (diff_pixel(px, b1), pos + 1)
    } else {
        (luma_pixel(px, b1, bytes[pos + 1]), pos + 2)
    }
}

/// Writes `count` copies of `px` after the `out.len()` pixels already in
/// `output`; fails, with nothing promised of `output` but its length, when
/// that goes past pixel `n_px`.
fn write_run(
    output: &mut [u8],
    done: usize,
    n_px: usize,
    px: Rgba,
    count: usize,
    ch: usize,
    Ghost(base): Ghost<Seq<u8>>,
    Ghost(out): Ghost<Seq<Rgba>>,
) -> (ok: bool)
    requires
        ch == 3 || ch == 4,
        done == out.len(),
        done <= n_px,
        n_px * ch <= old(output)@.len(),
        old(output)@ == written(base, out, ch as int),
    ensures
        final(output)@.len() == old(output)@.len(),
        ok == (done + count <= n_px),
        ok ==> final(output)@ == written(base, out + Seq::new(count as nat, |i: int| px), ch as int),
{
    let len = output.len();
    let ghost mut cur = out;
    let mut k: usize = 0;
    let mut d: usize = done;
    proof {
        vstd::arithmetic::mul::lemma_mul_inequality(done as int, n_px as int, ch as int);
    }
    let mut at: usize = done * ch;
    assert(cur =~= out + Seq::new(0, |i: int| px));
    while k < count
        invariant
            ch == 3 || ch == 4,
            k <= count,
            d == done + k,
            d == cur.len(),
            d <= n_px,
            at == d * ch,
            n_px * ch <= len,
            len == output@.len(),
            output@.len() == old(output)@.len(),
            output@.len() == base.len(),
            output@ == written(base, cur, ch as int),
            cur == out + Seq::new(k as nat, |i: int| px),
        decreases count - k,
    {
        if d >= n_px {
            return false;
        }
        proof {
            vstd::arithmetic::mul::lemma_mul_inequality(d as int + 1, n_px as int, ch as int);
            vstd::arithmetic::mul::lemma_mul_is_distributive_add_other_way(ch as int, d as int, 1);
        }
        write_pixel(output, at, px, ch, Ghost(base), Ghost(cur));
        proof {
            cur = cur.push(px);
            assert(cur =~= out + Seq::new(k as nat + 1, |i: int| px));
        }
        k = k + 1;
        d = d + 1;
        at = at + ch;
    }
    true
}

impl Qoi {
    /// Number of bytes the decoded image takes, where that fits in `usize`.
    fn checked_decoded_size(&self) -> (r: Option<usize>)
        ensures
            match r {
                Some(v) => v as int == self.spec_decoded_size(),
                None => self.spec_decoded_size() > usize::MAX,
            },
    {
        let ch: usize = if self.colors.has_alpha() {
            4
        } else {
            3
        };
        proof {
            vstd::arithmetic::mul::lemma_mul_nonnegative(self.width as int, self.height as int);
            vstd::arithmetic::mul::lemma_mul_inequality(
                1,
                self.colors.channels(),
                self.pixel_count(),
            );
        }
        match (self.width as usize).checked_mul(self.height as usize) {
            Some(v) => v.checked_mul(ch),
            None => None,
        }
    }

    /// Decodes the image that `self` describes from the token stream that
    /// follows the header of `bytes`, without reading that header, and writes
    /// its pixels into the start of `output`.
    pub fn decode_skip_header(&self, bytes: &[u8], output: &mut [u8]) -> (r: Result<(), DecodeError>)
        ensures
            final(output)@.len() == old(output)@.len(),
            match decode_result(*self, bytes@, old(output)@.len() as int) {
                Ok(pixels) => r == Ok::<(), DecodeError>(()) && final(output)@ == written(
                    old(output)@,
                    pixels,
                    self.colors.channels(),
                ),
                Err(e) => r == Err::<(), DecodeError>(e),
            },
            self.width == 0 || self.height == 0 ==> r == Ok::<(), DecodeError>(()) && final(output)@
                == old(output)@,
    {
        let r = self.decode_impl(bytes, output);
        let ghost ch = self.colors.channels();
        assert(self.width == 0 || self.height == 0 ==> written(old(output)@, seq![], ch)
            =~= old(output)@);
        r
    }

    /// Reads the header of `bytes`, then decodes the image it describes into
    /// the start of `output`.
    pub fn decode(bytes: &[u8], output: &mut [u8]) -> (r: Result<Qoi, DecodeError>)
        ensures
            final(output)@.len() == old(output)@.len(),
            match header_of(bytes@) {
                Err(e) => r == Err::<Qoi, DecodeError>(e) && final(output)@ == old(output)@,
                Ok(q) => match decode_result(q, bytes@, old(output)@.len() as int) {
                    Ok(pixels) => r == Ok::<Qoi, DecodeError>(q) && final(output)@ == written(
                        old(output)@,
                        pixels,
                        q.colors.channels(),
                    ),
                    Err(e) => r == Err::<Qoi, DecodeError>(e),
                },
            },
    {
        let qoi = match Self::decode_header(bytes) {
            Ok(q) => q,
            Err(e) => return Err(e),
        };
        match qoi.decode_skip_header(bytes, output) {
            Ok(()) => Ok(qoi),
            Err(e) => Err(e),
        }
    }

    /// Reads the header of `bytes`, then decodes the image it describes into a
    /// new buffer of exactly its size.
    pub fn decode_alloc(bytes: &[u8]) -> (r: Result<(Qoi, Vec<u8>), DecodeError>)
        ensures
            match header_of(bytes@) {
                Err(e) => r == Err::<(Qoi, Vec<u8>), DecodeError>(e),
                Ok(q) => if q.spec_decoded_size() > usize::MAX {
                    r == Err::<(Qoi, Vec<u8>), DecodeError>(DecodeError::OutputIsTooSmall)
                } else {
                    match decode_result(q, bytes@, q.spec_decoded_size()) {
                        Ok(pixels) => r matches Ok((q2, v)) && q2 == q && v@ == pixel_bytes(
                            pixels,
                            q.colors.channels(),
                        ),
                        Err(e) => r == Err::<(Qoi, Vec<u8>), DecodeError>(e),
                    }
                },
            },
    {
        let qoi = match Self::decode_header(bytes) {
            Ok(q) => q,
            Err(e) => return Err(e),
        };
        let size = match qoi.checked_decoded_size() {
            Some(v) => v,
            None => return Err(DecodeError::OutputIsTooSmall),
        };
        let mut output = vec![0u8; size];
        let ghost base = output@;
        match Self::decode(bytes, output.as_mut_slice()) {
            Ok(q) => {
                proof {
                    let ch = qoi.colors.channels();
                    if qoi.width != 0 && qoi.height != 0 {
                        lemma_decode_from_len(bytes@, qoi.pixel_count(), initial_state());
                    }
                    if let Ok(pixels) = decode_result(qoi, bytes@, size as int) {
                        if qoi.width == 0 || qoi.height == 0 {
                            vstd::arithmetic::mul::lemma_mul_basics(qoi.width as int);
                            vstd::arithmetic::mul::lemma_mul_basics(qoi.height as int);
                        }
                        assert(written(base, pixels, ch) =~= pixel_bytes(pixels, ch));
                    }
                }
                Ok((q, output))
            },
            Err(e) => Err(e),
        }
    }

    /// Decodes the token stream after the header of `bytes` into `output`.
    fn decode_impl(&self, bytes: &[u8], output: &mut [u8]) -> (r: Result<(), DecodeError>)
        ensures
            final(output)@.len() == old(output)@.len(),
            match decode_result(*self, bytes@, old(output)@.len() as int) {
                Ok(pixels) => r == Ok::<(), DecodeError>(()) && final(output)@ == written(
                    old(output)@,
                    pixels,
                    self.colors.channels(),
                ),
                Err(e) => r == Err::<(), DecodeError>(e),
            },
    {
        let ghost base = output@;
        let ghost n = self.pixel_count();
        let ghost chi = self.colors.channels();
        if self.width == 0 || self.height == 0 {
            assert(written(base, seq![], chi) =~= base);
            return Ok(());
        }
        let out_len = output.len();
        let px_len = match self.checked_decoded_size() {
            Some(v) => v,
            None => return Err(DecodeError::OutputIsTooSmall),
        };
        if px_len > out_len {
            return Err(DecodeError::OutputIsTooSmall);
        }
        if bytes.len() < QOI_HEADER_SIZE {
            return Err(DecodeError::DataIsTooSmall);
        }
        let ch: usize = if self.colors.has_alpha() {
            4
        } else {
            3
        };
        let n_px: usize = self.width as usize * self.height as usize;
        let mut px = Rgba::new_opaque();
        let mut index = [Rgba::new(); 64];
        let mut pos: usize = QOI_HEADER_SIZE;
        let mut done: usize = 0;
        let ghost mut stored: Seq<Rgba> = seq![];
        let ghost mut out: Seq<Rgba> = seq![];
        assert(index@ =~= initial_state().index);
        assert(written(base, seq![], chi) =~= base);
        while done < n_px
            invariant
                ch == chi,
                chi == 3 || chi == 4,
                base == old(output)@,
                n_px == n,
                n * chi <= base.len(),
                out_len == base.len(),
                decode_result(*self, bytes@, base.len() as int) == decode_from(
                    bytes@,
                    n,
                    initial_state(),
                ),
                output@.len() == base.len(),
                done == out.len(),
                done <= n,
                QOI_HEADER_SIZE <= pos <= bytes@.len(),
                index@.len() == 64,
                output@ == written(base, out, chi),
                decode_from(
                    bytes@,
                    n,
                    DecodeState { pos: pos as int, px, index: index@, stored, out },
                ) == decode_from(bytes@, n, initial_state()),
            decreases bytes@.len() - pos,
        {
            let ghost s0 = DecodeState { pos: pos as int, px, index: index@, stored, out };
            if bytes.len() - pos <= QOI_PADDING {
                proof {
                    lemma_decode_from_short(bytes@, n, s0);
                }
                return Err(DecodeError::DataIsTooSmall);
            }
            proof {
                lemma_decode_from_step(bytes@, n, s0);
            }
            let b1 = bytes[pos];
            if 0xc0 <= b1 && b1 < 0xfe {
                let count: usize = (b1 % 64) as usize + 1;
                if !write_run(output, done, n_px, px, count, ch, Ghost(base), Ghost(out)) {
                    return Err(DecodeError::OutputIsTooSmall);
                }
                proof {
                    out = out + Seq::new(count as nat, |i: int| px);
                }
                done = done + count;
                pos = pos + 1;
            } else {
                let (p, next) = read_token(bytes, pos, px, &index);
                px = p;
                pos = next;
                index[px.hash()] = px;
                proof {
                    vstd::arithmetic::mul::lemma_mul_inequality(done as int + 1, n, chi);
                    vstd::arithmetic::mul::lemma_mul_inequality(done as int, n, chi);
                }
                write_pixel(output, done * ch, px, ch, Ghost(base), Ghost(out));
                proof {
                    stored = stored.push(px);
                    out = out.push(px);
                }
                done = done + 1;
            }
            assert(step(bytes@, n, s0) == Ok::<DecodeState, DecodeError>(
                DecodeState { pos: pos as int, px, index: index@, stored, out },
            ));
        }
        proof {
            let end = DecodeState { pos: pos as int, px, index: index@, stored, out };
            lemma_decode_from_done(bytes@, n, end);
        }
        Ok(())
    }
}

} // verus!
