//! The streaming UTF-8 decoder: bytes arrive in reads of arbitrary size, and
//! complete scalars are handed out as soon as they can be, while a partial
//! trailing encoding waits, buffered, for the next read.

use vstd::prelude::*;
use vstd::utf8::decode_first_scalar;
use vstd::utf8::encode_utf8;
use vstd::utf8::is_scalar;
use vstd::utf8::length_of_first_scalar;
use vstd::utf8::valid_first_scalar;
use crate::scalar_to_char;

verus! {

/// The longest UTF-8 encoding of one scalar: more buffered bytes than this
/// can never become valid by waiting for more input.
pub const MAX_PENDING: usize = 4;

/// What decoding a byte buffer does: complete scalars at the front are
/// decoded one after the other; then, if more than `MAX_PENDING` bytes remain
/// without forming a valid encoding, the oldest is discarded and decoding
/// retried, so that malformed input cannot pile up; what remains is kept for
/// the next read.
pub open spec fn feed_spec(s: Seq<u8>) -> (Seq<char>, Seq<u8>)
    decreases s.len(),
{
    if valid_first_scalar(s) && 1 <= length_of_first_scalar(s) <= s.len() {
        let l = length_of_first_scalar(s);
        let (cs, r) = feed_spec(s.skip(l));
        (seq![decode_first_scalar(s) as char] + cs, r)
    } else if s.len() <= MAX_PENDING {
        (Seq::empty(), s)
    } else {
        feed_spec(s.skip(1))
    }
}

/// The streaming decoder: at most `MAX_PENDING` buffered bytes of an as yet
/// incomplete encoding.
pub struct Utf8Decoder {
    pending: Vec<u8>,
}

impl View for Utf8Decoder {
    type V = Seq<u8>;

    closed spec fn view(&self) -> Seq<u8> {
        self.pending@
    }
}

impl Utf8Decoder {
    /// The decoder's invariant: never more than `MAX_PENDING` buffered bytes,
    /// so feeding arbitrary bytes always makes forward progress instead of
    /// accumulating without bound.
    pub closed spec fn wf(&self) -> bool {
        self@.len() <= MAX_PENDING
    }

    /// A decoder with nothing buffered.
    pub fn new() -> (r: Utf8Decoder)
        ensures
            r.wf(),
            r@ == Seq::<u8>::empty(),
    {
        let r = Utf8Decoder { pending: Vec::new() };
        proof {
            assert(r@ =~= Seq::<u8>::empty());
        }
        r
    }

    /// Feed one read's worth of bytes: the buffered bytes followed by the new
    /// ones are decoded as `feed_spec` describes, the complete scalars come
    /// back in order, and the undecodable remainder stays buffered.
    pub fn feed(&mut self, bytes: &[u8]) -> (out: Vec<char>)
        requires
            old(self).wf(),
        ensures
            final(self).wf(),
            out@ == feed_spec(old(self)@ + bytes@).0,
            final(self)@ == feed_spec(old(self)@ + bytes@).1,
    {
        let ghost orig = old(self)@ + bytes@;
        let mut buf: Vec<u8> = Vec::new();
        let pn = self.pending.len();
        let mut j: usize = 0;
        while j < pn
            invariant
                0 <= j <= pn,
                pn == old(self)@.len(),
                self@ == old(self)@,
                buf@ == old(self)@.take(j as int),
            decreases pn - j,
        {
            buf.push(self.pending[j]);
            proof {
                assert(buf@ =~= old(self)@.take(j + 1));
            }
            j = j + 1;
        }
        proof {
            assert(old(self)@.take(pn as int) =~= old(self)@);
        }
        let bn = bytes.len();
        let mut j: usize = 0;
        while j < bn
            invariant
                0 <= j <= bn,
                bn == bytes@.len(),
                buf@ == old(self)@ + bytes@.take(j as int),
            decreases bn - j,
        {
            buf.push(bytes[j]);
            proof {
                assert(buf@ =~= old(self)@ + bytes@.take(j + 1));
            }
            j = j + 1;
        }
        proof {
            assert(old(self)@ + bytes@.take(bn as int) =~= orig);
        }

        let n = buf.len();
        let mut out: Vec<char> = Vec::new();
        let mut i: usize = 0;
        proof {
            assert(buf@.skip(0) =~= buf@);
            let (cs0, r0) = feed_spec(buf@);
            assert(out@ + cs0 =~= cs0);
        }
        loop
            invariant
                0 <= i <= n,
                n == buf@.len(),
                orig == old(self)@ + bytes@,
                feed_spec(orig) == {
                    let (cs, r) = feed_spec(buf@.skip(i as int));
                    (out@ + cs, r)
                },
            decreases n - i,
        {
            let ghost s = buf@.skip(i as int);
            match decode_first(&buf, i) {
                Some((c, l)) => {
                    let ghost pre_out = out@;
                    out.push(c);
                    proof {
                        assert(s.skip(length_of_first_scalar(s)) =~= buf@.skip(i + l));
                        let (cs, r) = feed_spec(buf@.skip(i + l));
                        assert(pre_out + (seq![c] + cs) =~= out@ + cs);
                    }
                    i = i + l;
                },
                None => {
                    if n - i <= MAX_PENDING {
                        let mut rest: Vec<u8> = Vec::new();
                        let mut j: usize = i;
                        while j < n
                            invariant
                                i <= j <= n,
                                n == buf@.len(),
                                rest@ == buf@.subrange(i as int, j as int),
                            decreases n - j,
                        {
                            rest.push(buf[j]);
                            proof {
                                assert(rest@ =~= buf@.subrange(i as int, j + 1));
                            }
                            j = j + 1;
                        }
                        proof {
                            let tail = buf@.skip(i as int);
                            assert(rest@ =~= tail);
                            assert(!valid_first_scalar(tail));
                            assert(tail.len() == n - i);
                            assert(feed_spec(tail) == (Seq::<char>::empty(), tail));
                            assert(out@ + Seq::<char>::empty() =~= out@);
                            assert(feed_spec(orig).0 == out@);
                            assert(feed_spec(orig).1 == tail);
                        }
                        self.pending = rest;
                        return out;
                    }
                    proof {
                        assert(s.skip(1) =~= buf@.skip(i + 1));
                    }
                    i = i + 1;
                },
            }
        }
    }
}

/// Decode the first scalar of the bytes from position `i` on: the scalar and
/// its encoded length where the bytes begin with a complete well-formed
/// encoding, and nothing where they do not (a partial encoding, or malformed
/// bytes).
fn decode_first(buf: &Vec<u8>, i: usize) -> (r: Option<(char, usize)>)
    requires
        i <= buf@.len(),
    ensures
        ({
            let s = buf@.skip(i as int);
            match r {
                Some((c, l)) => valid_first_scalar(s) && l == length_of_first_scalar(s) && c
                    == decode_first_scalar(s) as char && 1 <= l <= s.len(),
                None => !valid_first_scalar(s),
            }
        }),
{
    let ghost s = buf@.skip(i as int);
    let n = buf.len();
    if i == n {
        return None;
    }
    let b0 = buf[i];
    proof {
        assert(s[0] == b0);
        assert(s.len() == n - i);
    }
    if b0 < 0x80 {
        let c = scalar_to_char(b0 as u32);
        proof {
            assert(b0 & 0x7f == b0) by (bit_vector)
                requires
                    b0 < 0x80,
            ;
            vstd::utf8::char_u32_cast(c, b0 as u32);
        }
        Some((c, 1))
    } else if 0xc0 <= b0 && b0 <= 0xdf {
        if n - i < 2 {
            return None;
        }
        let b1 = buf[i + 1];
        proof {
            assert(s[1] == b1);
        }
        if !(0x80 <= b1 && b1 <= 0xbf) {
            return None;
        }
        let cp: u32 = (((b0 & 0x1f) as u32) << 6) | ((b1 & 0x3f) as u32);
        proof {
            assert(cp <= 0x7ff) by (bit_vector)
                requires
                    cp == (((b0 & 0x1f) as u32) << 6) | ((b1 & 0x3f) as u32),
            ;
        }
        if cp < 0x80 {
            return None;
        }
        let c = scalar_to_char(cp);
        proof {
            vstd::utf8::char_u32_cast(c, cp);
        }
        Some((c, 2))
    } else if 0xe0 <= b0 && b0 <= 0xef {
        if n - i < 3 {
            return None;
        }
        let b1 = buf[i + 1];
        let b2 = buf[i + 2];
        proof {
            assert(s[1] == b1 && s[2] == b2);
        }
        if !(0x80 <= b1 && b1 <= 0xbf) || !(0x80 <= b2 && b2 <= 0xbf) {
            return None;
        }
        let cp: u32 = (((b0 & 0x0f) as u32) << 12) | (((b1 & 0x3f) as u32) << 6) | ((b2
            & 0x3f) as u32);
        proof {
            assert(cp <= 0xffff) by (bit_vector)
                requires
                    cp == (((b0 & 0x0f) as u32) << 12) | (((b1 & 0x3f) as u32) << 6) | ((b2
                        & 0x3f) as u32),
            ;
        }
        if cp < 0x800 {
            return None;
        }
        if 0xd800 <= cp && cp <= 0xdfff {
            return None;
        }
        let c = scalar_to_char(cp);
        proof {
            vstd::utf8::char_u32_cast(c, cp);
        }
        Some((c, 3))
    } else if 0xf0 <= b0 && b0 <= 0xf7 {
        if n - i < 4 {
            return None;
        }
        let b1 = buf[i + 1];
        let b2 = buf[i + 2];
        let b3 = buf[i + 3];
        proof {
            assert(s[1] == b1 && s[2] == b2 && s[3] == b3);
        }
        if !(0x80 <= b1 && b1 <= 0xbf) || !(0x80 <= b2 && b2 <= 0xbf) || !(0x80 <= b3 && b3
            <= 0xbf) {
            return None;
        }
        let cp: u32 = (((b0 & 0x07) as u32) << 18) | (((b1 & 0x3f) as u32) << 12) | (((b2
            & 0x3f) as u32) << 6) | ((b3 & 0x3f) as u32);
        proof {
            assert(cp <= 0x1fffff) by (bit_vector)
                requires
                    cp == (((b0 & 0x07) as u32) << 18) | (((b1 & 0x3f) as u32) << 12) | (((b2
                        & 0x3f) as u32) << 6) | ((b3 & 0x3f) as u32),
            ;
        }
        if !(0x10000 <= cp && cp <= 0x10ffff) {
            return None;
        }
        let c = scalar_to_char(cp);
        proof {
            vstd::utf8::char_u32_cast(c, cp);
        }
        Some((c, 4))
    } else {
        None
    }
}

/// Splitting a text's UTF-8 encoding across two reads loses nothing and
/// duplicates nothing: wherever the split falls — even inside one scalar's
/// encoding — the two feeds together yield exactly the text's characters,
/// and nothing stays buffered.
pub proof fn lemma_feed_split_reads(text: Seq<char>, m: int)
    requires
        0 <= m <= encode_utf8(text).len(),
    ensures
        ({
            let enc = encode_utf8(text);
            let (cs1, r1) = feed_spec(enc.take(m));
            let (cs2, r2) = feed_spec(r1 + enc.skip(m));
            cs1 + cs2 == text && r2 == Seq::<u8>::empty()
        }),
    decreases text.len(),
{
    let enc = encode_utf8(text);
    let b1 = enc.take(m);
    let b2 = enc.skip(m);
    if text.len() == 0 {
        assert(enc =~= Seq::<u8>::empty());
        assert(b1 =~= Seq::<u8>::empty());
        let (cs1, r1) = feed_spec(b1);
        assert(!valid_first_scalar(b1));
        assert(r1 + b2 =~= Seq::<u8>::empty());
        assert(!valid_first_scalar(r1 + b2));
        assert(cs1 + feed_spec(r1 + b2).0 =~= text);
    } else {
        vstd::utf8::encode_utf8_first_scalar(text);
        vstd::utf8::char_is_scalar(text[0]);
        vstd::utf8::char_u32_cast(text[0], decode_first_scalar(enc));
        let l = length_of_first_scalar(enc);
        let encr = encode_utf8(text.drop_first());
        assert(enc.skip(l) =~= encr);
        if m >= l {
            assert(b1[0] == enc[0] && (l >= 2 ==> b1[1] == enc[1]) && (l >= 3 ==> b1[2]
                == enc[2]) && (l >= 4 ==> b1[3] == enc[3]));
            assert(valid_first_scalar(b1));
            assert(length_of_first_scalar(b1) == l);
            assert(decode_first_scalar(b1) == decode_first_scalar(enc));
            assert(b1.skip(l) =~= encr.take(m - l));
            assert(b2 =~= encr.skip(m - l));
            lemma_feed_split_reads(text.drop_first(), m - l);
            let (cs1t, r1t) = feed_spec(b1.skip(l));
            let (cs1, r1) = feed_spec(b1);
            assert(cs1 == seq![decode_first_scalar(b1) as char] + cs1t && r1 == r1t);
            let (cs2, r2) = feed_spec(r1 + b2);
            assert(cs1t + cs2 == text.drop_first() && r2 == Seq::<u8>::empty());
            assert(cs1 + cs2 =~= seq![text[0]] + (cs1t + cs2));
            assert(seq![text[0]] + text.drop_first() =~= text);
        } else {
            if m == 0 {
                assert(b1 =~= Seq::<u8>::empty());
                assert(!valid_first_scalar(b1));
                let (cs1, r1) = feed_spec(b1);
                assert(cs1 == Seq::<char>::empty() && r1 == b1);
                assert(r1 + b2 =~= enc);
                lemma_feed_whole_text(text);
                assert(cs1 + feed_spec(r1 + b2).0 =~= text);
            } else {
                assert(b1[0] == enc[0]);
                assert(!valid_first_scalar(b1)) by {
                    if vstd::utf8::is_leading_byte_width_1(enc[0]) {
                        assert(l == 1);
                    } else if vstd::utf8::is_leading_byte_width_2(enc[0]) {
                        assert(l == 2);
                    } else if vstd::utf8::is_leading_byte_width_3(enc[0]) {
                        assert(l == 3);
                    } else {
                        assert(l == 4);
                    }
                    assert(b1.len() == m < l);
                }
                assert(b1.len() <= 3);
                let (cs1, r1) = feed_spec(b1);
                assert(cs1 == Seq::<char>::empty() && r1 == b1);
                assert(r1 + b2 =~= enc);
                lemma_feed_whole_text(text);
                assert(cs1 + feed_spec(r1 + b2).0 =~= text);
            }
        }
    }
}

/// Decoding the UTF-8 encoding of a text in one piece yields exactly that
/// text's characters and leaves nothing buffered.
pub proof fn lemma_feed_whole_text(text: Seq<char>)
    ensures
        feed_spec(encode_utf8(text)) == (text, Seq::<u8>::empty()),
    decreases text.len(),
{
    let bytes = encode_utf8(text);
    if text.len() == 0 {
        assert(bytes =~= Seq::<u8>::empty());
        assert(feed_spec(bytes) == (Seq::<char>::empty(), bytes));
        assert(text =~= Seq::<char>::empty());
    } else {
        vstd::utf8::encode_utf8_first_scalar(text);
        vstd::utf8::char_is_scalar(text[0]);
        vstd::utf8::char_u32_cast(text[0], decode_first_scalar(bytes));
        let l = length_of_first_scalar(bytes);
        assert(bytes.skip(l) =~= encode_utf8(text.drop_first()));
        lemma_feed_whole_text(text.drop_first());
        let (cs, r) = feed_spec(bytes.skip(l));
        assert(seq![decode_first_scalar(bytes) as char] + cs =~= text);
    }
}

} // verus!
