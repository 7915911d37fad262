use vstd::prelude::*;

verus! {

/// The eight little-endian bytes of a 64-bit word.
pub open spec fn enc_u64(x: u64) -> Seq<u8> {
    Seq::new(8, |i: int| ((x >> ((8 * i) as u64)) & 0xFFu64) as u8)
}

/// The word read back from eight little-endian bytes.
pub open spec fn dec_u64(bytes: Seq<u8>, pos: int) -> u64 {
    (bytes[pos] as u64) | ((bytes[pos + 1] as u64) << 8u64) | ((bytes[pos + 2] as u64) << 16u64)
        | ((bytes[pos + 3] as u64) << 24u64) | ((bytes[pos + 4] as u64) << 32u64) | ((bytes[pos
        + 5] as u64) << 40u64) | ((bytes[pos + 6] as u64) << 48u64) | ((bytes[pos + 7] as u64)
        << 56u64)
}

/// A word survives the trip through its little-endian bytes.
pub proof fn lemma_dec_enc(x: u64, bytes: Seq<u8>, pos: int)
    requires
        0 <= pos,
        pos + 8 <= bytes.len(),
        forall|i: int| 0 <= i < 8 ==> #[trigger] bytes[pos + i] == enc_u64(x)[i],
    ensures
        dec_u64(bytes, pos) == x,
{
    let b0 = (x >> 0u64) & 0xFFu64;
    let b1 = (x >> 8u64) & 0xFFu64;
    let b2 = (x >> 16u64) & 0xFFu64;
    let b3 = (x >> 24u64) & 0xFFu64;
    let b4 = (x >> 32u64) & 0xFFu64;
    let b5 = (x >> 40u64) & 0xFFu64;
    let b6 = (x >> 48u64) & 0xFFu64;
    let b7 = (x >> 56u64) & 0xFFu64;
    assert(bytes[pos + 0] == b0 as u8 && bytes[pos + 1] == b1 as u8 && bytes[pos + 2] == b2 as u8
        && bytes[pos + 3] == b3 as u8 && bytes[pos + 4] == b4 as u8 && bytes[pos + 5] == b5 as u8
        && bytes[pos + 6] == b6 as u8 && bytes[pos + 7] == b7 as u8);
    assert((b0 as u8 as u64) | ((b1 as u8 as u64) << 8u64) | ((b2 as u8 as u64) << 16u64) | ((
    b3 as u8 as u64) << 24u64) | ((b4 as u8 as u64) << 32u64) | ((b5 as u8 as u64) << 40u64) | ((
    b6 as u8 as u64) << 48u64) | ((b7 as u8 as u64) << 56u64) == x) by (bit_vector)
        requires
            b0 == (x >> 0u64) & 0xFFu64,
            b1 == (x >> 8u64) & 0xFFu64,
            b2 == (x >> 16u64) & 0xFFu64,
            b3 == (x >> 24u64) & 0xFFu64,
            b4 == (x >> 32u64) & 0xFFu64,
            b5 == (x >> 40u64) & 0xFFu64,
            b6 == (x >> 48u64) & 0xFFu64,
            b7 == (x >> 56u64) & 0xFFu64,
    ;
}

/// A word sequence as a little-endian byte stream, eight bytes per
/// word.
pub open spec fn enc_words(v: Seq<u64>) -> Seq<u8> {
    Seq::new(8 * v.len(), |q: int| enc_u64(v[q / 8])[q % 8])
}

/// Append the eight little-endian bytes of one word.
pub fn write_u64(out: &mut Vec<u8>, x: u64)
    ensures
        final(out)@.len() == old(out)@.len() + 8,
        forall|i: int| 0 <= i < old(out)@.len() ==> #[trigger] final(out)@[i] == old(out)@[i],
        forall|i: int|
            0 <= i < 8 ==> #[trigger] final(out)@[old(out)@.len() + i] == enc_u64(x)[i],
{
    let mut i: u64 = 0;
    while i < 8
        invariant
            i <= 8,
            out@.len() == old(out)@.len() + i,
            forall|q: int| 0 <= q < old(out)@.len() ==> #[trigger] out@[q] == old(out)@[q],
            forall|q: int|
                0 <= q < i ==> #[trigger] out@[old(out)@.len() + q] == enc_u64(x)[q],
        decreases 8 - i,
    {
        out.push(((x >> (8 * i)) & 0xFF) as u8);
        i = i + 1;
    }
}

/// Read the word at byte position `pos`.
pub fn read_u64(bytes: &Vec<u8>, pos: usize) -> (r: u64)
    requires
        pos + 8 <= bytes@.len(),
    ensures
        r == dec_u64(bytes@, pos as int),
{
    let l = bytes.len();
    (bytes[pos] as u64) | ((bytes[pos + 1] as u64) << 8u64) | ((bytes[pos + 2] as u64) << 16u64)
        | ((bytes[pos + 3] as u64) << 24u64) | ((bytes[pos + 4] as u64) << 32u64) | ((bytes[pos
        + 5] as u64) << 40u64) | ((bytes[pos + 6] as u64) << 48u64) | ((bytes[pos + 7] as u64)
        << 56u64)
}

/// Append a whole word sequence as bytes.
pub fn write_words(out: &mut Vec<u8>, v: &Vec<u64>)
    requires
        old(out)@.len() == 0,
    ensures
        final(out)@ == enc_words(v@),
{
    let mut w: usize = 0;
    while w < v.len()
        invariant
            w <= v@.len(),
            out@.len() == 8 * w,
            forall|q: int| 0 <= q < 8 * w ==> #[trigger] out@[q] == enc_u64(v@[q / 8])[q % 8],
        decreases v@.len() - w,
    {
        let ghost base = out@.len() as int;
        write_u64(out, v[w]);
        proof {
            assert forall|q: int| 0 <= q < 8 * (w + 1) implies #[trigger] out@[q] == enc_u64(
                v@[q / 8],
            )[q % 8] by {
                if q >= 8 * w {
                    vstd::arithmetic::div_mod::lemma_fundamental_div_mod(q, 8);
                    assert(out@[8 * (w as int) + (q - 8 * (w as int))] == enc_u64(v@[w as int])[q
                        - 8 * (w as int)]);
                }
            }
        }
        w = w + 1;
    }
    proof {
        assert(out@ =~= enc_words(v@));
    }
}

/// Read a byte stream back into words; the stream must consist of
/// whole words.
pub fn read_words(bytes: &Vec<u8>) -> (r: Option<Vec<u64>>)
    ensures
        r is Some <==> bytes@.len() % 8 == 0,
        r matches Some(v) ==> {
            &&& v@.len() * 8 == bytes@.len()
            &&& forall|w: int| 0 <= w < v@.len() ==> #[trigger] v@[w] == dec_u64(bytes@, 8 * w)
        },
        forall|u: Seq<u64>| bytes@ == enc_words(u) ==> (r matches Some(v) && v@ == u),
{
    if bytes.len() % 8 != 0 {
        proof {
            assert forall|u: Seq<u64>| bytes@ == enc_words(u) implies false by {
                vstd::arithmetic::div_mod::lemma_mod_multiples_basic(u.len() as int, 8);
            }
        }
        return None;
    }
    let total = bytes.len();
    let count = total / 8;
    let mut v: Vec<u64> = Vec::new();
    let mut w: usize = 0;
    proof {
        vstd::arithmetic::div_mod::lemma_fundamental_div_mod(bytes@.len() as int, 8);
    }
    while w < count
        invariant
            w <= count,
            total == bytes@.len(),
            count * 8 == bytes@.len(),
            v@.len() == w,
            forall|q: int| 0 <= q < w ==> #[trigger] v@[q] == dec_u64(bytes@, 8 * q),
        decreases count - w,
    {
        proof {
            assert(8 * (w as int) + 8 <= 8 * (count as int)) by (nonlinear_arith)
                requires
                    w < count,
            ;
            assert(8 * (w as int) == (w as int) * 8);
        }
        let x = read_u64(bytes, 8 * w);
        v.push(x);
        w = w + 1;
    }
    proof {
        assert forall|u: Seq<u64>| bytes@ == enc_words(u) implies v@ == u by {
            assert(u.len() == count) by {
                assert(8 * u.len() == 8 * (count as int));
            }
            assert forall|q: int| 0 <= q < count implies #[trigger] v@[q] == u[q] by {
                assert(v@[q] == dec_u64(bytes@, 8 * q));
                assert forall|i: int| 0 <= i < 8 implies #[trigger] bytes@[8 * q + i] == enc_u64(
                    u[q],
                )[i] by {
                    let p = 8 * q + i;
                    assert(bytes@[p] == enc_u64(u[p / 8])[p % 8]);
                    vstd::arithmetic::div_mod::lemma_fundamental_div_mod(p, 8);
                }
                lemma_dec_enc(u[q], bytes@, 8 * q);
            }
            assert(v@ =~= u);
        }
    }
    Some(v)
}

/// A 16-bit window over an incoming byte stream, handing out packed
/// symbol indices a few bits at a time.  The unread bits sit in the low
/// end of the word, oldest on top; once fewer than eight remain, the
/// next byte is shifted in underneath them.
pub struct ProcessedU16 {
    /// 16 bits of data.
    double_byte: u16,

    /// Number of buffered bits not yet handed out.
    processed: u8,
}

impl ProcessedU16 {
    /// The buffered word.
    pub closed spec fn word(self) -> u16 {
        self.double_byte
    }

    /// The number of buffered bits.
    pub closed spec fn level(self) -> u8 {
        self.processed
    }

    /// Bit `k` of the buffered word.
    pub open spec fn word_bit(self, k: int) -> bool {
        (self.word() >> (k as u16)) & 1u16 == 1u16
    }

    /// Return the topmost `n` of the buffered bits and mark them
    /// handed out: the result is the word shifted down past the bits
    /// that remain, masked to `n` bits.
    pub fn get(&mut self, n: u8) -> (r: u8)
        requires
            n <= old(self).level(),
            n <= 8,
            old(self).level() < 16,
        ensures
            final(self).word() == old(self).word(),
            final(self).level() == old(self).level() - n,
            r as u16 == (old(self).word() >> (((old(self).level() - n) as u8) as u16)) & ((((
            1u16 << (n as u16)) - 1)) as u16),
    {
        let bitmask = !(u16::MAX << (self.processed as u16));
        let sh = self.processed - n;
        let bits = (self.double_byte & bitmask) >> (sh as u16);
        let ghost db = self.double_byte;
        let ghost p = self.processed;
        self.processed = self.processed - n;
        proof {
            assert(bits as u8 as u16 == (db >> (sh as u16)) & ((((1u16 << (n as u16))
                - 1)) as u16)) by (bit_vector)
                requires
                    bits == (db & !(u16::MAX << (p as u16))) >> (sh as u16),
                    sh == p - n,
                    n <= p,
                    p < 16,
                    n <= 8,
            ;
        }
        bits as u8
    }

    /// Shift one more byte of data in beneath the unread bits.
    pub fn add_byte(&mut self, byte: u8)
        requires
            old(self).level() < 8,
        ensures
            final(self).word() == ((old(self).word() << 8u16) | (byte as u16)),
            final(self).level() == old(self).level() + 8,
    {
        self.double_byte = (self.double_byte << 8u16) | (byte as u16);
        self.processed = self.processed + 8;
    }

    /// Whether another input byte must be shifted in before a whole
    /// symbol is guaranteed to be buffered.
    pub fn needs_byte(&self) -> (r: bool)
        ensures
            r == (self.level() < 8),
    {
        self.processed < 8
    }
}

impl Default for ProcessedU16 {
    fn default() -> (r: Self)
        ensures
            r.word() == 0,
            r.level() == 0,
    {
        Self { double_byte: 0, processed: 0 }
    }
}

} // verus!
