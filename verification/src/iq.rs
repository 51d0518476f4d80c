use vstd::prelude::*;

verus! {

/// One raw sample from the tuner: in-phase and quadrature parts, each a
/// signed 16-bit number.
#[derive(Clone, Copy, Debug, PartialEq, Eq, Structural)]
pub struct IqSample {
    pub re: i16,
    pub im: i16,
}

/// The signed 16-bit number whose little-endian bytes are `lo`, `hi`.
pub open spec fn le_i16(lo: u8, hi: u8) -> int {
    let word = lo as int + 256 * (hi as int);
    if word >= 0x8000 {
        word - 0x1_0000
    } else {
        word
    }
}

/// The sample that starts at byte `4 * i` of a block.
pub open spec fn sample_at(bytes: Seq<u8>, i: int) -> IqSample {
    IqSample {
        re: le_i16(bytes[4 * i], bytes[4 * i + 1]) as i16,
        im: le_i16(bytes[4 * i + 2], bytes[4 * i + 3]) as i16,
    }
}

fn read_i16_le(lo: u8, hi: u8) -> (v: i16)
    ensures
        v as int == le_i16(lo, hi),
{
    let word: i32 = lo as i32 + 256 * (hi as i32);
    if word >= 0x8000 {
        (word - 0x1_0000) as i16
    } else {
        word as i16
    }
}

/// Splits a block of tuner output into samples: each sample is four bytes,
/// the in-phase part then the quadrature part, each little-endian.
pub fn decode_iq(bytes: &[u8]) -> (samples: Vec<IqSample>)
    requires
        bytes@.len() % 4 == 0,
    ensures
        samples@.len() == bytes@.len() / 4,
        forall|i: int| 0 <= i < samples@.len() ==> #[trigger] samples@[i] == sample_at(bytes@, i),
        samples@ == decoded(bytes@),
{
    let len = bytes.len();
    let n = len / 4;
    let mut samples: Vec<IqSample> = Vec::new();
    let mut i: usize = 0;
    while i < n
        invariant
            len == bytes@.len(),
            n == bytes@.len() / 4,
            bytes@.len() % 4 == 0,
            i <= n,
            samples@.len() == i,
            forall|j: int| 0 <= j < i ==> #[trigger] samples@[j] == sample_at(bytes@, j),
        decreases n - i,
    {
        assert(4 * i + 3 < bytes@.len()) by (nonlinear_arith)
            requires
                i < n,
                n == len / 4,
                len % 4 == 0,
                len == bytes@.len(),
        ;
        let base = 4 * i;
        let re = read_i16_le(bytes[base], bytes[base + 1]);
        let im = read_i16_le(bytes[base + 2], bytes[base + 3]);
        samples.push(IqSample { re, im });
        i = i + 1;
    }
    assert(samples@ =~= decoded(bytes@));
    samples
}

/// The samples of a block, in order.
pub open spec fn decoded(bytes: Seq<u8>) -> Seq<IqSample> {
    Seq::new(bytes.len() / 4, |i: int| sample_at(bytes, i))
}

/// Law: `le_i16` is the 16-bit two's-complement reading of the two bytes:
/// the one value in the `i16` range that is congruent to `lo + 256 * hi`
/// modulo 2^16.
pub proof fn lemma_le_i16_twos_complement(lo: u8, hi: u8)
    ensures
        i16::MIN <= le_i16(lo, hi) <= i16::MAX,
        (le_i16(lo, hi) - (lo as int + 256 * hi as int)) % 0x1_0000 == 0,
{
}

/// Law: decoding does not depend on where a sample stands in the block:
/// two blocks of whole samples decode, one after the other, to what their
/// concatenation decodes to; and one sample of four bytes decodes to its
/// two little-endian parts.
pub proof fn lemma_decode_position_independent(a: Seq<u8>, b: Seq<u8>)
    requires
        a.len() % 4 == 0,
        b.len() % 4 == 0,
    ensures
        decoded(a + b) == decoded(a) + decoded(b),
{
    let n = a.len() / 4;
    let ab = a + b;
    assert(ab.len() / 4 == n + b.len() / 4) by (nonlinear_arith)
        requires
            ab.len() == a.len() + b.len(),
            a.len() % 4 == 0,
            b.len() % 4 == 0,
            n == a.len() / 4,
    ;
    assert forall|i: int| 0 <= i < ab.len() / 4 implies #[trigger] decoded(ab)[i] == (decoded(a)
        + decoded(b))[i] by {
        if i < n {
            assert(4 * i + 3 < a.len()) by (nonlinear_arith)
                requires
                    i < n,
                    n == a.len() / 4,
                    a.len() % 4 == 0,
                    0 <= i,
            ;
            assert(ab[4 * i] == a[4 * i]);
            assert(ab[4 * i + 1] == a[4 * i + 1]);
            assert(ab[4 * i + 2] == a[4 * i + 2]);
            assert(ab[4 * i + 3] == a[4 * i + 3]);
        } else {
            let j = i - n;
            assert(4 * i == a.len() + 4 * j && 4 * j + 3 < b.len()) by (nonlinear_arith)
                requires
                    j == i - n,
                    n <= i,
                    i < n + b.len() / 4,
                    n == a.len() / 4,
                    a.len() % 4 == 0,
                    b.len() % 4 == 0,
            ;
            assert(ab[4 * i] == b[4 * j]);
            assert(ab[4 * i + 1] == b[4 * j + 1]);
            assert(ab[4 * i + 2] == b[4 * j + 2]);
            assert(ab[4 * i + 3] == b[4 * j + 3]);
        }
    }
    assert(decoded(ab) =~= decoded(a) + decoded(b));
}

/// Law: a block of one sample decodes to its in-phase part from the first
/// two bytes and its quadrature part from the last two, each little-endian.
pub proof fn lemma_decode_one_sample(lo0: u8, hi0: u8, lo1: u8, hi1: u8)
    ensures
        decoded(seq![lo0, hi0, lo1, hi1]).len() == 1,
        decoded(seq![lo0, hi0, lo1, hi1])[0].re as int == le_i16(lo0, hi0),
        decoded(seq![lo0, hi0, lo1, hi1])[0].im as int == le_i16(lo1, hi1),
{
    lemma_le_i16_twos_complement(lo0, hi0);
    lemma_le_i16_twos_complement(lo1, hi1);
}

} // verus!
