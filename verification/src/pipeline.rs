use vstd::prelude::*;
use crate::demod::P25Demod;

verus! {

/// The output buffer of the baseband stage (resampler and channel filter),
/// generic over the sample type that the filters write.
pub struct Baseband<S> {
    pub buf: Vec<S>,
}

impl<S: Copy> Baseband<S> {
    /// A baseband stage whose buffer is not sized yet.
    pub fn new() -> (b: Baseband<S>)
        ensures
            b.buf@ == Seq::<S>::empty(),
    {
        Baseband { buf: Vec::new() }
    }

    /// Makes the output buffer `len` samples long, every sample `zero`.
    pub fn size_buf(&mut self, len: usize, zero: S)
        ensures
            final(self).buf@ == Seq::new(len as nat, |i: int| zero),
    {
        let mut buf: Vec<S> = Vec::new();
        let mut i: usize = 0;
        while i < len
            invariant
                i <= len,
                buf@ == Seq::new(i as nat, |j: int| zero),
            decreases len - i,
        {
            buf.push(zero);
            i = i + 1;
            assert(buf@ =~= Seq::new(i as nat, |j: int| zero));
        }
        self.buf = buf;
    }
}

/// `d` read as a two's-complement 32-bit number, as a cast of the unsigned
/// difference to `i32` reads it.
pub open spec fn as_signed_step(d: int) -> int {
    if d < 0x8000_0000 {
        d
    } else {
        d - 0x1_0000_0000
    }
}

/// The bytes of the file name `null`.
pub open spec fn null_name() -> Seq<u8> {
    seq![110u8, 117u8, 108u8, 108u8]
}

/// The bytes of the path `/dev/null`.
pub open spec fn dev_null() -> Seq<u8> {
    seq![47u8, 100u8, 101u8, 118u8, 47u8, 110u8, 117u8, 108u8, 108u8]
}

/// The path that a demodulated channel is written to: `null` stands for
/// `/dev/null`, any other name is the path itself.
pub open spec fn output_path(output: Seq<u8>) -> Seq<u8> {
    if output == null_name() {
        dev_null()
    } else {
        output
    }
}

/// One channel of the receiver: which channel it is, the sample rate and
/// center frequency of the tuner, and the offset of the channel from that
/// center, with the buffers of its baseband and symbol stages.
pub struct Pipeline<S> {
    pub idx: u32,
    pub rate: u32,
    pub freq: u32,
    pub offset: i32,
    pub baseband: Baseband<S>,
    pub demod: P25Demod,
}

impl<S: Copy> Pipeline<S> {
    /// Channel `idx` of a tuner at `freq` sampling at `rate`, demodulating
    /// at the center frequency, its buffers not sized yet.
    pub fn new(idx: u32, rate: u32, freq: u32) -> (p: Pipeline<S>)
        ensures
            p.idx == idx,
            p.rate == rate,
            p.freq == freq,
            p.offset == 0,
            p.baseband.buf@ == Seq::<S>::empty(),
            p.demod.wf(),
            p.demod@.registers == seq![0int, 0int, 0int],
            p.demod@.symbols == Seq::<u8>::empty(),
    {
        Pipeline {
            idx,
            rate,
            freq,
            offset: 0,
            baseband: Baseband::new(),
            demod: P25Demod::new(),
        }
    }

    /// Whether `retune(freq)` is defined here: the tuner may only move up,
    /// and the new offset must fit in an `i32`.
    pub open spec fn can_retune(&self, freq: u32) -> bool {
        &&& self.freq <= freq
        &&& i32::MIN <= self.offset - as_signed_step(freq - self.freq) <= i32::MAX
    }

    /// Whether the channel can follow the tuner to `freq`.
    pub fn retune_fits(&self, freq: u32) -> (b: bool)
        ensures
            b == self.can_retune(freq),
    {
        if self.freq <= freq {
            let d: u32 = freq - self.freq;
            let step: i64 = if d < 0x8000_0000 {
                d as i64
            } else {
                d as i64 - 0x1_0000_0000i64
            };
            let next: i64 = self.offset as i64 - step;
            i32::MIN as i64 <= next && next <= i32::MAX as i64
        } else {
            false
        }
    }

    /// Law: the channel can follow the tuner to `freq` exactly when the
    /// original arithmetic does not overflow: the tuner step `freq - self.freq`
    /// fits a `u32`, and the offset minus that step read as an `i32` fits an
    /// `i32`. Nothing else, such as where the channel sits relative to
    /// `freq`, refuses the move.
    pub proof fn lemma_can_retune_iff_no_overflow(&self, freq: u32)
        ensures
            self.can_retune(freq) <==> (self.freq <= freq && i32::MIN <= self.offset - (((freq
                - self.freq) as u32) as i32) <= i32::MAX),
            self.freq <= freq ==> as_signed_step(freq - self.freq) == ((freq - self.freq) as u32) as i32,
    {
        if self.freq <= freq {
            let d: u32 = (freq - self.freq) as u32;
            assert((d as i32) as int == if d < 0x8000_0000u32 {
                d as int
            } else {
                d as int - 0x1_0000_0000
            }) by (bit_vector);
        }
    }

    /// The tuner moved to `freq`: the offset moves the other way by the same
    /// step, so the channel stays where it was.
    pub fn retune(&mut self, freq: u32)
        requires
            old(self).can_retune(freq),
        ensures
            final(self).freq == freq,
            final(self).offset == old(self).offset - as_signed_step(freq - old(self).freq),
            freq - old(self).freq < 0x8000_0000 ==> final(self).freq + final(self).offset
                == old(self).freq + old(self).offset,
            final(self).idx == old(self).idx,
            final(self).rate == old(self).rate,
            final(self).baseband == old(self).baseband,
            final(self).demod == old(self).demod,
    {
        let d: u32 = freq - self.freq;
        let step: i64 = if d < 0x8000_0000 {
            d as i64
        } else {
            d as i64 - 0x1_0000_0000i64
        };
        let next: i64 = self.offset as i64 - step;
        self.offset = next as i32;
        self.freq = freq;
    }

    /// Demodulate the channel at `offset` from the center, written to
    /// `output`. Returns the path to write to.
    pub fn demod(&mut self, offset: i32, output: &[u8]) -> (path: Vec<u8>)
        ensures
            path@ == output_path(output@),
            final(self).offset == offset,
            final(self).freq == old(self).freq,
            final(self).idx == old(self).idx,
            final(self).rate == old(self).rate,
            final(self).baseband == old(self).baseband,
            final(self).demod == old(self).demod,
    {
        self.offset = offset;
        let is_null = output.len() == 4 && output[0] == 110u8 && output[1] == 117u8 && output[2]
            == 108u8 && output[3] == 108u8;
        if is_null {
            assert(output@ =~= null_name());
            let v: Vec<u8> = vec![47u8, 100u8, 101u8, 118u8, 47u8, 110u8, 117u8, 108u8, 108u8];
            assert(v@ =~= dev_null());
            v
        } else {
            assert(output@ != null_name()) by {
                if output@ == null_name() {
                    assert(output@[0] == 110u8);
                    assert(output@[1] == 117u8);
                    assert(output@[2] == 108u8);
                    assert(output@[3] == 108u8);
                }
            }
            copy_bytes(output)
        }
    }
}

/// A copy of `bytes`.
fn copy_bytes(bytes: &[u8]) -> (v: Vec<u8>)
    ensures
        v@ == bytes@,
{
    let mut v: Vec<u8> = Vec::new();
    let mut i: usize = 0;
    while i < bytes.len()
        invariant
            i <= bytes@.len(),
            v@ == bytes@.take(i as int),
        decreases bytes@.len() - i,
    {
        v.push(bytes[i]);
        i = i + 1;
        assert(v@ =~= bytes@.take(i as int));
    }
    assert(bytes@.take(i as int) =~= bytes@);
    v
}

} // verus!
