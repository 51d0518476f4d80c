use vstd::prelude::*;
use vstd::arithmetic::power2::{pow2, lemma_pow2_adds, lemma2_to64, lemma_pow2_pos};
use vstd::arithmetic::div_mod::{lemma_mod_mod, lemma_fundamental_div_mod, lemma_fundamental_div_mod_converse_mod};
use vstd::bits::{low_bits_mask, lemma_u64_low_bits_mask_is_mod, lemma_u64_pow2_no_overflow, lemma_u64_shl_is_mul};

verus! {

/// Length in bits of a P25 frame sync word (24 dibits).
pub const SYNC_LEN: u8 = 48;

/// Frame sync word as received with no phase error.
pub const SYNC_0: u64 = 0x5575F5FF77FF;

/// Frame sync word as received when the carrier phase is off by +90 degrees.
pub const SYNC_90: u64 = 0x001050551155;

/// Frame sync word as received when the carrier phase is off by 180 degrees.
pub const SYNC_180: u64 = 0xAA8A0A008800;

/// Frame sync word as received when the carrier phase is off by -90 degrees.
pub const SYNC__90: u64 = 0xFFEFAFAAEEAA;

// ---------------------------------------------------------------------------
// The shift-register model
// ---------------------------------------------------------------------------

/// What a shift register of `len` bits holds after it held `bits` and took
/// one more symbol: the old contents move up by two bit positions, what leaves
/// the `len`-bit window is dropped, and the symbol is added at the bottom.
pub open spec fn shift_in(bits: int, len: nat, dibit: u8) -> int {
    (bits * 4) % (pow2(len) as int) + dibit
}

/// The register after it held `bits` and took the symbols of `h` in order.
pub open spec fn feed(bits: int, len: nat, h: Seq<u8>) -> int
    decreases h.len(),
{
    if h.len() == 0 {
        bits
    } else {
        shift_in(feed(bits, len, h.drop_last()), len, h.last())
    }
}

/// The value of a symbol sequence read as base-4 digits, first symbol most
/// significant.
pub open spec fn base4(h: Seq<u8>) -> nat
    decreases h.len(),
{
    if h.len() == 0 {
        0
    } else {
        base4(h.drop_last()) * 4 + h.last() as nat
    }
}

/// Every symbol of `h` is a dibit.
pub open spec fn all_dibits(h: Seq<u8>) -> bool {
    forall|i: int| 0 <= i < h.len() ==> #[trigger] h[i] < 4
}

/// The last `k` symbols of `h`.
pub open spec fn last_symbols(h: Seq<u8>, k: nat) -> Seq<u8> {
    h.subrange(h.len() - k, h.len() as int)
}

/// Shifting the masked register by two bits is the same as multiplying the
/// register by four modulo the window.
proof fn lemma_shift_mask(b: u64, n: nat)
    requires
        n < 64,
    ensures
        ((b << 2u64) & (low_bits_mask(n) as u64)) == (b as int * 4) % (pow2(n) as int),
{
    assert((b << 2u64) as int == (b as int * 4) % 0x1_0000_0000_0000_0000int) by (bit_vector);
    lemma_u64_low_bits_mask_is_mod(b << 2u64, n);
    lemma_u64_pow2_no_overflow(n);
    lemma_pow2_pos(n);
    lemma_pow2_pos((64 - n) as nat);
    lemma_pow2_adds(n, (64 - n) as nat);
    lemma2_to64();
    lemma_mod_mod(b as int * 4, pow2(n) as int, pow2((64 - n) as nat) as int);
}

/// Taking a dibit into a register whose width is a multiple of two bits:
/// reducing before or after gives the same value.
proof fn lemma_shift_in_reduced(x: int, m: int, d: int)
    requires
        x >= 0,
        m > 0,
        m % 4 == 0,
        0 <= d < 4,
    ensures
        ((x % m) * 4) % m + d == (x * 4 + d) % m,
        ((x % m) * 4) % m == (x * 4) % m,
{
    let q = x / m;
    let r = x % m;
    lemma_fundamental_div_mod(x, m);
    assert(x * 4 == (q * 4) * m + r * 4) by (nonlinear_arith)
        requires
            x == m * q + r,
    ;
    let q2 = (r * 4) / m;
    let r2 = (r * 4) % m;
    lemma_fundamental_div_mod(r * 4, m);
    assert(x * 4 == (q * 4 + q2) * m + r2) by (nonlinear_arith)
        requires
            x * 4 == (q * 4) * m + r * 4,
            r * 4 == m * q2 + r2,
    ;
    lemma_fundamental_div_mod_converse_mod(x * 4, m, q * 4 + q2, r2);
    // r2 is a multiple of four, so adding a dibit stays below m
    let k = m / 4;
    assert(r2 % 4 == 0) by (nonlinear_arith)
        requires
            r * 4 == m * q2 + r2,
            m == 4 * k,
    {
        assert(r2 == 4 * (r - k * q2));
    }
    assert(r2 + d < m) by (nonlinear_arith)
        requires
            r2 % 4 == 0,
            0 <= r2 < m,
            m % 4 == 0,
            0 <= d < 4,
    {
        assert(r2 <= m - 4);
    }
    assert(x * 4 + d == (q * 4 + q2) * m + (r2 + d));
    lemma_fundamental_div_mod_converse_mod(x * 4 + d, m, q * 4 + q2, r2 + d);
}

/// Appending a dibit to a value reduced modulo `4 * p` keeps the low digits.
proof fn lemma_append_digit_mod(y: int, p: int, d: int)
    requires
        y >= 0,
        p > 0,
        0 <= d < 4,
    ensures
        (y * 4 + d) % (4 * p) == (y % p) * 4 + d,
{
    let q = y / p;
    let r = y % p;
    lemma_fundamental_div_mod(y, p);
    assert(y * 4 + d == q * (4 * p) + (r * 4 + d)) by (nonlinear_arith)
        requires
            y == p * q + r,
    ;
    lemma_fundamental_div_mod_converse_mod(y * 4 + d, 4 * p, q, r * 4 + d);
}

proof fn lemma_base4_bound(h: Seq<u8>)
    requires
        all_dibits(h),
    ensures
        base4(h) < pow2(2 * h.len()),
    decreases h.len(),
{
    if h.len() == 0 {
        lemma2_to64();
    } else {
        let t = h.drop_last();
        assert(all_dibits(t)) by {
            assert forall|i: int| 0 <= i < t.len() implies #[trigger] t[i] < 4 by {
                assert(t[i] == h[i]);
            }
        }
        lemma_base4_bound(t);
        assert(h.last() < 4) by {
            assert(h[h.len() - 1] < 4);
        }
        lemma_pow2_adds(2 * t.len(), 2);
        lemma2_to64();
        assert(2 * h.len() == 2 * t.len() + 2);
    }
}

/// Law: a register of at least two bits that started empty and took only
/// dibits holds the value of all symbols taken, reduced to the window.
pub proof fn lemma_register_holds_history(len: nat, h: Seq<u8>)
    requires
        2 <= len,
        all_dibits(h),
    ensures
        feed(0, len, h) == (base4(h) as int) % (pow2(len) as int),
    decreases h.len(),
{
    lemma_pow2_pos(len);
    if h.len() == 0 {
        vstd::arithmetic::div_mod::lemma_small_mod(0, pow2(len));
    } else {
        let t = h.drop_last();
        assert(all_dibits(t)) by {
            assert forall|i: int| 0 <= i < t.len() implies #[trigger] t[i] < 4 by {
                assert(t[i] == h[i]);
            }
        }
        lemma_register_holds_history(len, t);
        assert(h.last() < 4) by {
            assert(h[h.len() - 1] < 4);
        }
        // pow2(len) is a multiple of four
        lemma_pow2_adds((len - 2) as nat, 2);
        lemma2_to64();
        assert((pow2(len) as int) % 4 == 0) by (nonlinear_arith)
            requires
                pow2(len) as int == pow2((len - 2) as nat) as int * 4,
        ;
        lemma_shift_in_reduced(base4(t) as int, pow2(len) as int, h.last() as int);
        assert(base4(h) == base4(t) * 4 + h.last() as nat);
        assert(feed(0, len, h) == shift_in(feed(0, len, t), len, h.last()));
    }
}

/// Law: of the symbols taken so far, the base-4 value reduced to `2 * k`
/// bits is the value of the last `k` symbols.
pub proof fn lemma_window_is_last_symbols(h: Seq<u8>, k: nat)
    requires
        all_dibits(h),
        k <= h.len(),
    ensures
        (base4(h) as int) % (pow2(2 * k) as int) == base4(last_symbols(h, k)),
    decreases k,
{
    lemma_pow2_pos(2 * k);
    if k == 0 {
        lemma2_to64();
        assert(last_symbols(h, 0) =~= Seq::<u8>::empty());
    } else {
        let t = h.drop_last();
        assert(all_dibits(t)) by {
            assert forall|i: int| 0 <= i < t.len() implies #[trigger] t[i] < 4 by {
                assert(t[i] == h[i]);
            }
        }
        lemma_window_is_last_symbols(t, (k - 1) as nat);
        assert(h.last() < 4) by {
            assert(h[h.len() - 1] < 4);
        }
        lemma_pow2_pos(2 * (k - 1) as nat);
        lemma_pow2_adds(2, (2 * (k - 1)) as nat);
        lemma2_to64();
        assert(2 * k == 2 + 2 * (k - 1) as nat);
        lemma_append_digit_mod(base4(t) as int, pow2((2 * (k - 1)) as nat) as int, h.last() as int);
        let w = last_symbols(h, k);
        assert(w.drop_last() =~= last_symbols(t, (k - 1) as nat));
        assert(w.last() == h.last());
    }
}

/// Law: a sync sink of `2 * k` bits, started empty and fed dibits, fires on
/// the last symbol exactly when the last `k` symbols spell its sync word; with
/// fewer than `k` symbols taken it holds the value of all of them.
pub proof fn lemma_sync_fires_on_window(sync: u64, k: nat, h: Seq<u8>)
    requires
        1 <= k < 32,
        all_dibits(h),
    ensures
        k <= h.len() ==> ((feed(0, 2 * k, h) == sync) <==> (base4(last_symbols(h, k)) == sync)),
        h.len() < k ==> feed(0, 2 * k, h) == base4(h),
{
    lemma_register_holds_history(2 * k, h);
    if k <= h.len() {
        lemma_window_is_last_symbols(h, k);
    } else {
        lemma_base4_bound(h);
        lemma_pow2_strictly_increases_or_eq(2 * h.len(), 2 * k);
        vstd::arithmetic::div_mod::lemma_small_mod(base4(h), pow2(2 * k));
    }
}

proof fn lemma_narrow_mask(n: nat)
    requires
        n < 64,
    ensures
        low_bits_mask(n) < 0x8000_0000_0000_0000,
{
    lemma_pow2_strictly_increases_or_eq(n, 63);
    vstd::arithmetic::power2::lemma2_to64_rest();
    lemma_pow2_pos(n);
}

proof fn lemma_pow2_strictly_increases_or_eq(a: nat, b: nat)
    requires
        a <= b,
    ensures
        pow2(a) <= pow2(b),
{
    if a < b {
        vstd::arithmetic::power2::lemma_pow2_strictly_increases(a, b);
    }
}

// ---------------------------------------------------------------------------
// The rotated sync words
// ---------------------------------------------------------------------------

/// Every dibit of a 48-bit word read a quarter turn ahead. The dibits follow
/// each other round the circle 01, 00, 10, 11: the dibit with bits `(h, l)`
/// becomes `(!l, h)`.
pub open spec fn quarter_turn_word(w: u64) -> u64 {
    ((!w & 0x5555_5555_5555u64) << 1u64) | ((w & 0xAAAA_AAAA_AAAAu64) >> 1u64)
}

/// Law: the three words the sinks look for are the frame sync word with
/// every dibit read one, two and three quarter turns ahead.
pub proof fn lemma_sync_words_are_rotations()
    ensures
        SYNC_90 == quarter_turn_word(SYNC_0),
        SYNC_180 == quarter_turn_word(quarter_turn_word(SYNC_0)),
        SYNC__90 == quarter_turn_word(quarter_turn_word(quarter_turn_word(SYNC_0))),
{
    assert(0x001050551155u64 == ((!0x5575F5FF77FFu64 & 0x5555_5555_5555u64) << 1u64) | ((
    0x5575F5FF77FFu64 & 0xAAAA_AAAA_AAAAu64) >> 1u64)) by (bit_vector);
    assert(0xAA8A0A008800u64 == ((!0x001050551155u64 & 0x5555_5555_5555u64) << 1u64) | ((
    0x001050551155u64 & 0xAAAA_AAAA_AAAAu64) >> 1u64)) by (bit_vector);
    assert(0xFFEFAFAAEEAAu64 == ((!0xAA8A0A008800u64 & 0x5555_5555_5555u64) << 1u64) | ((
    0xAA8A0A008800u64 & 0xAAAA_AAAA_AAAAu64) >> 1u64)) by (bit_vector);
}

// ---------------------------------------------------------------------------
// SyncSink
// ---------------------------------------------------------------------------

/// A shift register over the most recent symbols that reports when it holds
/// a given sync word.
pub struct SyncSink {
    sync: u64,
    mask: u64,
    bits: u64,
    len: Ghost<nat>,
}

/// What a `SyncSink` is: the word it looks for, its width in bits, and
/// what its register holds.
pub struct SyncSinkView {
    pub sync: u64,
    pub len: nat,
    pub bits: u64,
}

impl View for SyncSink {
    type V = SyncSinkView;

    closed spec fn view(&self) -> SyncSinkView {
        SyncSinkView { sync: self.sync, len: self.len@, bits: self.bits }
    }
}

impl SyncSink {
    #[verifier::type_invariant]
    spec fn inv(self) -> bool {
        &&& self.len@ < 64
        &&& self.mask as int == low_bits_mask(self.len@)
        &&& self.bits as int <= self.mask as int + 255
    }

    /// A sink of `len` bits looking for `sync`, its register empty.
    /// (A width of 64 bits overflows the mask computation.)
    pub fn new(sync: u64, len: u8) -> (s: SyncSink)
        requires
            len < 64,
        ensures
            s@ == (SyncSinkView { sync, len: len as nat, bits: 0 }),
    {
        proof {
            lemma_u64_pow2_no_overflow(len as nat);
            lemma_u64_shl_is_mul(1, len as u64);
        }
        let mask = (1u64 << (len as u64)) - 1;
        SyncSink { sync, mask, bits: 0, len: Ghost(len as nat) }
    }

    /// Shifts one symbol into the register and reports whether the register
    /// now holds the sync word.
    pub fn next(&mut self, dibit: u8) -> (hit: bool)
        ensures
            final(self)@.sync == old(self)@.sync,
            final(self)@.len == old(self)@.len,
            final(self)@.bits == shift_in(old(self)@.bits as int, old(self)@.len, dibit),
            hit == (final(self)@.bits == old(self)@.sync),
    {
        proof {
            use_type_invariant(&*self);
            lemma_shift_mask(self.bits, self.len@);
            lemma_u64_pow2_no_overflow(self.len@);
            lemma_pow2_pos(self.len@);
        }
        let shifted = (self.bits << 2u64) & self.mask;
        proof {
            lemma_shift_mask(self.bits, self.len@);
            lemma_narrow_mask(self.len@);
            assert(shifted as int == (self.bits as int * 4) % (pow2(self.len@) as int));
            assert(shifted as int <= self.mask as int);
        }
        self.bits = shifted + dibit as u64;
        self.bits == self.sync
    }
}

} // verus!

verus! {

// ---------------------------------------------------------------------------
// Phase correction from sync words
// ---------------------------------------------------------------------------

/// A carrier phase error revealed by a rotated sync word.
#[derive(Clone, Copy, Debug, PartialEq, Eq, Structural)]
pub enum PhaseShift {
    Plus90,
    Plus180,
    Minus90,
}

impl PhaseShift {
    /// The rotation in degrees.
    pub open spec fn degrees_spec(self) -> int {
        match self {
            PhaseShift::Plus90 => 90,
            PhaseShift::Plus180 => 180,
            PhaseShift::Minus90 => -90,
        }
    }

    /// The rotation in degrees that the differential phasor applies.
    pub fn degrees(&self) -> (d: i32)
        ensures
            d == self.degrees_spec(),
    {
        match self {
            PhaseShift::Plus90 => 90,
            PhaseShift::Plus180 => 180,
            PhaseShift::Minus90 => -90,
        }
    }
}

/// The sync word that the sink at `i` looks for, in the order the sinks are
/// asked.
pub open spec fn sink_sync(i: int) -> u64 {
    if i == 0 {
        SYNC_90
    } else if i == 1 {
        SYNC_180
    } else {
        SYNC__90
    }
}

/// One symbol through the three sinks, asked in order: the first sink whose
/// register then holds its word decides the correction, and the sinks after
/// it do not see the symbol.
pub open spec fn phase_step(regs: Seq<int>, symbol: u8) -> (Seq<int>, Option<PhaseShift>) {
    let len = SYNC_LEN as nat;
    let b0 = shift_in(regs[0], len, symbol);
    let b1 = shift_in(regs[1], len, symbol);
    let b2 = shift_in(regs[2], len, symbol);
    if b0 == SYNC_90 {
        (regs.update(0, b0), Some(PhaseShift::Plus90))
    } else if b1 == SYNC_180 {
        (regs.update(0, b0).update(1, b1), Some(PhaseShift::Plus180))
    } else if b2 == SYNC__90 {
        (regs.update(0, b0).update(1, b1).update(2, b2), Some(PhaseShift::Minus90))
    } else {
        (regs.update(0, b0).update(1, b1).update(2, b2), None)
    }
}

/// The symbols of `syms` through the sinks in order: the registers after
/// them and the corrections they gave, in order.
pub open spec fn phase_run(regs: Seq<int>, syms: Seq<u8>) -> (Seq<int>, Seq<PhaseShift>)
    decreases syms.len(),
{
    if syms.len() == 0 {
        (regs, Seq::empty())
    } else {
        let (r, out) = phase_run(regs, syms.drop_last());
        let (r2, o) = phase_step(r, syms.last());
        match o {
            Some(p) => (r2, out.push(p)),
            None => (r2, out),
        }
    }
}

proof fn lemma_first_register(regs: Seq<int>, h: Seq<u8>)
    requires
        regs.len() == 3,
    ensures
        phase_run(regs, h).0.len() == 3,
        phase_run(regs, h).0[0] == feed(regs[0], SYNC_LEN as nat, h),
    decreases h.len(),
{
    if h.len() > 0 {
        lemma_first_register(regs, h.drop_last());
    }
}

/// Law: the first sink sees every symbol, so a symbol stage that started
/// empty and took only dibits reports a +90 degree error on a symbol exactly
/// when the last 24 symbols up to it spell the +90 sync word.
pub proof fn lemma_plus90_on_window(h: Seq<u8>)
    requires
        all_dibits(h),
        h.len() >= 24,
    ensures
        (phase_step(phase_run(seq![0int, 0int, 0int], h.drop_last()).0, h.last()).1 == Some(
            PhaseShift::Plus90,
        )) <==> base4(last_symbols(h, 24)) == SYNC_90,
{
    lemma_first_register(seq![0int, 0int, 0int], h);
    lemma_first_register(seq![0int, 0int, 0int], h.drop_last());
    lemma_sync_fires_on_window(SYNC_90, 24, h);
    assert(feed(0, SYNC_LEN as nat, h) == shift_in(
        feed(0, SYNC_LEN as nat, h.drop_last()),
        SYNC_LEN as nat,
        h.last(),
    ));
}

/// The corrections one symbol gives, as a sequence (empty or one element).
pub open spec fn as_seq(o: Option<PhaseShift>) -> Seq<PhaseShift> {
    match o {
        Some(p) => seq![p],
        None => Seq::empty(),
    }
}

/// Law: block boundaries do not matter. Feeding `a` then `b` leaves the same
/// registers and gives the same corrections, in order, as feeding `a + b` at
/// once; and a block of one symbol reports what that symbol's step reports.
pub proof fn lemma_blocks_compose(regs: Seq<int>, a: Seq<u8>, b: Seq<u8>)
    ensures
        phase_run(regs, a + b).0 == phase_run(phase_run(regs, a).0, b).0,
        phase_run(regs, a + b).1 == phase_run(regs, a).1 + phase_run(phase_run(regs, a).0, b).1,
    decreases b.len(),
{
    if b.len() == 0 {
        assert(a + b =~= a);
        assert(phase_run(regs, a).1 + Seq::<PhaseShift>::empty() =~= phase_run(regs, a).1);
    } else {
        lemma_blocks_compose(regs, a, b.drop_last());
        assert((a + b).drop_last() =~= a + b.drop_last());
        assert((a + b).last() == b.last());
        let ra = phase_run(regs, a);
        let rb = phase_run(ra.0, b.drop_last());
        let st = phase_step(rb.0, b.last());
        match st.1 {
            Some(p) => {
                assert(ra.1 + rb.1.push(p) =~= (ra.1 + rb.1).push(p));
            },
            None => {},
        }
    }
}

/// Law: a block of one symbol reports exactly the correction of that
/// symbol's step.
pub proof fn lemma_single_symbol_block(regs: Seq<int>, s: u8)
    ensures
        phase_run(regs, seq![s]).0 == phase_step(regs, s).0,
        phase_run(regs, seq![s]).1 == as_seq(phase_step(regs, s).1),
{
    let h = seq![s];
    assert(h.drop_last() =~= Seq::<u8>::empty());
    assert(phase_run(regs, h.drop_last()) == (regs, Seq::<PhaseShift>::empty()));
    assert(h.last() == s);
    match phase_step(regs, s).1 {
        Some(p) => {
            assert(Seq::<PhaseShift>::empty().push(p) =~= seq![p]);
        },
        None => {},
    }
}

// ---------------------------------------------------------------------------
// The symbol stage as three sinks
// ---------------------------------------------------------------------------

/// The +90 sink fires on the last symbol of `h`: it sees every symbol, so
/// its register is `feed(0, 48, h)`.
pub open spec fn fires_plus90(h: Seq<u8>) -> bool {
    h.len() > 0 && feed(0, SYNC_LEN as nat, h) == SYNC_90
}

/// The symbols the 180 sink is shown: every symbol on which the +90 sink did
/// not fire.
pub open spec fn shown_180(h: Seq<u8>) -> Seq<u8>
    decreases h.len(),
{
    if h.len() == 0 {
        Seq::empty()
    } else if fires_plus90(h) {
        shown_180(h.drop_last())
    } else {
        shown_180(h.drop_last()).push(h.last())
    }
}

/// The 180 sink fires on the last symbol of `h`.
pub open spec fn fires_180(h: Seq<u8>) -> bool {
    h.len() > 0 && !fires_plus90(h) && feed(0, SYNC_LEN as nat, shown_180(h)) == SYNC_180
}

/// The symbols the -90 sink is shown: every symbol on which neither earlier
/// sink fired.
pub open spec fn shown_minus90(h: Seq<u8>) -> Seq<u8>
    decreases h.len(),
{
    if h.len() == 0 {
        Seq::empty()
    } else if fires_plus90(h) || fires_180(h) {
        shown_minus90(h.drop_last())
    } else {
        shown_minus90(h.drop_last()).push(h.last())
    }
}

/// The -90 sink fires on the last symbol of `h`.
pub open spec fn fires_minus90(h: Seq<u8>) -> bool {
    h.len() > 0 && !fires_plus90(h) && !fires_180(h) && feed(0, SYNC_LEN as nat, shown_minus90(h))
        == SYNC__90
}

/// The corrections reported over the stream `h`, one per symbol on which a
/// sink fired.
pub open spec fn reported(h: Seq<u8>) -> Seq<PhaseShift>
    decreases h.len(),
{
    if h.len() == 0 {
        Seq::empty()
    } else if fires_plus90(h) {
        reported(h.drop_last()).push(PhaseShift::Plus90)
    } else if fires_180(h) {
        reported(h.drop_last()).push(PhaseShift::Plus180)
    } else if fires_minus90(h) {
        reported(h.drop_last()).push(PhaseShift::Minus90)
    } else {
        reported(h.drop_last())
    }
}

/// Law: a symbol stage started empty is three independent sync sinks, each
/// a shift register over the symbols it was shown: the +90 sink sees every
/// symbol, the 180 sink every symbol on which the +90 sink did not fire, the
/// -90 sink every symbol on which neither fired; and it reports, in order,
/// the correction of each sink that fired.
pub proof fn lemma_stage_is_three_sinks(h: Seq<u8>)
    ensures
        phase_run(seq![0int, 0int, 0int], h).0 == seq![
            feed(0, SYNC_LEN as nat, h),
            feed(0, SYNC_LEN as nat, shown_180(h)),
            feed(0, SYNC_LEN as nat, shown_minus90(h)),
        ],
        phase_run(seq![0int, 0int, 0int], h).1 == reported(h),
    decreases h.len(),
{
    let z = seq![0int, 0int, 0int];
    let len = SYNC_LEN as nat;
    if h.len() == 0 {
        assert(shown_180(h) =~= Seq::<u8>::empty());
        assert(shown_minus90(h) =~= Seq::<u8>::empty());
        assert(phase_run(z, h).0 =~= seq![
            feed(0, len, h),
            feed(0, len, shown_180(h)),
            feed(0, len, shown_minus90(h)),
        ]);
    } else {
        let t = h.drop_last();
        let x = h.last();
        lemma_stage_is_three_sinks(t);
        let s1 = shown_180(t);
        let s2 = shown_minus90(t);
        assert(feed(0, len, h) == shift_in(feed(0, len, t), len, x));
        assert(s1.push(x).drop_last() =~= s1);
        assert(s2.push(x).drop_last() =~= s2);
        assert(feed(0, len, s1.push(x)) == shift_in(feed(0, len, s1), len, x));
        assert(feed(0, len, s2.push(x)) == shift_in(feed(0, len, s2), len, x));
        assert(phase_run(z, h).0 =~= seq![
            feed(0, len, h),
            feed(0, len, shown_180(h)),
            feed(0, len, shown_minus90(h)),
        ]);
    }
}

/// Every symbol of a subsequence made of symbols of `h` is a dibit when
/// those of `h` are.
proof fn lemma_shown_dibits(h: Seq<u8>)
    requires
        all_dibits(h),
    ensures
        all_dibits(shown_180(h)),
        all_dibits(shown_minus90(h)),
    decreases h.len(),
{
    if h.len() > 0 {
        let t = h.drop_last();
        assert(all_dibits(t)) by {
            assert forall|i: int| 0 <= i < t.len() implies #[trigger] t[i] < 4 by {
                assert(t[i] == h[i]);
            }
        }
        lemma_shown_dibits(t);
        assert(h.last() < 4) by {
            assert(h[h.len() - 1] < 4);
        }
        let a = shown_180(t).push(h.last());
        assert forall|i: int| 0 <= i < a.len() implies #[trigger] a[i] < 4 by {
            if i < a.len() - 1 {
                assert(a[i] == shown_180(t)[i]);
            }
        }
        let b = shown_minus90(t).push(h.last());
        assert forall|i: int| 0 <= i < b.len() implies #[trigger] b[i] < 4 by {
            if i < b.len() - 1 {
                assert(b[i] == shown_minus90(t)[i]);
            }
        }
    }
}

/// Law: each sink fires exactly when the last 24 symbols it was shown spell
/// its word (with fewer than 24 shown, when all of them, read as base-4
/// digits, do), and only if no earlier sink fired on that symbol.
pub proof fn lemma_sinks_fire_on_windows(h: Seq<u8>)
    requires
        all_dibits(h),
        h.len() > 0,
    ensures
        h.len() >= 24 ==> (fires_plus90(h) <==> base4(last_symbols(h, 24)) == SYNC_90),
        shown_180(h).len() >= 24 ==> (fires_180(h) <==> !fires_plus90(h) && base4(
            last_symbols(shown_180(h), 24),
        ) == SYNC_180),
        shown_minus90(h).len() >= 24 ==> (fires_minus90(h) <==> !fires_plus90(h) && !fires_180(
            h,
        ) && base4(last_symbols(shown_minus90(h), 24)) == SYNC__90),
        h.len() < 24 ==> (fires_plus90(h) <==> base4(h) == SYNC_90),
        shown_180(h).len() < 24 ==> (fires_180(h) <==> !fires_plus90(h) && base4(shown_180(h))
            == SYNC_180),
        shown_minus90(h).len() < 24 ==> (fires_minus90(h) <==> !fires_plus90(h) && !fires_180(h)
            && base4(shown_minus90(h)) == SYNC__90),
{
    lemma_shown_dibits(h);
    lemma_sync_fires_on_window(SYNC_90, 24, h);
    lemma_sync_fires_on_window(SYNC_180, 24, shown_180(h));
    lemma_sync_fires_on_window(SYNC__90, 24, shown_minus90(h));
}

/// The last `k` symbols of `h` were all shown to the 180 sink: the +90 sink
/// fired on none of them.
pub open spec fn quiet_plus90(h: Seq<u8>, k: nat) -> bool {
    forall|j: int| h.len() - k <= j < h.len() ==> !#[trigger] fires_plus90(h.take(j + 1))
}

/// The last `k` symbols of `h` were all shown to the -90 sink: neither
/// earlier sink fired on any of them.
pub open spec fn quiet_earlier(h: Seq<u8>, k: nat) -> bool {
    forall|j: int|
        h.len() - k <= j < h.len() ==> !#[trigger] fires_plus90(h.take(j + 1)) && !fires_180(
            h.take(j + 1),
        )
}

proof fn lemma_last_symbols_push(s: Seq<u8>, x: u8, k: nat)
    requires
        1 <= k,
        k - 1 <= s.len(),
    ensures
        last_symbols(s.push(x), k) == last_symbols(s, (k - 1) as nat).push(x),
{
    assert(last_symbols(s.push(x), k) =~= last_symbols(s, (k - 1) as nat).push(x));
}

proof fn lemma_shown_180_tail(h: Seq<u8>, k: nat)
    requires
        k <= h.len(),
        quiet_plus90(h, k),
    ensures
        shown_180(h).len() >= k,
        last_symbols(shown_180(h), k) == last_symbols(h, k),
    decreases k,
{
    if k == 0 {
        assert(last_symbols(shown_180(h), 0) =~= Seq::<u8>::empty());
        assert(last_symbols(h, 0) =~= Seq::<u8>::empty());
    } else {
        let t = h.drop_last();
        assert(h.take(h.len() as int) =~= h);
        assert(!fires_plus90(h.take(h.len() - 1 + 1)));
        assert(quiet_plus90(t, (k - 1) as nat)) by {
            assert forall|j: int| t.len() - (k - 1) <= j < t.len() implies !#[trigger] fires_plus90(
                t.take(j + 1),
            ) by {
                assert(t.take(j + 1) =~= h.take(j + 1));
                assert(!fires_plus90(h.take(j + 1)));
            }
        }
        lemma_shown_180_tail(t, (k - 1) as nat);
        lemma_last_symbols_push(shown_180(t), h.last(), k);
        lemma_last_symbols_push(t, h.last(), k);
        assert(t.push(h.last()) =~= h);
    }
}

proof fn lemma_shown_minus90_tail(h: Seq<u8>, k: nat)
    requires
        k <= h.len(),
        quiet_earlier(h, k),
    ensures
        shown_minus90(h).len() >= k,
        last_symbols(shown_minus90(h), k) == last_symbols(h, k),
    decreases k,
{
    if k == 0 {
        assert(last_symbols(shown_minus90(h), 0) =~= Seq::<u8>::empty());
        assert(last_symbols(h, 0) =~= Seq::<u8>::empty());
    } else {
        let t = h.drop_last();
        assert(h.take(h.len() as int) =~= h);
        assert(!fires_plus90(h.take(h.len() - 1 + 1)) && !fires_180(h.take(h.len() - 1 + 1)));
        assert(quiet_earlier(t, (k - 1) as nat)) by {
            assert forall|j: int| t.len() - (k - 1) <= j < t.len() implies !#[trigger] fires_plus90(
                t.take(j + 1),
            ) && !fires_180(t.take(j + 1)) by {
                assert(t.take(j + 1) =~= h.take(j + 1));
                assert(!fires_plus90(h.take(j + 1)) && !fires_180(h.take(j + 1)));
            }
        }
        lemma_shown_minus90_tail(t, (k - 1) as nat);
        lemma_last_symbols_push(shown_minus90(t), h.last(), k);
        lemma_last_symbols_push(t, h.last(), k);
        assert(t.push(h.last()) =~= h);
    }
}

/// Law: a symbol stage started empty and fed dibits reports a 180 degree
/// error on the last symbol exactly when the last 24 symbols spell the 180
/// sync word, provided the +90 sink fired on none of those 24 symbols.
pub proof fn lemma_plus180_on_window(h: Seq<u8>)
    requires
        all_dibits(h),
        h.len() >= 24,
        quiet_plus90(h, 24),
    ensures
        (phase_run(seq![0int, 0int, 0int], h).1 == phase_run(
            seq![0int, 0int, 0int],
            h.drop_last(),
        ).1.push(PhaseShift::Plus180)) <==> base4(last_symbols(h, 24)) == SYNC_180,
{
    lemma_stage_is_three_sinks(h);
    lemma_stage_is_three_sinks(h.drop_last());
    lemma_shown_180_tail(h, 24);
    lemma_sinks_fire_on_windows(h);
    assert(h.take(h.len() as int) =~= h);
    assert(!fires_plus90(h.take(h.len() - 1 + 1)));
    lemma_reported_last(h);
}

/// Law: a symbol stage started empty and fed dibits reports a -90 degree
/// error on the last symbol exactly when the last 24 symbols spell the -90
/// sync word, provided no earlier sink fired on any of those 24 symbols.
pub proof fn lemma_minus90_on_window(h: Seq<u8>)
    requires
        all_dibits(h),
        h.len() >= 24,
        quiet_earlier(h, 24),
    ensures
        (phase_run(seq![0int, 0int, 0int], h).1 == phase_run(
            seq![0int, 0int, 0int],
            h.drop_last(),
        ).1.push(PhaseShift::Minus90)) <==> base4(last_symbols(h, 24)) == SYNC__90,
{
    lemma_stage_is_three_sinks(h);
    lemma_stage_is_three_sinks(h.drop_last());
    lemma_shown_minus90_tail(h, 24);
    lemma_sinks_fire_on_windows(h);
    assert(h.take(h.len() as int) =~= h);
    assert(!fires_plus90(h.take(h.len() - 1 + 1)) && !fires_180(h.take(h.len() - 1 + 1)));
    lemma_reported_last(h);
}

/// What the last symbol adds to the reported corrections.
proof fn lemma_reported_last(h: Seq<u8>)
    requires
        h.len() > 0,
    ensures
        reported(h) == reported(h.drop_last()).push(PhaseShift::Plus90) <==> fires_plus90(h),
        reported(h) == reported(h.drop_last()).push(PhaseShift::Plus180) <==> fires_180(h),
        reported(h) == reported(h.drop_last()).push(PhaseShift::Minus90) <==> fires_minus90(h),
{
    let t = reported(h.drop_last());
    if !fires_plus90(h) && !fires_180(h) && !fires_minus90(h) {
        assert(t.push(PhaseShift::Plus90).len() != t.len());
        assert(t.push(PhaseShift::Plus180).len() != t.len());
        assert(t.push(PhaseShift::Minus90).len() != t.len());
    } else {
        assert(t.push(PhaseShift::Plus90)[t.len() as int] == PhaseShift::Plus90);
        assert(t.push(PhaseShift::Plus180)[t.len() as int] == PhaseShift::Plus180);
        assert(t.push(PhaseShift::Minus90)[t.len() as int] == PhaseShift::Minus90);
    }
}

/// The symbol stage of the P25 demodulator: the symbol buffer of the block
/// and the three sinks that watch for a rotated frame sync.
pub struct P25Demod {
    buf_symbols: Vec<u8>,
    syncs: Vec<SyncSink>,
}

/// The registers of the three sinks, in the order they are asked, and the
/// symbol buffer.
pub struct P25DemodView {
    pub registers: Seq<int>,
    pub symbols: Seq<u8>,
}

impl View for P25Demod {
    type V = P25DemodView;

    closed spec fn view(&self) -> P25DemodView {
        P25DemodView {
            registers: self.syncs@.map_values(|s: SyncSink| s@.bits as int),
            symbols: self.buf_symbols@,
        }
    }
}

impl P25Demod {
    /// The three sinks look for the rotated sync words, in order, over 48 bits.
    pub closed spec fn wf(&self) -> bool {
        &&& self.syncs@.len() == 3
        &&& forall|i: int|
            0 <= i < 3 ==> (#[trigger] self.syncs@[i])@.sync == sink_sync(i) && self.syncs@[i]@.len
                == SYNC_LEN as nat
    }

    /// A well-formed symbol stage has three registers, one per sink.
    pub proof fn lemma_wf_registers(&self)
        requires
            self.wf(),
        ensures
            self@.registers.len() == 3,
    {
    }

    /// A symbol stage with an empty buffer and empty sync registers.
    pub fn new() -> (d: P25Demod)
        ensures
            d.wf(),
            d@.registers == seq![0int, 0int, 0int],
            d@.symbols == Seq::<u8>::empty(),
    {
        let mut syncs: Vec<SyncSink> = Vec::new();
        syncs.push(SyncSink::new(SYNC_90, SYNC_LEN));
        syncs.push(SyncSink::new(SYNC_180, SYNC_LEN));
        syncs.push(SyncSink::new(SYNC__90, SYNC_LEN));
        let d = P25Demod { buf_symbols: Vec::new(), syncs };
        assert(d@.registers =~= seq![0int, 0int, 0int]);
        d
    }

    /// Makes the symbol buffer `len` symbols long, all zero.
    pub fn size_buf(&mut self, len: usize)
        requires
            old(self).wf(),
        ensures
            final(self).wf(),
            final(self)@.symbols == Seq::new(len as nat, |i: int| 0u8),
            final(self)@.registers == old(self)@.registers,
    {
        let mut buf: Vec<u8> = Vec::new();
        let mut i: usize = 0;
        while i < len
            invariant
                i <= len,
                buf@ == Seq::new(i as nat, |j: int| 0u8),
            decreases len - i,
        {
            buf.push(0u8);
            i = i + 1;
            assert(buf@ =~= Seq::new(i as nat, |j: int| 0u8));
        }
        self.buf_symbols = buf;
    }

    /// Feeds one symbol to the sinks and reports the correction it reveals.
    pub fn correct_phase(&mut self, symbol: u8) -> (r: Option<PhaseShift>)
        requires
            old(self).wf(),
        ensures
            final(self).wf(),
            (final(self)@.registers, r) == phase_step(old(self)@.registers, symbol),
            final(self)@.symbols == old(self)@.symbols,
    {
        if self.syncs[0].next(symbol) {
            Some(PhaseShift::Plus90)
        } else if self.syncs[1].next(symbol) {
            Some(PhaseShift::Plus180)
        } else if self.syncs[2].next(symbol) {
            Some(PhaseShift::Minus90)
        } else {
            None
        }
    }

    /// Takes one block of symbols: stores them at the front of the symbol
    /// buffer and feeds them to the sinks in order. Returns the corrections
    /// they revealed, in order.
    pub fn next_block(&mut self, symbols: &[u8]) -> (shifts: Vec<PhaseShift>)
        requires
            old(self).wf(),
            symbols@.len() <= old(self)@.symbols.len(),
        ensures
            final(self).wf(),
            final(self)@.symbols == symbols@ + old(self)@.symbols.subrange(
                symbols@.len() as int,
                old(self)@.symbols.len() as int,
            ),
            (final(self)@.registers, shifts@) == phase_run(old(self)@.registers, symbols@),
    {
        let mut shifts: Vec<PhaseShift> = Vec::new();
        let n = symbols.len();
        let mut i: usize = 0;
        while i < n
            invariant
                n == symbols@.len(),
                i <= n,
                n <= self@.symbols.len(),
                self@.symbols.len() == old(self)@.symbols.len(),
                self.wf(),
                self@.symbols == symbols@.take(i as int) + old(self)@.symbols.subrange(
                    i as int,
                    old(self)@.symbols.len() as int,
                ),
                (self@.registers, shifts@) == phase_run(old(self)@.registers, symbols@.take(i as int)),
            decreases n - i,
        {
            let symbol = symbols[i];
            self.buf_symbols.set(i, symbol);
            let r = self.correct_phase(symbol);
            match r {
                Some(p) => shifts.push(p),
                None => {},
            }
            proof {
                let t = symbols@.take(i + 1);
                assert(t.drop_last() =~= symbols@.take(i as int));
                assert(t.last() == symbol);
            }
            i = i + 1;
            assert(self@.symbols =~= symbols@.take(i as int) + old(self)@.symbols.subrange(
                i as int,
                old(self)@.symbols.len() as int,
            ));
        }
        assert(symbols@.take(n as int) =~= symbols@);
        shifts
    }

    /// The symbol buffer.
    pub fn buf_symbols(&self) -> (b: &[u8])
        ensures
            b@ == self@.symbols,
    {
        self.buf_symbols.as_slice()
    }
}

} // verus!
