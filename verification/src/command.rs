use vstd::prelude::*;

verus! {

// ---------------------------------------------------------------------------
// Fields
// ---------------------------------------------------------------------------

/// The byte `,`.
pub const COMMA: u8 = 44;

/// The byte `+`.
pub const PLUS: u8 = 43;

/// The byte `-`.
pub const MINUS: u8 = 45;

/// The fields of a line, split at every comma (a line without a comma is one
/// field; two commas in a row leave an empty field between them).
pub open spec fn split_fields(s: Seq<u8>) -> Seq<Seq<u8>>
    decreases s.len(),
{
    if s.len() == 0 {
        seq![Seq::<u8>::empty()]
    } else {
        let prev = split_fields(s.drop_last());
        if s.last() == COMMA {
            prev.push(Seq::<u8>::empty())
        } else {
            prev.update(prev.len() - 1, prev.last().push(s.last()))
        }
    }
}

proof fn lemma_split_fields_nonempty(s: Seq<u8>)
    ensures
        split_fields(s).len() >= 1,
    decreases s.len(),
{
    if s.len() > 0 {
        lemma_split_fields_nonempty(s.drop_last());
    }
}

/// The views of a list of byte vectors.
pub open spec fn views(v: Seq<Vec<u8>>) -> Seq<Seq<u8>> {
    v.map_values(|b: Vec<u8>| b@)
}

/// The fields of `line`, split at every comma.
pub fn split_fields_exec(line: &[u8]) -> (fields: Vec<Vec<u8>>)
    ensures
        views(fields@) == split_fields(line@),
{
    let mut done: Vec<Vec<u8>> = Vec::new();
    let mut cur: Vec<u8> = Vec::new();
    let mut i: usize = 0;
    while i < line.len()
        invariant
            i <= line@.len(),
            split_fields(line@.take(i as int)) == views(done@).push(cur@),
        decreases line@.len() - i,
    {
        let b = line[i];
        proof {
            let t = line@.take(i + 1);
            assert(t.drop_last() =~= line@.take(i as int));
            assert(t.last() == b);
            lemma_split_fields_nonempty(line@.take(i as int));
        }
        if b == COMMA {
            let ghost old_done = done@;
            let full = cur;
            done.push(full);
            cur = Vec::new();
            assert(views(done@) =~= views(old_done).push(full@));
            assert(views(done@).push(cur@) =~= views(old_done).push(full@).push(Seq::<u8>::empty()));
        } else {
            let ghost old_cur = cur@;
            cur.push(b);
            assert(views(done@).push(cur@) =~= views(done@).push(old_cur).update(
                views(done@).len() as int,
                old_cur.push(b),
            ));
        }
        i = i + 1;
    }
    assert(line@.take(i as int) =~= line@);
    let ghost old_done = done@;
    done.push(cur);
    assert(views(done@) =~= views(old_done).push(cur@));
    done
}

// ---------------------------------------------------------------------------
// Decimal numbers
// ---------------------------------------------------------------------------

/// A decimal digit.
pub open spec fn is_digit(b: u8) -> bool {
    48 <= b <= 57
}

/// Every byte of `s` is a decimal digit.
pub open spec fn all_digits(s: Seq<u8>) -> bool {
    forall|i: int| 0 <= i < s.len() ==> is_digit(#[trigger] s[i])
}

/// The number that a run of decimal digits spells.
pub open spec fn digits_value(s: Seq<u8>) -> nat
    decreases s.len(),
{
    if s.len() == 0 {
        0
    } else {
        digits_value(s.drop_last()) * 10 + (s.last() - 48) as nat
    }
}

/// The digits of `s` after an optional leading `+`.
pub open spec fn unsigned_digits(s: Seq<u8>) -> Seq<u8> {
    if s.len() > 0 && s[0] == PLUS {
        s.drop_first()
    } else {
        s
    }
}

/// An unsigned integer in text, as the standard library reads one: an
/// optional `+`, then at least one decimal digit and nothing else, with a
/// value of at most `max`.
pub open spec fn unsigned_value(s: Seq<u8>, max: nat) -> Option<nat> {
    let d = unsigned_digits(s);
    if d.len() > 0 && all_digits(d) && digits_value(d) <= max {
        Some(digits_value(d))
    } else {
        None
    }
}

/// A signed integer in text, as the standard library reads one: an optional
/// `+` or `-`, then at least one decimal digit and nothing else, with a value
/// from `-(max + 1)` to `max`.
pub open spec fn signed_value(s: Seq<u8>, max: nat) -> Option<int> {
    if s.len() > 0 && s[0] == MINUS {
        let d = s.drop_first();
        if d.len() > 0 && all_digits(d) && digits_value(d) <= max + 1 {
            Some(-(digits_value(d) as int))
        } else {
            None
        }
    } else {
        match unsigned_value(s, max) {
            Some(v) => Some(v as int),
            None => None,
        }
    }
}

proof fn lemma_digits_value_grows(s: Seq<u8>, k: int)
    requires
        all_digits(s),
        0 <= k <= s.len(),
    ensures
        digits_value(s.take(k)) <= digits_value(s),
    decreases s.len() - k,
{
    if k < s.len() {
        let t = s.take(k + 1);
        assert(t.drop_last() =~= s.take(k));
        lemma_digits_value_grows(s, k + 1);
    } else {
        assert(s.take(k) =~= s);
    }
}

/// The value of the digits of `s` from `start` on, if they are all digits,
/// there is at least one, and the value is at most `max`.
fn parse_digits(s: &[u8], start: usize, max: u64) -> (r: Option<u64>)
    requires
        start <= s@.len(),
    ensures
        ({
            let d = s@.subrange(start as int, s@.len() as int);
            match r {
                Some(v) => d.len() > 0 && all_digits(d) && digits_value(d) <= max && v
                    == digits_value(d),
                None => !(d.len() > 0 && all_digits(d) && digits_value(d) <= max),
            }
        }),
{
    let ghost d = s@.subrange(start as int, s@.len() as int);
    if start == s.len() {
        return None;
    }
    let mut v: u64 = 0;
    let mut i: usize = start;
    while i < s.len()
        invariant
            start <= i <= s@.len(),
            d == s@.subrange(start as int, s@.len() as int),
            all_digits(d.take(i - start)),
            v == digits_value(d.take(i - start)),
            v <= max,
        decreases s@.len() - i,
    {
        let b = s[i];
        proof {
            let t = d.take(i - start + 1);
            assert(t.drop_last() =~= d.take(i - start));
            assert(t.last() == b);
        }
        if b < 48 || b > 57 {
            assert(!all_digits(d)) by {
                assert(d[i - start] == b);
            }
            return None;
        }
        let digit: u64 = (b - 48) as u64;
        if digit > max || v > (max - digit) / 10 {
            proof {
                assert(v * 10 + digit > max) by (nonlinear_arith)
                    requires
                        digit > max || v > (max - digit) / 10,
                        0 <= digit,
                        0 <= v,
                ;
                assert(digits_value(d.take(i - start + 1)) > max);
                if all_digits(d) {
                    lemma_digits_value_grows(d, i - start + 1);
                }
            }
            return None;
        }
        proof {
            assert(v * 10 + digit <= max) by (nonlinear_arith)
                requires
                    v <= (max - digit) / 10,
                    digit <= max,
            ;
        }
        v = v * 10 + digit;
        i = i + 1;
        assert(all_digits(d.take(i - start))) by {
            assert forall|j: int| 0 <= j < (i - start) implies is_digit(
                #[trigger] d.take(i - start)[j],
            ) by {
                if j < i - start - 1 {
                    assert(d.take(i - start)[j] == d.take(i - start - 1)[j]);
                }
            }
        }
    }
    assert(d.take(i - start) =~= d);
    Some(v)
}

/// Reads an unsigned number from text with the standard library's grammar
/// for unsigned integers, refusing values above `max`.
fn parse_unsigned(s: &[u8], max: u64) -> (r: Option<u64>)
    ensures
        match r {
            Some(v) => unsigned_value(s@, max as nat) == Some(v as nat),
            None => unsigned_value(s@, max as nat) is None,
        },
{
    if s.len() > 0 && s[0] == PLUS {
        assert(s@.drop_first() =~= s@.subrange(1, s@.len() as int));
        parse_digits(s, 1, max)
    } else {
        assert(s@ =~= s@.subrange(0, s@.len() as int));
        parse_digits(s, 0, max)
    }
}

/// Reads a `u32` as `str::parse::<u32>` does.
pub fn parse_u32(s: &[u8]) -> (r: Option<u32>)
    ensures
        match r {
            Some(v) => unsigned_value(s@, u32::MAX as nat) == Some(v as nat),
            None => unsigned_value(s@, u32::MAX as nat) is None,
        },
{
    match parse_unsigned(s, u32::MAX as u64) {
        Some(v) => Some(v as u32),
        None => None,
    }
}

/// Reads a `usize` as `str::parse::<usize>` does.
pub fn parse_usize(s: &[u8]) -> (r: Option<usize>)
    ensures
        match r {
            Some(v) => unsigned_value(s@, usize::MAX as nat) == Some(v as nat),
            None => unsigned_value(s@, usize::MAX as nat) is None,
        },
{
    match parse_unsigned(s, usize::MAX as u64) {
        Some(v) => Some(v as usize),
        None => None,
    }
}

/// Reads an `i32` as `str::parse::<i32>` does.
pub fn parse_i32(s: &[u8]) -> (r: Option<i32>)
    ensures
        match r {
            Some(v) => signed_value(s@, i32::MAX as nat) == Some(v as int),
            None => signed_value(s@, i32::MAX as nat) is None,
        },
{
    if s.len() > 0 && s[0] == MINUS {
        assert(s@.drop_first() =~= s@.subrange(1, s@.len() as int));
        match parse_digits(s, 1, 0x8000_0000u64) {
            Some(v) => {
                let n: i64 = 0i64 - (v as i64);
                Some(n as i32)
            },
            None => None,
        }
    } else {
        match parse_unsigned(s, i32::MAX as u64) {
            Some(v) => Some(v as i32),
            None => None,
        }
    }
}

/// The decimal digits of `n`, most significant first, without leading zeros.
pub open spec fn decimal(n: nat) -> Seq<u8>
    decreases n,
{
    if n < 10 {
        seq![(48 + n) as u8]
    } else {
        decimal(n / 10).push((48 + n % 10) as u8)
    }
}

/// `v` in decimal, with a `-` in front when it is negative.
pub open spec fn signed_decimal(v: int) -> Seq<u8> {
    if v < 0 {
        seq![MINUS] + decimal((-v) as nat)
    } else {
        decimal(v as nat)
    }
}

/// Appends `n` in decimal.
fn push_decimal(out: &mut Vec<u8>, n: u64)
    ensures
        final(out)@ == old(out)@ + decimal(n as nat),
    decreases n,
{
    if n >= 10 {
        push_decimal(out, n / 10);
    }
    let digit: u8 = (n % 10) as u8;
    out.push(48u8 + digit);
    proof {
        if n >= 10 {
            assert(decimal(n as nat) == decimal((n / 10) as nat).push((48 + n % 10) as u8));
        } else {
            assert(decimal(n as nat) == seq![(48 + n) as u8]);
        }
    }
    assert(final(out)@ =~= old(out)@ + decimal(n as nat));
}

/// Appends `v` in decimal, with a `-` when it is negative.
fn push_signed(out: &mut Vec<u8>, v: i32)
    ensures
        final(out)@ == old(out)@ + signed_decimal(v as int),
{
    if v < 0 {
        out.push(MINUS);
        let magnitude: u64 = (0i64 - v as i64) as u64;
        push_decimal(out, magnitude);
        assert(final(out)@ =~= old(out)@ + (seq![MINUS] + decimal((-v) as nat)));
    } else {
        push_decimal(out, v as u64);
    }
}

/// Appends the bytes of `s`.
fn push_bytes(out: &mut Vec<u8>, s: &[u8])
    ensures
        final(out)@ == old(out)@ + s@,
{
    let mut i: usize = 0;
    while i < s.len()
        invariant
            i <= s@.len(),
            out@ == old(out)@ + s@.take(i as int),
        decreases s@.len() - i,
    {
        out.push(s[i]);
        i = i + 1;
        assert(out@ =~= old(out)@ + s@.take(i as int));
    }
    assert(s@.take(i as int) =~= s@);
}

// ---------------------------------------------------------------------------
// Commands
// ---------------------------------------------------------------------------

/// The bytes of `tune`.
pub open spec fn tune_word() -> Seq<u8> {
    seq![116u8, 117u8, 110u8, 101u8]
}

/// The bytes of `demod`.
pub open spec fn demod_word() -> Seq<u8> {
    seq![100u8, 101u8, 109u8, 111u8, 100u8]
}

/// A command read from the control input.
#[derive(Debug, PartialEq, Eq)]
pub enum Command {
    /// Move the tuner to `freq` Hz and acknowledge with `nonce`.
    Tune { freq: u32, nonce: i32 },
    /// Demodulate the channel `channel` at `offset` Hz from the tuner's
    /// center frequency into the file `output`, and acknowledge with `nonce`.
    Demod { channel: usize, offset: i32, output: Vec<u8>, nonce: i32 },
}

/// What a `Command` means.
pub enum CommandSpec {
    Tune { freq: u32, nonce: i32 },
    Demod { channel: usize, offset: i32, output: Seq<u8>, nonce: i32 },
}

impl View for Command {
    type V = CommandSpec;

    open spec fn view(&self) -> CommandSpec {
        match self {
            Command::Tune { freq, nonce } => CommandSpec::Tune { freq: *freq, nonce: *nonce },
            Command::Demod { channel, offset, output, nonce } => CommandSpec::Demod {
                channel: *channel,
                offset: *offset,
                output: output@,
                nonce: *nonce,
            },
        }
    }
}

/// Why a control line is refused.
#[derive(Clone, Copy, Debug, PartialEq, Eq, Structural)]
pub enum CommandError {
    /// The first field is neither `tune` nor `demod`.
    UnknownCommand,
    /// A field that the command needs is not there.
    MissingField,
    /// A field that should hold a number does not.
    BadNumber,
}

/// The meaning of a control line: `tune,<freq>,<nonce>` or
/// `demod,<channel>,<offset>,<output>,<nonce>`. Fields beyond these are
/// ignored; the fields are read in order and the first one that is missing
/// or not a number decides the error.
pub open spec fn command_spec(line: Seq<u8>) -> Result<CommandSpec, CommandError> {
    let f = split_fields(line);
    if f[0] == tune_word() {
        if f.len() < 2 {
            Err(CommandError::MissingField)
        } else {
            match unsigned_value(f[1], u32::MAX as nat) {
                None => Err(CommandError::BadNumber),
                Some(freq) => if f.len() < 3 {
                    Err(CommandError::MissingField)
                } else {
                    match signed_value(f[2], i32::MAX as nat) {
                        None => Err(CommandError::BadNumber),
                        Some(nonce) => Ok(CommandSpec::Tune { freq: freq as u32, nonce: nonce as i32 }),
                    }
                },
            }
        }
    } else if f[0] == demod_word() {
        if f.len() < 2 {
            Err(CommandError::MissingField)
        } else {
            match unsigned_value(f[1], usize::MAX as nat) {
                None => Err(CommandError::BadNumber),
                Some(channel) => if f.len() < 3 {
                    Err(CommandError::MissingField)
                } else {
                    match signed_value(f[2], i32::MAX as nat) {
                        None => Err(CommandError::BadNumber),
                        Some(offset) => if f.len() < 5 {
                            Err(CommandError::MissingField)
                        } else {
                            match signed_value(f[4], i32::MAX as nat) {
                                None => Err(CommandError::BadNumber),
                                Some(nonce) => Ok(
                                    CommandSpec::Demod {
                                        channel: channel as usize,
                                        offset: offset as i32,
                                        output: f[3],
                                        nonce: nonce as i32,
                                    },
                                ),
                            }
                        },
                    }
                },
            }
        }
    } else {
        Err(CommandError::UnknownCommand)
    }
}

fn is_word(field: &[u8], word: &[u8]) -> (r: bool)
    ensures
        r == (field@ == word@),
{
    if field.len() != word.len() {
        return false;
    }
    let mut i: usize = 0;
    while i < field.len()
        invariant
            i <= field@.len(),
            field@.len() == word@.len(),
            field@.take(i as int) == word@.take(i as int),
        decreases field@.len() - i,
    {
        if field[i] != word[i] {
            assert(field@[i as int] != word@[i as int]);
            return false;
        }
        i = i + 1;
        assert(field@.take(i as int) =~= word@.take(i as int)) by {
            assert forall|j: int| 0 <= j < i implies field@.take(i as int)[j] == word@.take(
                i as int,
            )[j] by {
                if j < i - 1 {
                    assert(field@.take(i - 1)[j] == word@.take(i - 1)[j]);
                }
            }
        }
    }
    assert(field@.take(i as int) =~= field@);
    assert(word@.take(i as int) =~= word@);
    true
}

/// Reads one control line (without its line end).
pub fn parse_command(line: &[u8]) -> (r: Result<Command, CommandError>)
    ensures
        match r {
            Ok(c) => command_spec(line@) == Ok::<CommandSpec, CommandError>(c@),
            Err(e) => command_spec(line@) == Err::<CommandSpec, CommandError>(e),
        },
{
    let f = split_fields_exec(line);
    proof {
        lemma_split_fields_nonempty(line@);
        assert(views(f@).len() == f@.len());
        assert forall|k: int| 0 <= k < f@.len() implies #[trigger] views(f@)[k] == f@[k]@ by {}
    }
    let tune: [u8; 4] = [116u8, 117u8, 110u8, 101u8];
    let demod: [u8; 5] = [100u8, 101u8, 109u8, 111u8, 100u8];
    assert(tune@ =~= tune_word());
    assert(demod@ =~= demod_word());
    if is_word(f[0].as_slice(), tune.as_slice()) {
        if f.len() < 2 {
            return Err(CommandError::MissingField);
        }
        let freq = match parse_u32(f[1].as_slice()) {
            Some(v) => v,
            None => return Err(CommandError::BadNumber),
        };
        if f.len() < 3 {
            return Err(CommandError::MissingField);
        }
        let nonce = match parse_i32(f[2].as_slice()) {
            Some(v) => v,
            None => return Err(CommandError::BadNumber),
        };
        Ok(Command::Tune { freq, nonce })
    } else if is_word(f[0].as_slice(), demod.as_slice()) {
        if f.len() < 2 {
            return Err(CommandError::MissingField);
        }
        let channel = match parse_usize(f[1].as_slice()) {
            Some(v) => v,
            None => return Err(CommandError::BadNumber),
        };
        if f.len() < 3 {
            return Err(CommandError::MissingField);
        }
        let offset = match parse_i32(f[2].as_slice()) {
            Some(v) => v,
            None => return Err(CommandError::BadNumber),
        };
        if f.len() < 5 {
            return Err(CommandError::MissingField);
        }
        let nonce = match parse_i32(f[4].as_slice()) {
            Some(v) => v,
            None => return Err(CommandError::BadNumber),
        };
        let output = f[3].clone();
        Ok(Command::Demod { channel, offset, output, nonce })
    } else {
        Err(CommandError::UnknownCommand)
    }
}

// ---------------------------------------------------------------------------
// Replies
// ---------------------------------------------------------------------------

/// The byte `\n`.
pub const NEWLINE: u8 = 10;

/// The bytes of `ok,`.
pub open spec fn ok_prefix() -> Seq<u8> {
    seq![111u8, 107u8, COMMA]
}

/// The acknowledgement of a tune command: `ok,<freq>,<nonce>` and a newline.
pub open spec fn tune_ack_spec(freq: u32, nonce: i32) -> Seq<u8> {
    ok_prefix() + decimal(freq as nat) + seq![COMMA] + signed_decimal(nonce as int) + seq![NEWLINE]
}

/// The acknowledgement of a demod command: `ok,<nonce>` and a newline.
pub open spec fn demod_ack_spec(nonce: i32) -> Seq<u8> {
    ok_prefix() + signed_decimal(nonce as int) + seq![NEWLINE]
}

/// The line that moves the tuner process to `freq`: `-f <freq>` and a
/// newline.
pub open spec fn tune_request_spec(freq: u32) -> Seq<u8> {
    seq![MINUS, 102u8, 32u8] + decimal(freq as nat) + seq![NEWLINE]
}

/// The acknowledgement of a tune command.
pub fn tune_ack(freq: u32, nonce: i32) -> (ack: Vec<u8>)
    ensures
        ack@ == tune_ack_spec(freq, nonce),
{
    let mut out: Vec<u8> = Vec::new();
    let prefix: [u8; 3] = [111u8, 107u8, COMMA];
    assert(prefix@ =~= ok_prefix());
    push_bytes(&mut out, prefix.as_slice());
    push_decimal(&mut out, freq as u64);
    out.push(COMMA);
    push_signed(&mut out, nonce);
    out.push(NEWLINE);
    assert(out@ =~= tune_ack_spec(freq, nonce));
    out
}

/// The acknowledgement of a demod command.
pub fn demod_ack(nonce: i32) -> (ack: Vec<u8>)
    ensures
        ack@ == demod_ack_spec(nonce),
{
    let mut out: Vec<u8> = Vec::new();
    let prefix: [u8; 3] = [111u8, 107u8, COMMA];
    assert(prefix@ =~= ok_prefix());
    push_bytes(&mut out, prefix.as_slice());
    push_signed(&mut out, nonce);
    out.push(NEWLINE);
    assert(out@ =~= demod_ack_spec(nonce));
    out
}

/// The line that moves the tuner process to `freq`.
pub fn tune_request(freq: u32) -> (line: Vec<u8>)
    ensures
        line@ == tune_request_spec(freq),
{
    let mut out: Vec<u8> = Vec::new();
    out.push(MINUS);
    out.push(102u8);
    out.push(32u8);
    push_decimal(&mut out, freq as u64);
    out.push(NEWLINE);
    assert(out@ =~= tune_request_spec(freq));
    out
}

proof fn lemma_decimal_digits(n: nat)
    ensures
        decimal(n).len() > 0,
        all_digits(decimal(n)),
        digits_value(decimal(n)) == n,
    decreases n,
{
    if n >= 10 {
        lemma_decimal_digits(n / 10);
        let d = decimal(n);
        assert(d.drop_last() =~= decimal(n / 10));
        assert(d.last() == (48 + n % 10) as u8);
        assert((n / 10) * 10 + n % 10 == n) by (nonlinear_arith);
        assert(digits_value(d) == digits_value(d.drop_last()) * 10 + (d.last() - 48) as nat);
        assert forall|i: int| 0 <= i < d.len() implies is_digit(#[trigger] d[i]) by {
            if i < d.len() - 1 {
                assert(d[i] == decimal(n / 10)[i]);
            }
        }
    } else {
        let d = decimal(n);
        assert(d.drop_last() =~= Seq::<u8>::empty());
        assert(digits_value(d) == digits_value(d.drop_last()) * 10 + (d.last() - 48) as nat);
    }
}

/// Law: a number written in decimal reads back as itself.
pub proof fn lemma_unsigned_roundtrip(n: nat, max: nat)
    requires
        n <= max,
    ensures
        unsigned_value(decimal(n), max) == Some(n),
{
    lemma_decimal_digits(n);
    assert(is_digit(decimal(n)[0]));
    assert(unsigned_digits(decimal(n)) == decimal(n));
}

/// Law: a signed number written in decimal reads back as itself.
pub proof fn lemma_signed_roundtrip(v: int, max: nat)
    requires
        -(max + 1) <= v <= max,
    ensures
        signed_value(signed_decimal(v), max) == Some(v),
{
    if v < 0 {
        let m = (-v) as nat;
        lemma_decimal_digits(m);
        let s = signed_decimal(v);
        assert(s.drop_first() =~= decimal(m));
        assert(s[0] == MINUS);
    } else {
        lemma_unsigned_roundtrip(v as nat, max);
        lemma_decimal_digits(v as nat);
        assert(is_digit(decimal(v as nat)[0]));
    }
}

/// Law: a number above the range is refused, written with or without a
/// leading `+`, and a number in the range may carry a leading `+`.
pub proof fn lemma_unsigned_range(n: nat, max: nat)
    ensures
        n > max ==> unsigned_value(decimal(n), max) is None,
        n > max ==> unsigned_value(seq![PLUS] + decimal(n), max) is None,
        n <= max ==> unsigned_value(seq![PLUS] + decimal(n), max) == Some(n),
{
    lemma_decimal_digits(n);
    assert(is_digit(decimal(n)[0]));
    assert(unsigned_digits(decimal(n)) == decimal(n));
    assert((seq![PLUS] + decimal(n)).drop_first() =~= decimal(n));
    assert(unsigned_digits(seq![PLUS] + decimal(n)) == decimal(n));
}

/// Law: a signed number outside `-(max + 1) ..= max` is refused.
pub proof fn lemma_signed_range(v: int, max: nat)
    ensures
        (v > max || v < -(max + 1)) ==> signed_value(signed_decimal(v), max) is None,
{
    if v < 0 {
        let m = (-v) as nat;
        lemma_decimal_digits(m);
        let s = signed_decimal(v);
        assert(s.drop_first() =~= decimal(m));
        assert(s[0] == MINUS);
    } else {
        lemma_unsigned_range(v as nat, max);
        lemma_decimal_digits(v as nat);
        assert(is_digit(decimal(v as nat)[0]));
    }
}

/// No byte of `t` is a comma.
pub open spec fn comma_free(t: Seq<u8>) -> bool {
    forall|i: int| 0 <= i < t.len() ==> #[trigger] t[i] != COMMA
}

proof fn lemma_split_comma_free(t: Seq<u8>)
    requires
        comma_free(t),
    ensures
        split_fields(t) == seq![t],
    decreases t.len(),
{
    if t.len() > 0 {
        let u = t.drop_last();
        assert(comma_free(u)) by {
            assert forall|i: int| 0 <= i < u.len() implies #[trigger] u[i] != COMMA by {
                assert(u[i] == t[i]);
            }
        }
        lemma_split_comma_free(u);
        assert(t.last() != COMMA) by {
            assert(t[t.len() - 1] != COMMA);
        }
        assert(u.push(t.last()) =~= t);
        assert(seq![u].update(0, u.push(t.last())) =~= seq![t]);
    } else {
        assert(t =~= Seq::<u8>::empty());
    }
}

proof fn lemma_split_append_field(s: Seq<u8>, t: Seq<u8>)
    requires
        comma_free(t),
    ensures
        split_fields(s + seq![COMMA] + t) == split_fields(s).push(t),
    decreases t.len(),
{
    let w = s + seq![COMMA] + t;
    if t.len() == 0 {
        assert(w.drop_last() =~= s);
        assert(w.last() == COMMA);
        assert(t =~= Seq::<u8>::empty());
    } else {
        let u = t.drop_last();
        assert(comma_free(u)) by {
            assert forall|i: int| 0 <= i < u.len() implies #[trigger] u[i] != COMMA by {
                assert(u[i] == t[i]);
            }
        }
        lemma_split_append_field(s, u);
        assert(w.drop_last() =~= s + seq![COMMA] + u);
        assert(w.last() == t.last());
        assert(t.last() != COMMA) by {
            assert(t[t.len() - 1] != COMMA);
        }
        lemma_split_fields_nonempty(s);
        let p = split_fields(s).push(u);
        assert(u.push(t.last()) =~= t);
        assert(p.update(p.len() - 1, u.push(t.last())) =~= split_fields(s).push(t));
    }
}

proof fn lemma_decimal_comma_free(n: nat)
    ensures
        comma_free(decimal(n)),
{
    lemma_decimal_digits(n);
    assert forall|i: int| 0 <= i < decimal(n).len() implies #[trigger] decimal(n)[i] != COMMA by {
        assert(is_digit(decimal(n)[i]));
    }
}

proof fn lemma_signed_decimal_comma_free(v: int)
    ensures
        comma_free(signed_decimal(v)),
{
    if v < 0 {
        lemma_decimal_comma_free((-v) as nat);
        let s = signed_decimal(v);
        assert forall|i: int| 0 <= i < s.len() implies #[trigger] s[i] != COMMA by {
            if i > 0 {
                assert(s[i] == decimal((-v) as nat)[i - 1]);
            }
        }
    } else {
        lemma_decimal_comma_free(v as nat);
    }
}

/// The control line `tune,<freq>,<nonce>`.
pub open spec fn tune_line(freq: u32, nonce: i32) -> Seq<u8> {
    tune_word() + seq![COMMA] + decimal(freq as nat) + seq![COMMA] + signed_decimal(nonce as int)
}

/// The control line `demod,<channel>,<offset>,<output>,<nonce>`.
pub open spec fn demod_line(channel: usize, offset: i32, output: Seq<u8>, nonce: i32) -> Seq<u8> {
    demod_word() + seq![COMMA] + decimal(channel as nat) + seq![COMMA] + signed_decimal(
        offset as int,
    ) + seq![COMMA] + output + seq![COMMA] + signed_decimal(nonce as int)
}

/// Law: every tune line, for any `u32` frequency and `i32` nonce, reads as
/// the tune command it was written from.
pub proof fn lemma_tune_line_roundtrip(freq: u32, nonce: i32)
    ensures
        command_spec(tune_line(freq, nonce)) == Ok::<CommandSpec, CommandError>(
            CommandSpec::Tune { freq, nonce },
        ),
{
    let f1 = decimal(freq as nat);
    let f2 = signed_decimal(nonce as int);
    lemma_decimal_comma_free(freq as nat);
    lemma_signed_decimal_comma_free(nonce as int);
    assert(comma_free(tune_word()));
    lemma_split_comma_free(tune_word());
    lemma_split_append_field(tune_word(), f1);
    lemma_split_append_field(tune_word() + seq![COMMA] + f1, f2);
    let f = split_fields(tune_line(freq, nonce));
    assert(f =~= seq![tune_word(), f1, f2]);
    lemma_unsigned_roundtrip(freq as nat, u32::MAX as nat);
    lemma_signed_roundtrip(nonce as int, i32::MAX as nat);
}

/// Law: every demod line, for any `usize` channel, `i32` offset and nonce,
/// and comma-free output name, reads as the demod command it was written
/// from.
pub proof fn lemma_demod_line_roundtrip(channel: usize, offset: i32, output: Seq<u8>, nonce: i32)
    requires
        comma_free(output),
    ensures
        command_spec(demod_line(channel, offset, output, nonce)) == Ok::<CommandSpec, CommandError>(
            CommandSpec::Demod { channel, offset, output, nonce },
        ),
{
    let f1 = decimal(channel as nat);
    let f2 = signed_decimal(offset as int);
    let f4 = signed_decimal(nonce as int);
    lemma_decimal_comma_free(channel as nat);
    lemma_signed_decimal_comma_free(offset as int);
    lemma_signed_decimal_comma_free(nonce as int);
    assert(comma_free(demod_word()));
    lemma_split_comma_free(demod_word());
    let p1 = demod_word() + seq![COMMA] + f1;
    let p2 = p1 + seq![COMMA] + f2;
    let p3 = p2 + seq![COMMA] + output;
    lemma_split_append_field(demod_word(), f1);
    lemma_split_append_field(p1, f2);
    lemma_split_append_field(p2, output);
    lemma_split_append_field(p3, f4);
    let f = split_fields(demod_line(channel, offset, output, nonce));
    assert(demod_line(channel, offset, output, nonce) =~= p3 + seq![COMMA] + f4);
    assert(f =~= seq![demod_word(), f1, f2, output, f4]);
    assert(demod_word() != tune_word()) by {
        assert(demod_word().len() != tune_word().len());
    }
    lemma_unsigned_roundtrip(channel as nat, usize::MAX as nat);
    lemma_signed_roundtrip(offset as int, i32::MAX as nat);
    lemma_signed_roundtrip(nonce as int, i32::MAX as nat);
}

} // verus!
