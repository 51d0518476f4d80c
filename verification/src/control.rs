use vstd::prelude::*;
use crate::command::{
    Command, demod_ack, demod_ack_spec, tune_ack, tune_ack_spec, tune_request, tune_request_spec,
};
use crate::pipeline::{Pipeline, as_signed_step, output_path};

verus! {

/// What the receiver must do to carry out a command, once its channels
/// have taken it.
pub enum Reply {
    /// Send `request` to the tuner process, then write `ack`.
    Tuned { request: Vec<u8>, ack: Vec<u8> },
    /// Open `path` for the output of channel `channel`, restart its mixer at
    /// its new offset, then write `ack`.
    Demodulating { channel: usize, path: Vec<u8>, ack: Vec<u8> },
}

/// Why a command cannot be carried out.
#[derive(Clone, Copy, Debug, PartialEq, Eq, Structural)]
pub enum ControlError {
    /// The channel index is not below the number of channels.
    NoSuchChannel,
    /// Some channel cannot follow the tuner to the new frequency (the tuner
    /// would move down, or an offset would leave the `i32` range).
    CannotRetune,
}

/// Channel `p` after the tuner moved to `freq`.
pub open spec fn retuned<S>(p: Pipeline<S>, freq: u32) -> Pipeline<S> {
    Pipeline {
        freq: freq,
        offset: (p.offset - as_signed_step(freq - p.freq)) as i32,
        ..p
    }
}

/// Law: a tune command leaves every channel on the frequency it was
/// demodulating (for a step of the tuner below 2^31 Hz, where the offset
/// arithmetic does not wrap).
pub proof fn lemma_tune_keeps_channel_frequency<S: Copy>(p: Pipeline<S>, freq: u32)
    requires
        p.can_retune(freq),
        freq - p.freq < 0x8000_0000,
    ensures
        retuned(p, freq).freq + retuned(p, freq).offset == p.freq + p.offset,
{
}

/// Applies a command to the channels of the receiver.
///
/// `tune`: every channel follows the tuner to the new frequency, or, when one
/// cannot, none does and the command is refused. `demod`: the channel named
/// takes the new offset, or the command is refused when there is no such
/// channel.
#[verifier::loop_isolation(false)]
pub fn apply_command<S: Copy>(pipes: &mut Vec<Pipeline<S>>, cmd: &Command) -> (r: Result<
    Reply,
    ControlError,
>)
    ensures
        match cmd@ {
            crate::command::CommandSpec::Tune { freq, nonce } => {
                if forall|i: int| 0 <= i < old(pipes)@.len() ==> #[trigger] old(pipes)@[i].can_retune(freq) {
                    &&& r matches Ok(Reply::Tuned { request, ack })
                    &&& request@ == tune_request_spec(freq)
                    &&& ack@ == tune_ack_spec(freq, nonce)
                    &&& final(pipes)@.len() == old(pipes)@.len()
                    &&& forall|i: int|
                        0 <= i < old(pipes)@.len() ==> #[trigger] final(pipes)@[i] == retuned(
                            old(pipes)@[i],
                            freq,
                        )
                } else {
                    &&& r == Err::<Reply, ControlError>(ControlError::CannotRetune)
                    &&& final(pipes)@ == old(pipes)@
                }
            },
            crate::command::CommandSpec::Demod { channel, offset, output, nonce } => {
                if channel < old(pipes)@.len() {
                    &&& r matches Ok(Reply::Demodulating { channel: c, path, ack })
                    &&& c == channel
                    &&& path@ == output_path(output)
                    &&& ack@ == demod_ack_spec(nonce)
                    &&& final(pipes)@ == old(pipes)@.update(
                        channel as int,
                        Pipeline { offset: offset, ..old(pipes)@[channel as int] },
                    )
                } else {
                    &&& r == Err::<Reply, ControlError>(ControlError::NoSuchChannel)
                    &&& final(pipes)@ == old(pipes)@
                }
            },
        },
{
    match cmd {
        Command::Tune { freq, nonce } => {
            let freq = *freq;
            let mut k: usize = 0;
            while k < pipes.len()
                invariant
                    k <= pipes@.len(),
                    pipes@ == old(pipes)@,
                    forall|i: int| 0 <= i < k ==> #[trigger] pipes@[i].can_retune(freq),
                decreases pipes@.len() - k,
            {
                if !pipes[k].retune_fits(freq) {
                    proof {
                        assert(!old(pipes)@[k as int].can_retune(freq));
                        assert(cmd@ matches crate::command::CommandSpec::Tune { freq: f, nonce: _ }
                            && f == freq);
                        assert(!(forall|i: int|
                            0 <= i < old(pipes)@.len() ==> #[trigger] old(pipes)@[i].can_retune(
                                freq,
                            )));
                        assert(final(pipes)@ == old(pipes)@);
                    }
                    return Err(ControlError::CannotRetune);
                }
                k = k + 1;
            }
            let mut i: usize = 0;
            while i < pipes.len()
                invariant
                    i <= pipes@.len(),
                    pipes@.len() == old(pipes)@.len(),
                    forall|j: int| 0 <= j < old(pipes)@.len() ==> #[trigger] old(pipes)@[j].can_retune(freq),
                    forall|j: int| 0 <= j < i ==> #[trigger] pipes@[j] == retuned(old(pipes)@[j], freq),
                    forall|j: int| i <= j < pipes@.len() ==> #[trigger] pipes@[j] == old(pipes)@[j],
                decreases pipes@.len() - i,
            {
                assert(pipes@[i as int] == old(pipes)@[i as int]);
                pipes[i].retune(freq);
                i = i + 1;
            }
            Ok(Reply::Tuned { request: tune_request(freq), ack: tune_ack(freq, *nonce) })
        },
        Command::Demod { channel, offset, output, nonce } => {
            let channel = *channel;
            if channel >= pipes.len() {
                return Err(ControlError::NoSuchChannel);
            }
            let path = pipes[channel].demod(*offset, output.as_slice());
            Ok(Reply::Demodulating { channel, path, ack: demod_ack(*nonce) })
        },
    }
}

} // verus!
