# rtl_p25

A P25 receiver for RTL-SDR tuners, in two parts.

- `src/` is the verified library (Verus): the frame-sync detection that
  tells the receiver its carrier phase error, the state of each channel
  (tuner frequency, channel offset, output path, stage buffers), the line
  protocol on the control input with its replies, how commands change the
  channels, and the tuner's raw sample format.
- `app/` is the program around it: command-line arguments, the `rtl_rs`
  child process, the stdin reader thread, the output files, and the
  floating-point signal path (mixer, liquid-dsp resampler, filter and symbol
  tracker, differential phasor, symbol slicer).

## Control protocol

```
stdin> tune,851137500,111
stderr> ok,851137500,111
stdin> demod,0,12500,/tmp/mux0,222
stderr> ok,222
```

- `tune,<center freq>,<nonce>` moves the tuner up; every channel keeps its
  absolute frequency. A move down is refused and ends the program.
- `demod,<channel>,<offset freq>,<fifo>,<nonce>` demodulates a channel at
  the given offset from the center into the fifo (`null` for `/dev/null`).
