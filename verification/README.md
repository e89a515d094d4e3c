# sdr-acars

ACARS decoding with its logic verified by Verus.

`src/` is the verified library:

- `crc` — the 16-bit BCS (KERMIT CRC) and the law that a payload followed
  by its own BCS checks to zero.
- `fec` — correction of frames whose BCS fails: double-bit errors within a
  character, and one bit per parity-flagged character.
- `frame` — the bit-by-bit frame parser (SYN/SYN/SOH hunting, body, BCS,
  parity, DLE escape) with an exact model of its state machine, and the
  laws that a well-formed frame, fed as bytes or as bits (after any number
  of zero bits), is accepted with its body, and that noise without SYN
  bytes is ignored.
- `label`, `label_parsers` — the label table and the OOOI parsers.
- `reassembly` — multi-block reassembly keyed on aircraft and message
  number, with timeouts and a bound on pending messages.
- `channel` — per-channel delivery: parser output through reassembly,
  OOOI decoding and activity counts.
- `text_record`, `json` — the plain-text record and the JSON field list of
  a decoded message.
- `msk` — the integer parameters of the demodulator.
- `input` — cutting raw I/Q bytes into whole samples across reads, and the
  choice of channel frequencies for a WAV recording.

`app/` is the command line and the floating-point signal processing (MSK
demodulator, channelizer), the JSON writer and the error type.
