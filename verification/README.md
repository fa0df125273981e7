# steganography

Hiding messages in PNG images and in text, with the hiding and revealing logic
verified by Verus.

## Layout

- `src/` — the verified library.
  - `bits.rs`, `writer.rs`, `reader.rs`: a message as a stream of `k`-bit chunks,
    written into and read back from byte channels; `laws.rs` proves that reading
    gives back what was written.
  - `msg.rs`, `error.rs`: message kinds and the library's errors.
  - `png/`: the image algorithms on the channels of decoded images.
    - `algo.rs`: delta hiding (a few low bits of every channel, compared with the
      initial image); `delta_laws.rs` proves that revealing gives the message back.
    - `less_sign.rs`: least-significant-bit hiding with a header, for colour and
      gray images; `less_sign_laws.rs` proves the round trip.
    - `avg_sum.rs`: hiding in the sum of a chunk of channels; `avg_sum_laws.rs`
      proves the round trip over as many images as the hiding took.
  - `text/`: hiding in text.
    - `repeat.rs`: doubled characters or typos in a text, one chunk per bit; the
      hidden text is stated exactly for given typo places.
    - `s3.rs`, `s3_full.rs`: values of state spaces (numbers, times, prices, ids,
      words) that carry the bits of a stream, and readers that gather them back into
      chunks; `csv.rs` writes tables of them.
    - `num.rs`, `time.rs`, `price.rs`, `id.rs`, `txt_enum.rs`: the writers of each
      kind of value; numbers, times, ids and words also have readers, and laws that
      reading gives back what was written.
    - `str_reader.rs`, `str_writer.rs`: byte and UTF-8 reading and writing, over
      sources that may give fewer bytes a read than asked for.
    - `s3_rw_ty.rs`: the kinds of values of a line, and their writers.
  - `cli.rs`: the command-line arguments as plain values, and what each command
    builds from them.
- `app/` — the program: argument parsing, image files, printing and saving.
- `tests/` — tests of the library.

Random numbers come from the `rand` crate; images are decoded and encoded by the
`image` crate in `app/`.
