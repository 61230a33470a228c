# lifthrasiir

A verified codec for the events of a GitHub timeline. It turns events into few bytes, and back.

## How it works

1. **Order.** Events are put in the order of their keys (`order`).
2. **Struct of arrays.** Events are split by the kind of their values (`arrays`, `indexing`,
   `rebuilding`). Numbers and times become differences; repositories and owners that came before
   become references (`interner`). The name of a repository is shortened by its owner (`names`).
3. **Bytes.** Each array becomes a section of bytes (`sections`), with integers of variable length
   (`varint`) and text without capital letters (`case`).
4. **Entropy coding.** The sections are compressed by a context mixing model and an arithmetic
   coder (`zpaq`).

`codec` puts the stages together: `LifthrasiirCodec::encode` and `LifthrasiirCodec::decode`.

## What is proved

Every function has a contract that says what it returns, over the mathematical models next to it.
Beyond that there are laws, proof functions whose names begin with `law_`. The main ones:

- `zpaq::compress::law_compress_roundtrip`, `law_trailing_bytes`, `law_cut`: decompression gives
  back what was compressed, ignores what follows it, and what it gives of data that were cut short.
- `zpaq::roundtrip::law_bytes_roundtrip`: the arithmetic decoder reads back what the encoder wrote.
- `varint::law_varint_roundtrip`, `varint::law_zigzag`: integers are read back.
- `varint_law::law_varint_order`: their bytes stand in the order of the integers.
- `case::law_case_roundtrip`, `case::law_ascii_case`: which texts come back from case compression.
- `names::law_name_restored`: which names come back from their short form.
- `sections_law::law_payload_roundtrip`: the arrays are read back from their sections.
- `codec_law::law_codec_roundtrip`: events that were encoded are decoded to the same events, in
  order and in their usual form.
- `codec_law::law_encodable`: which events can be encoded.
- `order_law::law_encoding_order_independent`: events with distinct keys have one encoding, in
  whatever order they are given.
- `zpaq::logistic`: the logistic functions are monotone and symmetric, with their values at the
  ends.
- `zpaq::predictor_law`: what is known of the current byte; a second prediction changes nothing, an
  update keeps the shape of the model, and a context model's prediction does not move away from the
  bit that it learned.
- `zpaq::match_law::law_match_of_text`: what a match model knows of the text that it has seen.

The contracts of a few functions of the standard library, of `chrono` and of `bytes` are taken on
trust. They stand in `unicode`, `text`, `clock`, `buffer` and `zpaq::component`.

## Layout

- `src/`: the verified library.
- `tests/`: its tests.
- `app/`: the codec behind a common interface, with boxed errors and readers and writers.
