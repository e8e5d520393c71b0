# lite_encoder

H.264 decoding, AV1 encoding and the `liteenc` command line tool, with the
decoder, the encoder's bookkeeping and the tool's decisions verified by Verus.

- `src/codec/h264/` is the decoder: progressive 8-bit 4:2:0 pictures, arithmetic
  coded, I and P slices. `annexb` and `avcc` frame units, `headers`, `lookahead`
  and `slice` read headers, `cabac*`, `residual`, `syntax` and `macroblock` parse macroblocks,
  `describe` puts them into words, `intra`, `inter`, `transform`, `scaling` and
  `recon` reconstruct them, `deblock*` and `loopfilter` smooth the picture, and `picture`, `picture_decode` and
  `decoder` keep the references and put out pictures. `oracle`, `reference` and
  `differential` compare the decoder with openh264.
- `src/codec/av1/` is the encoder, on rav1e.
- `src/liteenc/` is what the command line means and what each subcommand decides.
- `app/` reads and writes the files.

Contracts are stated over mathematical models: each module defines the model of
its data and the function that its code computes, and its `law_` functions state
what holds across several of them. Calls into other crates stand in
`codec/h264/headers.rs`, `codec/h264/oracle.rs`, `codec/av1/session.rs` and
`time.rs`, with what is believed of them in their doc comments.
