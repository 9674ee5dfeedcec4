# cloak-core

A steganography library: a payload is encrypted with a passphrase
(Argon2id key derivation, ChaCha20-Poly1305) and hidden in the low bits of
an image's red, green and blue channels. Covers can be PNG, BMP, TIFF, JPEG,
WebP or GIF; lossy covers produce PNG output. The library also reports
capacity and counts the statistics that steganalysis works on.

The library is written in Verus and its functions carry contracts that
Verus proves.

- `src/lib.rs`: `embed`, `extract`, `capacity`, `capacity_report`, and the
  laws that tie them together: capacity bounds what embedding accepts, and an
  embedded payload extracts back. The round trip is proved for PNG, BMP and
  TIFF output within the image decoder's limits (`reads_back` in
  `src/raster.rs`: about 134 million pixels for PNG and BMP, BMP sides up to
  65535, about 44 million pixels for TIFF); beyond them it is stated under the
  hypothesis that the image codec decodes the file to the pixels it wrote.
- `src/crypto.rs`: the encrypted wire format `[CLOK][1][salt][nonce][ct+tag]`.
- `src/formats/`: format detection, the LSB engine (`lsb.rs`) and its
  mathematical model (`lsb_model.rs`), the unified codec and the BMP, JPEG
  and WebP codecs.
- `src/raster.rs`, `src/random.rs`: the calls into the image codec and the
  random number generator.
- `src/analysis.rs`: bit planes, histograms, RS and sample-pair tallies, GIF
  palette tallies.
- `src/viewer.rs`: the interactive viewer's tabs and key handling.
- `app/`: the `cloak` command line, the terminal dashboard, and the floating
  point statistics built on the library's counts.
- `tests/`: tests run against the compiled library.
