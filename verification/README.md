# vntools_common

Readers and converters for the archive and image formats of several visual novels,
verified with Verus.

- `src/lib.rs`: little-endian reads, signature checks, block-wise copying.
- `src/lzss.rs`: LZSS decompression with a 4096-byte window, specified token by token.
- `src/bmp.rs`: BMP writers (palette, RGB565, 24-bit, 32-bit) and the laws that their
  headers describe the files they write.
- `src/cp932.rs`, `src/text.rs`: CP932 and lossy UTF-8 names, name trimming.
- `src/formats/`: one module per format (ARCX, PACK, MIF, SM2MPX10, voice OPK, Graphic
  PackData, Studio Sakura, GGP, HIZ, CGD, NG3).
- `app/`: the command-line tools; they read whole files, call the library and write
  what it returns.
