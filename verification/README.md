# hpvcd

A verified library for decoding HEVC still images in HEIF containers. The library is written in
Verus: its public functions carry contracts, and the contracts are proved.

## Layout

* `src/` — the library.
  * Samples: `arith`, `transform`, `dequant`, `dequant_narrow`, `intra`, `mc`, `reconstruct`,
    `deblock`, `sao`.
  * Prediction and syntax: `motion`, `palette`, `rps`, `bitreader`, `tiles`.
  * Images: `formats`, `image`, `yuv`, `window`, `orientation`, `stitch`, `grid`, `rgb_grid`, `rgb8`.
  * Files: `heif`, `config`, `nal`, `codec`, `auxiliary`, `decode`, with `settings`, `limits`,
    `color`, `metadata` and `error`; `agreement` and `unturned` state how
    decodes agree with each other.
  * Workers: `disjoint` says which parts of a buffer may be written at the same time, `schedule`
    which job a worker takes next.
* `tests/` — tests of the library on concrete values.
* `app/` — threads and shared buffers around the library, and a decoder that fills grids in parallel.

## Components

Container parsing, entropy decoding and colour conversion are reached through the trait
`codec::Codec`. The library promises nothing about them: the contracts of the decode entry points
say which component is asked what, in which order, and what becomes of each answer.

The one assumption about the standard library is `sample::reserve_exact`, which asks for memory
without aborting when there is none.
