# red-leicester-string

Finds CTF flags in files, even when the flag is encoded (UTF-16/32, base64,
base32, decimal, XOR, hex, binary, ROT13/ROT47, legacy text encodings),
written backwards, or spread over every n-th byte of the file.

The library in `src/` is verified with Verus:

- `codecs/`: every codec turns a flag prefix into the bytes it looks like
  under one encoding and carries the decoder that undoes it;
  `lemma_codec_roundtrip` proves that decoding undoes encoding for every codec
  whose decoder is this library's own (the decimal codec only where every
  character has a code from 32 to 255). `all_codecs` states that a codec's
  decoder turns its encoding back into the pattern's bytes, or their beginning
  for base64 and base32, with these exceptions: base64 of a single-byte
  pattern, the legacy encodings for non-ASCII patterns, and the decimal codec
  as above.
- `searcher.rs`: expands the prefixes through every codec, forwards and
  backwards, finds them all at once with `aho-corasick`, and decodes what
  follows each hit into a flag. `Searcher::search` states exactly which flags
  come out: every one starts with a prefix and comes from a hit, and every hit
  that decodes to such a flag is reported.
- `stride.rs`: the piles of every n-th byte that are searched.
- `report.rs`: strict mode, the cache of recently reported flags, and the
  description of where a flag was found; `lemma_no_flag_reported_twice`
  proves that, while the distinct flags fit in the cache, none is reported
  twice over a whole sequence of findings.
- `text.rs`: UTF-8/16/32 and decimal helpers shared by the above.

`app/` is the command-line program around the library (argument parsing,
memory-mapped files, directory walking, threads, output).
