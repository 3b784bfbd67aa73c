# bgm_codec

A decoder for `BGM` files, the background music format of Paper Mario (N64), written and verified in
[Verus](https://github.com/verus-lang/verus).

`Bgm::from_bytes` decodes a file, and its contract says exactly which song or which error comes out
of which bytes. It asks for a file that is supported: the format has constructs, random jumps among
them, that have no representation here. `Bgm::try_from_bytes` takes any file, and reports those.

## Layout

- `src/de.rs`: the file, its header, segments, tracks, drums and voices
- `src/sequence.rs`: the commands of a track, and where its subroutines begin and end
- `src/offset_map.rs`: commands and markers by offset, and their order
- `src/command.rs`, `src/bgm.rs`: the data that is decoded
- `src/cursor.rs`, `src/collect.rs`, `src/name.rs`, `src/text.rs`: reading bytes, gathering results,
  names, numbers as text
- `src/error.rs`: errors
- `src/laws.rs`, `src/file_laws.rs`: what is proved of sequences and of whole files
- `app/`: decoding from any `Read + Seek`, with logging; not verified

The functions marked `Trusted:` in their documentation are the ones whose contracts are believed
rather than proved. They wrap calls into `smallvec`, `tinystr` and the standard library.
