# ebony

A PNG reader written in Verus. It checks the file signature, splits the file
into the chunks of RFC 2083, decodes the data of each known chunk type, gathers
them into an image description, and splits the image data stream into its zlib
fields. Every function in `src/` carries a contract; Verus proves all of them
but two small wrappers in `src/text.rs`, `string_push` (over `String::push`)
and `from_utf8_lossy` (over `String::from_utf8_lossy`), whose contracts are
trusted as std documents those calls.

- `src/bytes.rs`: big-endian integers and `ByteStream`, a double-ended stream of octets.
- `src/chunks.rs`: `Chunk`, reading one chunk from a stream, the chunk-type property bits.
- `src/data.rs`: the chunk data types (`IHDR`, `PLTE`, `IDAT`, `bkGD`, ...) and their decoders.
- `src/rfc2083.rs`: `RawPNG`, `PNGChunks`, `PNGData` and what `PNGData::new` keeps.
- `src/rfc2083/idat.rs`: the image data stream and samples per pixel.
- `src/zlib.rs`: `ZLib`.
- `src/text.rs`: strings built from octets and numbers.
- `app/main.rs`: reads a file, prints the chunk types, the description and the zlib fields.
