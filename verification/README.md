# videofuser

Distribution of Matroska files as separate tracks, and their reconstruction as virtual
files. The library in `src/` is verified with Verus; `app/` holds the command line tools,
the disk access and the FUSE filesystem around it.

| Module | Content |
|---|---|
| `bytes`, `vint`, `text` | numbers, variable-length integers and texts |
| `compress`, `hash` | zstd and SHA-256 |
| `binstruct` | the file that tells how a Matroska file is put together again |
| `vfr` | indexes of the frames of raw tracks |
| `manifest` | the description of a release, in four formats |
| `parsers` | indexers for AAC, AC-3 and H.264 |
| `filter` | which tracks and subtitles a user gets to see |
| `muxer` | planning and reading of virtual files |
| `fs` | the tree of mounted files |
| `tools` | scanning of Matroska files, generation, inspection and verification |
