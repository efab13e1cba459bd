# LZAN

Verified compressors and decompressors for C64 and other 6502-based systems:
the LZAN `zx` family, ZX0 v2, ZX02, TSCrunch, PuCrunch, Subsizer, Shrinkler and
upkr. Every stream that a compressor writes is proved to decode to its input, and
every decoder is proved to compute what the grammar of its format says.

What the compressors choose is stated too. The parses of PuCrunch, TSCrunch and
Subsizer, and that of the LZAN format with one recent offset at the highest effort,
are proved to be the cheapest ones on offer. What TSCrunch, PuCrunch, Subsizer, ZX0
v2, ZX02 and upkr write is determined by the input, down to the bytes of the stream,
so that two calls give one result. The other parses of LZAN are described by the
tables that their dynamic programs fill, that of Shrinkler by the edges that its
search makes, keeps and drops. Where a compressor tries several parses, its stream is
proved to be the shortest of those: the two searches of TSCrunch, the starts of
Subsizer, the settings of Shrinkler, and the five modes of a backward LZAN stream.

## Layout

| Format | Modules |
|---|---|
| LZAN, full and minimal | `zx`, `zxpack`, `parse`, `zxdp`, `zxrows`, `zxsearch`, `zxseed`, `zxbest`, `zxwithin`, `zxstats` |
| parses with one recent offset | `zx0opt`, `zxreach`, `zxlane`, `gammaq`, `zxblocks` |
| ZX0 v2, ZX02 | `zx0compat`, `zx02` |
| TSCrunch | `tscrunch`, `tsgraph`, `tspath`, `tsstream` |
| PuCrunch | `pucrunch`, `pulaws`, `puparse`, `putoken`, `pustream` |
| Subsizer | `subsizer`, `subpath`, `subenc`, `submatch`, `substream` |
| Shrinkler | `shrinkler`, `shrparse`, `shrmatch`, `shrmap`, `shrcost`, `shrenc`, `shrcoder`, `shrstream` |
| upkr | `upkr`, `usearch`, `uparse`, `upkrenc`, `upkrstream`, `urans` |
| laws over several functions | `laws` |
| shared | `lz`, `bitio`, `matchfinder`, `suffix`, `text`, `testcorpus` |

The modules whose names end in `stream` say what the bytes of a format mean. `app/`
holds what depends on the process: settings from the environment and error texts.
