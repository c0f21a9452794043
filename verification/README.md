# charstreamer

Text stream classification and segmentation primitives with machine-checked
contracts: byte and scalar views of text, candidate scanners, integer feature
appenders, pipelines, span decoders, corpus parsing, metrics, and a
rule-based semantic segmenter that renders inline tags.

`src/` is the library, verified with Verus:

- `text`, `scalars`, `textops`, `lines`, `shape`: UTF-8 views, scalar
  decoding, line and whitespace structure.
- `byteset`, `scanner`: byte and character sets, candidate scanners.
- `features`, `counts`, `linefeat`, `legacy`: feature appenders measured in
  integers and flags.
- `data`, `traits`, `pipeline`, `decoder`: matrices, workspaces, the
  scanner / kernel / model / decoder pipeline and span decoders.
- `segment`, `segment_laws`, `scored`, `offsets`: the segmenter, its
  determinism laws, sentences from model-scored breaks, character/byte offset
  maps.
- `corpus`, `metrics`, `artifacts`, `experiments`, `error`: corpus records,
  boundary metrics, model bundle checks, experiment specs and parity checks.

`app/` holds the runtime side that stays outside verification: file and
process I/O, `f32` feature columns and models, training, timing, serialized
specs and reports.
