# snapseg (verified core)

snapseg is an interactive image segmentation tool whose masks become
training labels. This crate holds its logic as a Verus-verified library;
`app/` is the command line tool and the glue that touches files, serde
formats and floating point.

Library modules (`src/`):

- `types` — polarity, prompts and sessions, capabilities, errors, images
  and boolean masks.
- `rle` — uncompressed COCO run-length encoding and the tight bounding box
  and area of a mask.
- `contour` — marching-squares boundary extraction and the walk of the
  segment graph into polylines.
- `edges` — boundary pixels, index reflection and polyline neighbours used
  by the subpixel refinement.
- `labels`, `prompts`, `session` — the label format: provenance, the COCO
  export decisions and numbering, the decoding of a label's `mask.png`
  into its RLE segmentation, bounding box and area, `prompts.json` and the timed prompt
  history.
- `models` — family names, part lookup and loading, ONNX input/output
  conventions, shape checks and prompt encodings of the RITM, FocalClick
  and MobileSAM adapters.
- `registry`, `runtime`, `config` — the model registry, execution
  providers and backends, and the operator configuration.
- `cycler` — stepping through candidate masks and polygon vertices.
- `text` — decimal numerals, substring search and list rendering used by
  messages.

`tests/` exercises the library; `app/main.rs` is the `snapseg-labels`
tool (`coco` subcommand).

## Not part of this crate

- **The desktop GUI** (`eframe`/`egui` window, `rfd` file dialogs). It is
  presentation: drawing the image, the mask overlay and the controls. The
  decisions it takes on the operator's behalf (click polarity, cycling
  candidates and vertices, the prompt history, the save precheck and the
  label provenance) are library functions in `types`, `cycler`, `session`
  and `labels`.
- **ONNX inference** (`ort`). The `Backend` in `runtime` records the model
  path and the chosen execution provider; it holds no inference
  session, so running the encoder and decoder and the floating point
  post-processing of their outputs (sigmoid, thresholding, score ranking,
  resizing) stay with the application that links onnxruntime. What comes
  before and after a run is here: schema detection, input and output name
  resolution, tensor shape checks and the point encodings (`models`).
- **Model download** (`reqwest`). Fetching a missing part is an optional
  build feature of the model registry and is not built here: `registry`
  resolves parts from the cache only (the air-gapped path), checks their
  sha256 and reports a missing part as an error.
