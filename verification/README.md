# arbvis

Visualizes binary files as Hilbert curve plots: one pixel per byte, coloured by
value, so that structure in a file shows as structure in the picture. Two files
can be compared byte by byte, JSON files by structure, and model files tensor by
tensor.

The library under `src/` is written in Verus: every function carries a contract
and is proved to meet it. The program under `app/` reads and writes around it.

| Module | What it is about |
| --- | --- |
| `geometry`, `hilbert3d`, `outline` | the curve in the square and in the cube, byte ranges as rectangles, outlines |
| `color`, `layout::render` | colours of bytes and elements |
| `format` | tensor types and the safetensors header |
| `json_diff` | a JSON parser that keeps every byte, and the alignment of two documents |
| `source`, `tensor_match`, `tensor_diff`, `diff` | what an input or a diff puts on the canvas |
| `layout` | the canvas of a byte stream and that of a model, and the plugins that choose one |
| `single`, `compose`, `label` | one picture: sampling, painting, borders, labels |
| `hf_url`, `hf_cli`, `hf_upload`, `deploy`, `download` | talking to the Hub |
| `throttle` | the adaptive limit on concurrent requests |
| `cli`, `registry` | what an invocation asks for |
| `text`, `order`, `path`, `hashing` | helpers |

What Verus does not see is named where it is used: the functions of other crates
that the library calls stand behind wrappers whose contracts say what is relied
on.
