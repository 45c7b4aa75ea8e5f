# onnx-explorer

A native app for exploring ONNX model graphs, built around a verified library.

The library, under `src/`, holds everything that can be said about a model
without touching a file or a screen, and every function in it is proved with
[Verus](https://github.com/verus-lang/verus) to do what its contract states:

- `proto`, `model`, `graph`, `mentions`, `builder`, `wiring`: the messages of an
  ONNX file, the graphs made of them, and what holds of every such graph;
- `queries`, `values`, `attributes`, `op_schema`, `schema_table`,
  `schema_order`: what can be asked of a graph, the elements of its tensors, its
  attributes, and the names that operators give to their inputs and outputs;
- `hierarchy`, `category`, `collect`, `ranks`, `routing`, `ordering`, `sorting`,
  `layout`: the blocks that node names describe, and the layered layout of a
  graph or of one of its blocks;
- `navigation`, `details`, `overview`, `search`, `canvas`, `summary`: where the
  user is, and what is shown there;
- `chars`, `text`: strings.

Public proof functions named `law_…` state what holds of the library as a whole.

The program around it, under `app/`, reads files, works out coordinates in
floating point, and draws with egui.

## Usage

```sh
onnx-explorer model.onnx
```

Print a summary to the terminal instead of opening a window:

```sh
onnx-explorer --summary model.onnx
```
