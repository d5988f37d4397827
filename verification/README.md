# YOLO26 segmentation

Instance segmentation with YOLO26 models, run by LibTorch.

`src/` is the verified library: everything around the model that decides or
computes.

- `number`, `double`, `single`: floating-point numbers as bit patterns, with
  arithmetic proved to round to nearest, ties to even.
- `geometry`: fitting a picture into the model's input, taking boxes back, and
  the part of the prototype grid that a box covers.
- `config`, `segmenter`: the settings, the choice of a backend, and the fallback
  from MPS in half precision to MPS in single precision to the CPU, where the
  model cannot be loaded and where its inference fails.
- `outputs`, `detection`: picking the tensors of the model's output, reading
  candidates from their rows, and setting the pixels of their masks.
- `picture`, `preparation`, `render`: pictures of the `image` crate, their bytes
  for the model, and drawing detections onto them.
- `report`, `text`, `timing`, `arguments`: what the program reads and writes.

`app/` is the program: its arguments, its files, and the calls into LibTorch. It
needs an installed LibTorch, as the `tch` crate asks for.

`tests/` runs the library, and holds its numbers against those of the machine.
