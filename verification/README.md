# matting

Realtime webcam background matting on AMD GPUs, with Robust Video Matting or
BackgroundMattingV2 through ONNX Runtime's MIGraphX execution provider. The
decisions and the arithmetic are a library that Verus verifies.

## Layout

- `src/` is the verified library. Functions state what they return; only of a
  resampled picture is it left open which average each pixel is. Public proof
  functions named `law_...` state what holds across functions: that colours
  survive the way to YUYV and back to within two levels, that a transparent
  pixel shows the background, that a frozen model takes no ratio, keeps its
  weights and cannot be frozen again, that recurrent state is carried from frame
  to frame and dropped on reset.
- `app/` is the program: the command line, files, cameras and the GPU session.
- `tests/` run the library on concrete values.

## Floating point

The library does not use the machine's floating point. It has its own binary32
type, `single::Single`, whose operations round to nearest, ties to even, and are
proved to do so. All NaN patterns count as one value.

## What is trusted

The library calls other crates through a few wrappers whose contracts are not
proved: the ONNX model and its encoding in `onnx`, resampling in `composite`,
the digest in `prepare`, and quoting in `text`.
