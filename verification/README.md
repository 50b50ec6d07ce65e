# mutils

Records mouse gestures and replays them as human-like pointer movements.

- `src/` is the verified library:
  - `segment`: samples, segments and the validity rules of a finished gesture;
  - `segmenter`: the state machine that cuts a stream of samples into gestures;
  - `frame`: the length-prefixed framing of recording files, with its read-back laws;
  - `recorder`: the recorder's buffering, flush and rotation decisions, file names;
  - `playback`: the step schedule for replaying a gesture;
  - `command`: the command language of the interactive movement prompt.

  Coordinates are an opaque type parameter: the distance between two samples
  is judged by a metric the caller supplies, so floating-point arithmetic stays
  out of the library while every decision that depends on it is made there.
- `app/` is the command-line program (`record` and `simulate`): clock, files,
  the R-tree index of recorded gestures, pointer control, serialization.
- `tests/` exercises the library on concrete streams and byte strings.
