# tatara

Host-side logic of a shogi NNUE trainer, verified with Verus.

The library works on floating-point numbers by their bit patterns: `Binary32` and `Binary64` hold
IEEE 754 numbers, and their arithmetic is proved to round correctly. On top of it stand

- the learning-rate and blend schedules (`lr_schedule`, `wdl_schedule`),
- the `progress.bin` format with its quantile trailer (`progress_bin_format`, `progress_bin`),
- the assignment of progress values to buckets and their calibration (`buckets`),
- the survey of how a `progress.bin` spreads positions over buckets (`sampling`, `histogram`,
  `path_list`, `sorting`, `survey`, `survey_text`),
- the optimizer's hyperparameters, and the errors and kernel checks of the GPU runtime
  (`optimizer`, `gpu_runtime`, `kernel_module`).

Each module states what its functions return in their contracts. The modules whose names end in
`_laws`, and `order`, state what holds across functions.

`app/` holds the survey program and the code around the library that touches files, the terminal,
the GPU driver and the machine's own floating-point functions. `tests/` compares the library with
that arithmetic bit for bit.
