# core_latency

A benchmark of the latency between the cores of a CPU, with its logic verified
by Verus.

`src/` is the verified library:

- `select`, `ids`: the cores and memory domains that are asked for on the
  command line; id lists and ranges. `brevity` shows that the range notation is
  the shortest.
- `numa`: the topology of the host from the text of the sysfs files, and the
  allocation of the shared buffers as a sequence of questions to the kernel
  (`numa::syscall`) or to the heap (`numa::stub`).
- `bench`, `args`: the benchmarks and the settings of a run.
- `exchange`, `messages`, `timing`: what the two cores of a pair do, in which
  order, and how clock readings become latencies.
- `sweep`: which pairs are measured and printed in which order, and what is
  kept of each measurement.
- `whole`: what a run as a whole has measured, over all steps of a sweep.
- `stats`, `cells`, `report`: statistics, groups of cells, the summary, the CSV
  files and the matrix.
- `double`: latencies as IEEE 754 doubles held by their bits. Comparisons are
  made on the bits. Arithmetic and decimal text come from two functions that
  the caller hands in; contracts speak of any function that describes what
  those give.
- `text`, `number`, `style`: text, numerals, colours.

Public proof functions whose names begin with `law_` state what holds of the
library as a whole.

`app/` is the program around it: the command line, files, threads, system calls
and floating point.
