# blkspeed

A terminal tool that measures how fast a disk actually is, and never destroys
anything: the device is only read, and every write goes to a temporary file on a
filesystem that is mounted from it.

The library under `src/` decides and computes, and Verus proves that it does what
its contracts say. `app/` is the program around it: it opens files, asks the
system, runs the worker thread and draws.

| Module | What it holds |
| ------ | ------------- |
| `text`, `number`, `path`, `time` | text, numbers, paths and spans of time |
| `double` | double precision numbers, computed on integers |
| `format` | sizes, rates and latencies as text |
| `theme` | the palettes for dark and light terminals |
| `rng`, `aligned` | random offsets, and buffers for direct I/O |
| `bench`, `meter`, `pass`, `scratch`, `worker` | what is measured and how a run goes |
| `device`, `mounts`, `sysfs`, `diskutil` | which devices there are and where they are mounted |
| `options`, `app` | the command line, and the state of the interface |
| `ui`, `scene`, `report` | what the screens and reports say |

Floating point is not used in the library. Where a rate or a share of time is
needed, `double` gives the same number that IEEE 754 double precision does, and
the tests hold it to that.

Properties that span several functions are stated as proof functions whose names
begin with `law_`.
