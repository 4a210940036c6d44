# zaytos

The logic of the ZaytOS userland, written in Rust and proved with Verus: how the
kernel loads and starts programs, its table of open files, the bookkeeping of its
virtio block driver, and the programs that run in Ring 3.

- `src/` is the library. Each function states in its contract what it returns and
  changes; public proof functions state what holds of several functions together.
  - `userland`, `loader`, `spawn`, `starter`, `startup`, `env`: programs, their
    memory, their arguments and their environment.
  - `vfs`, `virtio`: open files and the block device.
  - `userlib`, `bytes`, `chars`, `decimal`, `le`, `line`, `screen`, `window`: what
    the programs share.
  - `terminal`: what a terminal makes of the bytes it is sent.
  - `zash`, `zi`, `less`, `more`, `tools`, `peers`: the programs.
- `app/` does the input and output around it: system calls, ports and memory that a
  device works on. It asks the library what to do next, does it, and hands the
  answer back.
- `tests/` runs the library on concrete values.
