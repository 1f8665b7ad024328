# vmrss

`vmrss` is a small macOS command-line tool that shows the resident memory of
a process and its child processes, with optional CPU, peak memory, disk I/O
and swap figures, as text or JSON, once or in monitor mode.

The crate is split in two:

- `src/` is a library verified with Verus. It holds the logic of the tool:
  - `cli`: the command-line options and what each one sets, the reading of
    spans such as `500ms` or `1.5m`, and of output formats;
  - `duration`: a nanosecond-resolution span and the grammar of its text;
  - `decimal`, `text`: digit strings, `i32` text, white space, lines and
    words, as the standard library reads them;
  - `process`: which targets are roots of their process trees, the
    depth-first order in which a tree is shown, and the reading of what
    `pgrep`, `ps` and `vmmap` print;
  - `output`: escaping of text inside JSON strings, and the layout of the
    text lines and JSON objects of a process tree;
  - `json`: JSON values and their text, and the proof that what `output`
    writes as JSON is the text of a well-formed value.
- `app/` is the program around it: it reads the command line, runs `ps`,
  `pgrep`, `vmmap` and `proc_pid_rusage`, does the floating-point
  arithmetic of sizes, rates and peaks, and prints the results.

Each public function of the library states its result in its contract;
the laws that relate several functions stand as proof functions beside
them.
