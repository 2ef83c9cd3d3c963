# fs-tracker

`fs-tracker` starts a command on Linux and reports which files of the tracked directories the
command and its descendants have changed. Before the first attempt to change a file the file
is captured; when the process tree has ended it is captured again, and what differs becomes a
report and a unified diff. What the tracker could not observe is noted as a gap, and a report
with a gap is partial.

The logic is a library that is proved with Verus; the programs around it are ordinary Rust.

## The library, `src/`

| module        | what it holds                                                              |
|---------------|----------------------------------------------------------------------------|
| `config`      | roots, exclusions, policy files, limits, and where the output may lie       |
| `paths`       | Unix paths as bytes: components, normal forms, one path below another       |
| `capture`     | which files are tracked, the steps of a capture, the store of all captures  |
| `linux`       | the observed system calls, the filter program, the end of a process         |
| `request`     | what a reported system call asks for, and how its paths are read            |
| `handling`    | the handling of one system call, up to the captures before it goes on       |
| `supervisor`  | the course of a run: signals, control messages, notifications, the end      |
| `process`     | the children of the tracker                                                 |
| `finishing`   | the end of a run: every candidate is captured and, where needed, read       |
| `report`      | net changes, diffs, and the report                                          |
| `contracts`   | the documents that a run leaves behind                                      |
| `git_adapter` | the receipt of a run as two Git commits                                     |
| `doctor`      | whether the machine has what the tracker needs                              |
| `cli`         | the values of the command line and the exit code                            |
| `order`       | the orders that lists are sorted by, and the sort                           |
| `text`        | numbers and bytes as text                                                   |
| `outside`     | the calls into other crates and what is relied on of them                   |

Every type that the contracts speak of has a view; the contracts are stated over the views.
Where a task needs the file system, the kernel or another process, the library says what is
to be done next and takes in what came of it. What holds of the library as a whole stands
beside the functions as public proof functions: that a file is captured before a system call
that names it goes on, that the first capture is kept, that just the net changes are
reported, that a gap makes a report partial, that the filter reports just the observed system
calls, that the target is killed once at most.

## The programs, `app/`

`app/` runs the loops: it forks the target, answers the kernel's notifications, talks to the
capture helper, calls Git, and reads and writes files and JSON. Called as
`fs-tracker-git-receipt` the program makes a receipt, otherwise it is the tracker:

```text
fs-tracker run --root project=/projects/project --output /run/task-001 -- make
fs-tracker diff /run/task-001
fs-tracker doctor --json
```

## Tests, `tests/`

The tests run the library on concrete values, with the crates that it calls.
