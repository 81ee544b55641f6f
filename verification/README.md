# quill

The parts of a terminal that can be got wrong without anyone noticing: the
command line with its completions, the screen, the tabs, and the daemon that
shows them to other clients. All of it is verified with
[Verus](https://github.com/verus-lang/verus); what each function does is stated
in its `requires` and `ensures`.

- `src/composer` - the command line: tokens, keys, fuzzy matching, and the
  marks by which a shell tells where its prompt is.
- `src/completion` - what is offered while a line is typed: help texts and how
  they are read, programs on the path, hooks for single commands, caches.
- `src/term` - the screen, around the emulation of `alacritty_terminal`.
- `src/tab`, `src/kernel` - tabs and workspaces; the daemon's frames, its
  queues, who may connect, and the hub that decides what becomes of every
  event.
- `src/ime.rs`, `src/frame_stats.rs`, `src/cli.rs`, `src/paths.rs` - input
  methods, frame times, arguments, paths.
- `src/text.rs`, `src/number.rs`, `src/hash.rs`, `src/seqs.rs`, `src/clock.rs` -
  what the others are made of.
- `app` - the programs: descriptors, processes, sockets and files around the
  library. Nothing in it is verified.
- `tests` - the library, run.

A model in `ghost` types stands beside each state (`Composer`, `House`,
`HubModel`, `Screen`). The functions' contracts are stated over it, and so are
the laws, the public proof functions whose names begin with `law_`.

What is taken on trust is marked `external_body`, `assume_specification` or
`external_type_specification`: calls into `alacritty_terminal` (`term/grid.rs`),
`regex` (`completion/pattern.rs`), `getrandom` (`kernel/auth.rs`) and two
functions of the standard library (`text.rs`).
