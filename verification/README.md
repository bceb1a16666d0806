# rdirstat

Shows which directories and files take up the disk.

- `src/` is the library: scanning, completion of directories, the largest
  entries, navigation, dialogs, and what the screens say. Every function has a
  contract that Verus proves; the laws that relate several functions are public
  proof functions whose names begin with `law_`.
- `app/` is the program around it: the terminal, the window, the disk and the
  threads. `rdirstat [path]` runs in the terminal, `--gui` opens a window,
  `--classic` runs the plain terminal program, and `--bench` compares walks.
- `tests/` runs the library on concrete values.

## The modules

| Module | What it holds |
|---|---|
| `path`, `text`, `keymap`, `order`, `util` | paths as components with their spelling, text, a map, a stable order, sizes as text |
| `top`, `scan`, `completion`, `walk` | the state of a scan, and what each walker thread adds to it |
| `life` | what one thread adds to a scan from its start to its end |
| `tree`, `run` | what a scan as a whole guarantees: sizes add up, and a completed directory is whole |
| `model`, `snapshot`, `app`, `mounts` | rows, snapshots, navigation, drives |
| `browse`, `tui`, `gui` | what keys and clicks do |
| `screen`, `style`, `theme` | what is drawn |
| `stack`, `classic`, `bench` | walks in order, the plain program, the benchmark |

## What is believed without proof

Six declarations: `str::to_lowercase`, `String::from_utf8_lossy`,
`String::push`, `num_cpus::get`, `ratatui::layout::Layout::split`, and the type
`std::time::Instant`. The doc comment of each says what it claims.

Paths are those of Unix: components between slashes. The program is one for Unix
too; the rule for drive letters, `mounts::list_mounts_windows`, is there for
others to call.
