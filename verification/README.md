# svetd

A lighting console: a command language for channels, fixtures and groups, cue lists,
effects, OSC input and Art-Net output, with its logic proved correct by Verus.

- `src/` is the verified library. Each public function states what it returns and changes
  in its `requires`/`ensures`; the `law_*` proof functions state properties that span calls
  (a read gives back what a write wrote, a flash is undone by its release, a held-back
  command comes out with the next `go`, a stopped list no longer runs, a channel list reads
  back from its text).
  - `text`, `numeric`, `decimal`: characters, decimal numbers and floating-point literals,
    down to which literals read as zero.
  - `target`, `command`, `effects`, `parser`: the command language.
  - `named`: values kept by name in insertion order.
  - `param`, `profile`, `fixture`, `heads`: parameters, fixture profiles and fixtures.
  - `stores`, `engine`, `playback`: the show's data, what commands do, running cue lists
    and playback faders.
  - `osc`, `artnet`, `web`: what comes in over OSC, the Art-Net packets that go out, and
    what the web interface is shown.
- `app/` runs it: settings, files, threads, sockets, the web server, the beat clock, and the
  floating-point evaluation of effects and dimmers.
- `tests/` exercises the library on concrete values.

Numbers of the command language are kept as the decimal text they were written as, and
parameter values as binary32 bit patterns; the program turns them into floats.
