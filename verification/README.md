# kolibri_utils

Verified helpers of the KolibriOS kernel and of its project orchestrator
(`orch`), written in Verus.

- `src/` is the library. Every function carries a `requires`/`ensures`
  contract that Verus proves; public `law_*` proof functions state properties
  that span several calls. Kernel routines work on byte slices in place of raw
  memory: addresses become indices, and the kernel's 32-bit address arithmetic
  wraps as it does on the machine. Routines that interleave decisions with
  kernel callbacks (AHCI port polling, IPv4 output, EXT set-file-info, the
  CMOS clock read, the fragment-slot scan, the COFF symbol fixup) are state
  machines: a step function from state and event to next state and action,
  driven by the caller; laws over whole runs state which calls come in which
  order. Where the kernel hands in function pointers (getpixel, cursor
  check, CMOS register read, slot load, export lookup), closures stand for
  them; the functions that take the register-read, slot-load and
  export-lookup closures run the machines above with them.
- `src/orch/` holds the orchestrator's rules: the command registry, image
  names and sizes, `run` option parsing, QEMU argument assembly, tool and
  script paths, and sorting.
- `tests/` exercises the library from outside, including differential
  corpora against independent reference formulas.
- `app/` is the `orch` command-line program: argument parsing, file system
  and process work, and the Rhai workflow engine, around the library.

Not included: the exFAT long-file-name lookup and the CP866-to-UTF-8 string
conversion. Both rest on the kernel's UTF-8/UTF-16 and code-page helpers,
which this crate does not carry.
