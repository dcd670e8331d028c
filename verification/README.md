# keepalive

Babysits one process: auto-restarts it on crash with exponential backoff,
capturing its stdout/stderr to a log file.

```bash
keepalive "python3 worker.py --queue default" --log worker.log
keepalive "node server.js" --log app.log --restart always --max-restarts 10
keepalive "./flaky-job.sh" --log job.log --backoff-base 500ms --backoff-max 30s
```

`--restart on-failure` (the default) only restarts on a nonzero exit or a
signal; `--restart always` restarts even after a clean exit 0.
`--max-restarts` is unset (unlimited) by default. `SIGTERM` and `SIGINT` are
forwarded to the running child.

The backoff is exponential: it starts at `--backoff-base`, is multiplied by
`--backoff-multiplier` (default `2.0`) after each consecutive failure, and goes
up to `--backoff-max`. A run that stays up at least `--reset-after` resets the
delay to `--backoff-base` on its next crash.

## Layout

- `src/` is the library, verified with [Verus](https://github.com/verus-lang/verus):
  parsing of durations, the backoff, the restart decisions, the run loop's
  state and messages. Functions named `law_...` state what holds across the
  functions of the library.
- `app/` is the program: command line, processes, signals, the log file.
- `tests/` runs the library on concrete values, many of them against the
  floating-point results of the standard library.

## Numbers

Durations and delays follow double-precision arithmetic. A finite
double-precision number is an integer multiple of `2^-1074`; the specifications
count in these units, and every rounding step is `nearest_binary` of an exact
ratio. In the backoff `base * multiplier^(attempt - 1)`, the power is taken by
repeated squaring with every product rounded, and then the product with `base`
is rounded.

The one thing taken on trust is the text of the local time, from `chrono`.
