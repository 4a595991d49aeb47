# Sum100

Prediction markets routinely disagree with themselves: four mutually exclusive
outcomes trade for 96 cents on the dollar, a threshold ladder inverts, the same
event prices differently on two venues. Sum100 reads those books, prices every
gap it finds, and keeps the few that survive fees, depth and risk limits.

The decisions are a Verus library; what touches the world is an ordinary program
around it.

## Layout

- `src/` is the verified library.
  - `feed/` turns venue frames and recordings into events; `record` is the format
    of a recording, `json`, `document`, `timestamp` and `text` are what it reads
    with.
  - `book` keeps one book per contract and notices gaps; `health` says whether a
    venue can be trusted; `verify` fingerprints a run so that a replay can be held
    to it.
  - `registry/` and `discovery/` say which contracts constrain each other: from a
    file, or from what the venue publishes.
  - `solver/` finds violations of those constraints and costs them level by
    level; `scan` costs one exhaustive set; `fees` is what the venues charge.
  - `engine`, `portfolio`, `risk` and `exec/` decide which opportunities become
    orders and what came of them.
  - `config`, `run`, `report` and `api` are what an operator says and sees.
  - `bounds` tells whether machine integers hold what is about to be computed.
- `app/` is the program: the command line, files, sockets, HTTP, and the copies of
  library types that serde reads and writes.
- `tests/` runs the library on concrete values.

## What is proved

The functions of `src/` have contracts over mathematical views of their data; the
one exception is the replay clock, a shared atomic of which nothing is claimed. The
laws that relate several functions are public proof functions; most modules end
with theirs, and `solver/laws`, `engine/laws`, `registry/laws` and
`discovery/laws` hold nothing else. Among them: a position the solver emits pays
more than it cost in every resolution its relation permits; a coherent group never
signals; a gap silences its venue until a snapshot arrives; a replay has the
digest of the run it replays; capital is conserved; real orders need every one of
their opt-ins.

Prices, fees and sizes are integers throughout. Floats occur only in `app/`, where
the wire has them.
