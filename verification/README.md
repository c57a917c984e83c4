# plato_mythos_bridge

Six cultural math traditions wired into PLATO's monitoring, health and routing,
written in Verus: every public function of the library carries a contract, and the
library's laws are stated as proof functions beside the code they speak of.

| Module | Tradition | What it does |
|---|---|---|
| `kintsugi_health` | Kintsugi | Health reports become golden seams; beauty = 0.4 × severity + 0.6 × quality |
| `quipu_tile` | Quipu | Tile values as knotted cords with a positional checksum |
| `songline_navigation` | Songlines | Bidirectional room graph; cheapest route (cost = latency / traversal count) and most popular route (cost = 1 / traversal count) |
| `griot_memory` | Griot | Room memories, their ages, and the traditions (recurring event types) of each room |
| `palaver_consensus` | Palaver | Rooms move their settings half the way toward the mean, round after round |
| `symmetry_detection` | Islamic geometry | Mirror, translational and rotational symmetry of metric series |

## Units

The verified library computes on integers only:

- kintsugi severities and qualities are basis points (`10000` is 1.0), beauty is exact in
  hundred-thousandths, system beauty is an exact fraction, metrics are thousandths;
- griot decay rates and weights, palaver settings and symmetry values are millionths
  (`1_000_000` is 1.0); a palaver consensus is an exact mean (a sum and a count), and
  every palaver move is exact (a numerator over a count times a power of two);
- symmetry strengths are in units of 2^-60, with errors rounded up, so that a strength
  is perfect exactly when the compared values are equal;
- songline latencies are microseconds; route costs count fractions of a microsecond as
  fine as 128-bit sums allow;
- quipu tiles are whole numbers of `10^-precision` units, decoded as a sign and digits.

Ratios and means are rounded as each module's documentation says.

## Layout

- `src/` — the verified library.
- `tests/` — tests of the library on concrete values.
- `app/` — a thin `f64` front end over the library, and the scores that need `exp`
  (griot memory strengths, tradition scores and system health).
