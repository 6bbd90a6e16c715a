# euroleague_scenarios

Where can Crvena zvezda finish? This project takes the league table before
the last round, the head-to-head series of the clubs and the games still to
be played, and enumerates every combination of results: for each it builds
the final table by the league's tie-break rules and records the club's
place, its opponent in the play-in or the quarter-finals, and the results
it needed.

## Layout

- `src/` — the library, verified with Verus.
  - `team.rs`, `types.rs`, `data.rs`: the clubs, the records, the current data.
  - `h2h.rs`: head-to-head series and how a game updates them.
  - `grouping.rs`, `text.rs`: grouping by a key, and decimal text.
  - `tiebreak.rs`: the tie-break rules; `tiebreak_laws.rs`: what they keep.
  - `scenario.rs`: the final table of one scenario; `scenario_laws.rs`: what
    every such table keeps.
  - `playoffs.rs`: pairings of places; `weights.rs`: probabilities of
    outcomes as exact fractions.
  - `planning.rs`: which games matter, their options, the numbering of
    combinations; `planning_laws.rs`: what a plan keeps.
- `tests/`: tests of the library on the real data and on small tables.
- `app/`: the command line (`main.rs`), the web server (`web.rs`, started
  with `serve`) and the browser build (`wasm.rs`); they do the I/O, the
  parallel loop and the floating-point shares around the library.

## Design notes

- Grouping by a key (wins, head-to-head results, point difference, points
  scored) is done by `grouping::group_desc`, which builds the groups in a
  `Vec`, largest key first, each group in the order the clubs were given;
  its result is stated exactly as `groups_desc`. A `BTreeMap` from key to
  group, walked from the largest key down, would need `entry(..).or_default()`
  and reverse iteration, and vstd's specification of `BTreeMap` covers
  neither (its iterators have no `next_back` specification and there is no
  `entry` specification), so such a walk could not be tied to a contract.
- Maps keyed by clubs are keyed by integers (`Team::index`, and `h2h_code`
  for a pair of clubs), for which vstd specifies `HashMap` fully.
- Where the overall tie-break finds clubs level on both point difference and
  points scored, it leaves them tied, leaves out the clubs of their
  point-difference group with fewer points, and lists the groups of a
  smaller difference after them in the order given. The tie-break states
  exactly when this happens (`tie_drops`); a scenario table lists all twenty
  clubs once unless it does for one of its groups (`scenario_drops`), and
  then holds fewer, the followed club's places being 0 if it is left out.
