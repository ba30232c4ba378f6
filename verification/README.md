# lem_in

Routes a colony of ants across a farm of rooms and tubes, from the `##start` room to the
`##end` room, so that no room other than those two ever holds two ants at the same turn.

The library under `src/` is written in Verus and verified:

- `text`: whitespace, trimming, splitting a line into fields or at `-`, decimal integers.
- `map`: the farm (`Farm`, `Room`), the errors of a description (`ParseMapError`), the
  room, link and ant-count lines, and `MapParser`, which reads a description line by line.
- `schedule`: the mathematics of routing: reservations, reachable rooms per turn,
  schedules, earliest arrivals, and the laws that relate the ants to each other.
- `solver`: the time-aware breadth-first search (`bfs`), the reservation table
  (`update_used_rooms`), routing all ants (`repeated_bfs`), and a reachability check.
- `moves`: the per-turn output lines `L<ant>-<room> ...`.
- `quickest`: the quickest routing, a search over the rooms of all ants at once, and
  `route`, which the program uses.

The ants are routed in two ways. `repeated_bfs` routes them one after another, each along an
earliest schedule that avoids the rooms reserved by the ants before it; it is fast but not
always the quickest (two ants, tubes 0-2, 0-5, 1-3, 1-4, 2-3, 2-4, 3-5, start 0 and end 1:
four turns where three would do). `quickest_routing` searches the rooms of all ants turn by
turn and returns a routing that no valid routing beats; it tabulates every combination of
rooms, so it runs only when the number of rooms to the power of the number of ants is at
most `SEARCH_LIMIT`. `route` takes the quickest routing when the search can run and the
greedy one otherwise. Turns are counted in `usize`; a farm whose routing would need more
turns than that has no routing (`None`).

The parser keeps the rooms in a `Vec` and finds the room of a name by a linear scan, so each
tube line costs time proportional to the number of rooms: Verus specifies std's `HashMap`
only for keys such as integers, and with `String` keys no lookup could be proved.
