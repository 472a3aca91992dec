# rts_server

The core of a real-time strategy game server, written in Verus: the
functions in `src/` carry contracts that Verus proves. The few calls into
outside code (`byteorder`'s big-endian reads and writes, `bit-vec`'s packed
bits, std's UTF-8 check) sit behind small trusted wrappers whose contracts
restate what those crates document; they are believed, not proved.

- `pathing/` — compass directions, and `PathGrid`: a jump-point-search grid
  whose tiles open and close while the jump distances each tile keeps stay
  equal to the distance to the first jump point ahead (`jumps_ok`).
- `jps.rs` — a second jump-point grid (`JumpGrid`), which records jump
  rays from each jump point, and the expansion of its search.
- `libs/` — bit vectors and bit grids with line-of-sight tables, fixed-point
  and small-float angle arithmetic, byte grids, the `FineGrid` quadtree,
  map files and their encoding, big-endian reading and writing, and the
  websocket login state of a player.
- `data/` — typed ids with their pools, unit references, message codes, the
  client commands the server reads, and the event log it encodes.
- `netcom.rs`, `vis_set.rs`, `bytegrid.rs`, `units/` — the greeting of a
  connection, a small set of ids, a byte grid, and the kinds of weapons and
  missiles.
- `setup_game.rs` — the tiles that a map's collision codes block, and
  closing them on the grids of a game.
- `basic_weapon.rs` — the cooldown and salvo timers that decide when a
  weapon may fire.

`app/` is the program around the library: it asks where to listen, serves
logins over websockets, reads the map file and the unit and missile
descriptions with serde, and answers what the clients ask each frame. It also holds the parts whose arithmetic is floating
point, such as the path searches' cost ordering.

`tests/` runs the library on concrete values.
