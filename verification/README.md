# game_logic

The rules and the network bookkeeping of a small top-down multiplayer arena
game, verified with Verus, and the game programs built around them.

`src/` is the verified library:

- `ids`: entity id allocation (`IdProvider`) and the `Unit` marker.
- `network`: the server's client registry (`ClientRegistry`), keyed by peer
  address, with ids given in order of arrival.
- `client`: the client's connection state machine, the local addresses it
  tries, and its message queues (only the newest server message is read).
- `server`: the server's message queues (first in, first out) and the lookup
  of the unit a client controls.
- `collisions`, `shoot`: which pairs of entities may collide and what a
  contact does to each of them.
- `sync`: how a client brings its entities in line with a server snapshot.
- `input`, `shared`: movement keys and entity ids.

`app/` holds the two programs (`server` as first argument, a client
otherwise): bevy systems, rapier physics, egui menus, UDP sockets and
MessagePack/rkyv framing, and all floating-point maths.
