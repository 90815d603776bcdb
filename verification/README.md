# Army Ghosts

A small top-down shooter for up to eight players, peer to peer, with bots in the
seats that nobody sits in.

The game's rules of conduct are a Verus library: every function states what it
returns, and Verus proves it.

- `src/` is the library.
  - `text`, `order`, `mesh`, `table`: characters, sorting, triangle lists, tables.
  - `peer`, `roster`, `wire`, `net`, `room`, `session`: ids, seats, messages, the
    lobby, one frame of the room, starting a match and letting somebody back in.
  - `launch`, `persist`, `menu`, `input`, `ads`, `stance`, `spectate`: how a game
    begins, what is remembered, and what the devices ask for.
  - `hud`, `nameplate`, `sound`, `grass`, `render`, `strip`: what is said and drawn.
  - `selfplay`, `game`, `sprt`: bots against bots, and what to make of it.
- `tests/` runs the library on concrete values.
- `app/` is the program: the window, the sockets, storage, and everything in
  floating point.
