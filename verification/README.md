# multiplayer_try1

A small client/server multiplayer game: every participant keeps a local copy
of the world, and changes travel between participants as diffs.

- `src/` is the verified library (Verus):
  - `world`: the entity store keyed by id, the diffs local changes record,
    and the replay laws (a replica that applies the handed-out diffs
    converges);
  - `engine`: the game loop's bookkeeping (window settings, the player's
    entity, clicks, interpreting received diffs, event dispatch);
  - `network`: diffs and messages, the informant and queues between the game
    loop and the network side, with their ordering laws;
  - `network::server`: connection tags and routing (every connection gets
    every message not from itself).
- `app/` is the program around it: sockets, threads, locks, JSON (serde),
  the window and drawing (piston), and floating-point coordinates.
- `tests/` runs the library on concrete cases.

Points are held as the bit patterns of their `f64` coordinates inside the
library; `app/` converts.
