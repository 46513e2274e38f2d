# ant_colony

An ant-colony simulation served over a websocket, with its colony logic
verified by Verus.

- `src/` is the verified library. Its types are generic over the position type
  `P` and the scalar type `S`, so the library never computes on floating-point
  values; what depends on a distance or an amount reaches it as a flag or as an
  integer order key.
  - `ant`: what an ant decides (`Ant::decide`), how it remembers what happened
    (`Ant::update_memory`), and the choice of the closest food (`closest_food`).
  - `world`: founding a colony, finding ants, carrying out each action
    (walking, eating and picking up food, dropping food, hatching), the ants'
    choices on one world (`decide_all`), a whole
    step (random order of the actions, memory updates, removing eaten food,
    burying starved ants), counting queens; with the laws these keep. The
    floating-point work of an action reaches it as closures (`Physics`).
  - `snapshot`, `protocol`: what an observer is sent.
- `app/` is the server: the floating-point geometry (distances, walking, food
  amounts) given to the library as closures, each ant's perception of the
  world, serialization and the websocket endpoint.
- `tests/` exercises the library on concrete colonies.
