# creative_zone

The verified core of a small lane-crossing game: the player walks forward
across forest and river lanes that scroll towards them, and the world is
drawn lane by lane from a seeded generator so that the way ahead always stays
passable.

- `src/` is the library, verified with Verus: the generator (`random`), the
  lane model (`world`, `masks`), path finding over the lane grid (`grid`), the
  game state machine with its section and lane drawing (`game`), the proofs
  that drawing is a function of the seed (`replay`), colours (`color`,
  `scene`), the pixel buffer (`framebuffer`) and the keyboard mapping
  (`window`).
- `tests/` runs the library on concrete values.
- `app/` is the program around it: the window, the clock that scrolls the
  lanes, and the ray-traced renderer, all of which work in floating point or
  talk to the operating system.
