# fleet_battle

A small real-time battle between fleets, drawn with SDL2.

- `src/` is the verified library: the bookkeeping of the battle.
  - `math`: the contrast colour of a background colour.
  - `side`: sides, their colour and how a computer-controlled side picks
    enemies.
  - `fleet`: what the scene knows of a fleet (number, side, group, target),
    enemies, targeting by click, finding the target again.
  - `scene`: the scene's fleets, sides and groups; the grouping of nearby
    fleets of one side into runs; selection and orders by mouse click;
    removal of destroyed fleets.
  - `visual_effects`: the timing of the flashes of fire between fleets.
- `app/` is the program: the SDL2 window and event loop, drawing, and
  everything computed in floating point (positions, motion, strength,
  the computer's choice of enemy).
- `tests/` exercises the library.
