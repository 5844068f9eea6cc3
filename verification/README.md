# smart_road

A four-way junction without traffic lights: vehicles approaching the
junction book a crossing window for their path, and the booking manager
guarantees that two vehicles whose paths share a tile of road never hold
overlapping windows.

- `src/` is the verified library:
  - `intersection`: the twelve paths through the junction, the conflict
    table (shown to be exactly the lane-wide tiles that two paths share),
    crossing windows and the reservation manager with its safety invariant;
  - `vehicle`: directions, routes, trip phases and the per-vehicle decisions
    taken at the stop line, on entering, on leaving the junction and on
    leaving the screen;
  - `input`: spawn requests from keys and the random-traffic timer, lanes and
    spawn points;
  - `statistics`: vehicles through, transit extremes and close calls;
  - `renderer`: the road layout and the flood fill that strips the car
    sprite's background.
- `app/` is the SDL2 program around it: window, drawing, events, and the
  floating-point motion of the vehicles.
- `tests/` exercises the library.
