# Walker Constellation Calculator

Revisit-time and coverage analysis for Walker Delta satellite constellations.

- `src/` is the verified library:
  - `sorting`: ascending sort of circle positions and stable time sort of
    (time, position) events, with their laws.
  - `circle`: the widest empty arc between points on a circle, with laws on
    order independence and on adding points.
  - `gaps`: the step-by-step gap analysis of satellite passes over the
    equator and the revisit search built on it.
  - `convergents`: the revisit time from the continued-fraction convergents
    of the longitude shift between in-plane passes.
  - `coverage`: the raster of first-coverage times and its folding, update
    and statistics.
  Positions and times there are integers in units the caller chooses.
- `app/` holds the floating-point orbit geometry, the coverage rasterizer and
  the eframe user interface; it converts to the library's integer units.
- `tests/` runs the library on concrete cases.
