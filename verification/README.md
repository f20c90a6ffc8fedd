# mobile_zipper

A verified library behind three small browser front ends:

- a folder zipper that turns the files picked from a directory into a clean ZIP
  archive, stripping one redundant top-level folder when all files share it;
- an idea-orbit board whose ideas, dependency links and snapshots follow fixed rules;
- a daily card page with a countdown to the next card.

`src/` holds the logic, with contracts proved by Verus:

- `text`: character helpers and Unicode-aware trimming;
- `paths`: path normalization, the shared root folder, stripping it, and the laws
  about them;
- `archive`: archive names and building the ZIP archive through the `zip` crate;
- `labels`: truncated titles, `HH:MM:SS` read-outs and the countdown text;
- `orbit`: deleting ideas, keeping and adding links, id counters, snapshot slots;
- `stars`: the integer draws of the fixed star field.

`app/` holds the browser plumbing (DOM, storage, network, timers, rendering) and the
floating-point geometry of the board, which the library does not hold.
