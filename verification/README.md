# gmaps_optimal_placement

Where a service business should open: a statistical grid of demand, the competitors already on
the ground, and a capture score for each candidate site.

- `src/` is the library, verified with Verus: cell ids and archive layouts, expression binding,
  the competitor tiering rules and tile quartering, the ranking model's text features and choice
  sets, search-volume groups and their month axis, the quota ledger and the answer cache keys, the
  pin file, template filling, and the map's control surface as decisions. Each public function
  states its result in its contract; the cross-function laws are public proof functions next to
  the code they speak of (`pins::seed_undoes_diff`, `work::rolling_keeps_the_phase`,
  `ui::closing_keeps_the_active_tab_open`, ...).
- Calls into other crates (regex, sha2, base64, `std::path`, character classes) go through small
  trusted wrappers whose doc comments say what their contracts claim.
- `app/` is the command line around it: Nix evaluation of a study, downloads and the answer cache,
  the CSV and zip readers, the projection, the floating-point model (pressure, capture, ranking fit,
  colouring), and a small HTTP server for the map's two routes.
- `tests/` runs the library on concrete values.

Run `gmaps_optimal_placement serve|searches|probe|fit|misc`; `--help` lists the arguments.
