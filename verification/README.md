# cx

The daily fix of the century index (ticker CX): a fixed-quantity basket of
eight legs, averaged over a trailing year and summed at today's averages, with
the pages that publish it. Every price, weight and level is an `i128` scaled by
1e-9, and the library is verified with Verus.

## Layout

- `src/` — the verified library.
  - `calendar`, `num`: civil dates and fixed-point arithmetic, with their
    round-trip laws.
  - `text`: the character-level readers and writers the rest is built on.
  - `series`: sparse observations and dense daily calendars — normalising,
    carrying forward, trailing means.
  - `fetch`: the four feed parsers and the request URLs.
  - `index`: the basket, its build, the current shares and the collared lease
    walk, with the index laws (base level, proportional response, a leg
    falling to zero, the rent floor and collar).
  - `pipeline`: the run's decisions — history window, staleness, guards on a
    leg, candle slicing and merging.
  - `publish`: when a fix can be published, and the figures the pages share.
  - `chart`, `calculator`, `site`, `graph`: the chart views, the lease pricer,
    the web page, the JSON record, the README and the history.
- `app/` — the program around it: arguments, the network and the cache,
  writing the artefacts, and the chart geometry that needs a logarithm.
- `tests/` — scenario tests on concrete values.
