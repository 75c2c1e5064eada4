# surgeist_css

Exact, context-checked CSS numeric values, verified with Verus.

## Layout

- `src/` — the verified library.
  - `components`: authored component values, their provenance and resource limits.
  - `numeric_type`, `units`: the CSS numeric type algebra and unit identities.
  - `calculation`: admission of `calc()`-family expressions under a root context,
    the checked expression tree, its borrowed views and canonical text.
  - `bignum`, `exact`, `rational`: exact decimal and rational arithmetic with a
    cumulative resource budget, and fixed-notation formatting.
  - `binary`: exact decimal expansions of binary32 and binary64 values from their
    bit patterns.
  - `opacity`, `specified`, `serialization`: exact opacity scalars and bounded
    specified-value text.
  - `media_features`, `media_queries`: media feature identities, ranges and
    keyword values.
  - `unicode_range`: the `unicode-range` grammar over tokens and their spellings.
- `app/` — ordinary Rust at the edges: tokenizing CSS text with `cssparser`,
  binary floating-point literals, and the binary64 projection of calculations.
- `tests/` — tests of the library.
