# simplicial-agent

Simplicial complexes for modelling the topology of agent collaboration, as a Verus
library: every function in `src/` is verified against its `requires`/`ensures`
contract.

## Layout

- `src/` — the verified library.
  - `simplex` — simplices as strictly increasing vertex lists; faces, boundary,
    combinations, star, link and closure.
  - `complex` — simplicial complexes, closed under faces, with their f-vector,
    skeletons and connected components; the model of a complex is the set of its
    vertex lists.
  - `graph` — walks and connectivity in the 1-skeleton.
  - `euler` — Euler characteristic and Betti number estimates.
  - `collapse` — elementary and strong collapse, cones.
  - `flag` — flag complexes; strong collapse of a flag complex keeps the Euler
    characteristic.
  - `cone` — cones; strong collapse reduces every cone to a single vertex.
  - `rips` — Vietoris-Rips (clique) complexes from a closeness relation.
  - `collaborate` — collaboration complexes of agent groups, their holes and summary.
  - `counting` — counting lemmas and alternating sums.
- `app/` — the floating-point side (distance thresholds, interaction strengths,
  coverage, Laplacian spectrum) and serializable copies of the library's types.
- `tests/` — tests of the library on concrete values.
