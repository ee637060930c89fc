# topo_sonata_rs

Topological analysis of musical sonata form, verified with Verus.

- `src/` is the verified library:
  - `form`: sections, the standard sonata template, lookups by type and by measure.
  - `transition`: the circle of fifths (distances are whole fifths, or half-fifths
    with the mode penalty), transitions between keys, classification, tonal
    distance and complexity; with the metric laws of the circle.
  - `graph`: connectivity, component leaders and a verified component labelling.
  - `motif`: Vietoris-Rips edges and triangles from a proximity matrix,
    connected components, clusters, the filtration order of the pairs and the
    H0 persistence diagram.
  - `tension`: the tension model of each section type, the measure-by-measure
    tension profile of a sonata, and peak/valley detection over order keys.
  - `recapitulation`: section encoding, the matching of corresponding sections,
    and the measure/key counts
    of a recapitulation analysis.
- `tests/` exercises the library on concrete values.
- `app/` adds the real-valued measures (Euclidean distances, proportions,
  tension curves, Wasserstein distances) on top of the library.
