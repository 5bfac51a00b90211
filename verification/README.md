# frame_on_faer

Degree-of-freedom bookkeeping for small finite-element models (2D frames with
three DOFs per node, plane-stress triangles with two), verified with Verus, and
a set of known-answer probes that run it together with `faer`, `gemlab` and
`trussx`.

- `src/` — the verified library:
  - `dofs`: nodal DOF numbering and element-to-global DOF maps;
  - `partition`: the free DOFs left after prescribing some;
  - `transfer`: gathering the free block of a system, scattering a reduced
    solution or a list of nodal loads into a full vector;
  - `assembly`: adding an element matrix into the global matrix through a DOF map.
- `tests/` — tests of the library on the DOF layouts of the probes.
- `app/` — the probe program (`faer`, `frame-on-faer`, `gemlab`, `trussx`):
  element matrices, integration and linear solves, all floating point.
