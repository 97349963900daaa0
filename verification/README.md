# sojourn

A verified library for finding points that satisfy a set of constraints over a
box of variables, and for putting a point that does not satisfy them back where
it does.

Scalars are bit patterns of doubles (`number::Real`). The operations on them
that belong to the hardware are asked of a `machine::Machine`, and interval
arithmetic of an `interval::Intervals`; contracts speak of what these come to
where they are functions of their arguments. Random numbers are asked for with
the generator they are drawn from, which comes back as it stands after; which
generators there are, their seeds and who draws from which is decided here, so
that a search is a function of its seed and a repair of its point.

| part | modules |
|---|---|
| numbers, texts, diagnostics | `number`, `machine`, `text`, `diagnostics` |
| expressions and their tapes | `ast`, `cloning`, `frontend`, `semantics`, `lowering`, `emission`, `irgen`, `renaming`, `tape`, `regalloc`, `differentiate` |
| documents of expressions | `graph`, `nodes` |
| what equalities determine | `classify`, `matching`, `plans` |
| intervals and constraints | `interval`, `hc4`, `system`, `slicing`, `prune` |
| repair | `cube`, `newton`, `local`, `clamping`, `repair` |
| search | `random`, `search`, `solve` |

`app/` runs it: double precision, the linear and the local solves, the worker
thread and the handle its points are taken from.
