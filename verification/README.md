# planning

Query plans for groups of Datalog strata, verified with Verus.

A rule arrives as a tree of transformations: unary ones that read a relation, joins and antijoins
that read what other transformations make. `GroupStrataQueryPlan` puts the transformations of a group
of rules in order. Unless sharing is disabled, a group makes no collection twice, and none that an
earlier non-recursive group made; a recursive group borrows those. A plan can be laid out as text, its
collections can be named and declared, and every transformation can be written as a Datalog rule.

## Layout

- `src/strata.rs`: the plan of a group.
- `src/schedule.rs`, `src/order.rs`, `src/sharing.rs`: the order of transformations, and what holds of
  it for one rule and for a group.
- `src/group.rs`, `src/heads.rs`: groups as mathematical values; heads and last collections.
- `src/names.rs`, `src/numbering.rs`, `src/declarations.rs`: names of collections and variables,
  numbered names, declarations.
- `src/inversion.rs`, `src/expressions.rs`, `src/rendering.rs`, `src/writing.rs`: Datalog rules.
- `src/layout.rs`: plans as text.
- `src/collections.rs`, `src/arguments.rs`, `src/transformations.rs`, `src/rule.rs`: the data.
- `src/keyed.rs`, `src/model.rs`, `src/text.rs`: maps, views and strings.
- `app/`: the edges, outside of verification.

What holds of the library as a whole is stated in proof functions whose names begin with `law_`.
