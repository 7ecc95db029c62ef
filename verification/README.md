# veribin

Cheap comparison of symbolic expressions by their shape, verified with Verus.

- `src/`: the library. `canonical` hashes an expression, `rewrite` brings it into a form
  in which matching expressions print the same, `make_like` rebuilds a node on request,
  `cache_key` holds keys for expressions. `laws` states and proves what holds of them
  together.
- `tests/`: tests of the library from outside.
- `app/`: the library applied to the expressions of a clarirs context.

What is not proved: that two references which `Arc::ptr_eq` finds to be one lead to the
same expression (`canonical::same_node`), and what `vstd` says of the standard library.
