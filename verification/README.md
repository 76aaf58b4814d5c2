# quadratic_jit

Symbolic solving of quadratic equations over prime fields, verified with Verus.

An equation is a sum of quadratic, linear and constant terms. Unknown variables occur in the
quadratic and linear terms; all coefficients are symbolic expressions in values that are known
when the solution is computed. Solving an equation yields effects: assignments, bit
decompositions, range constraints and assertions.

- `field`, `goldilocks`, `koala_bear`, `modular`: prime fields of at most 64 bits.
- `bits`, `range_constraint`: constraints on the values of expressions and variables.
- `variable`, `variable_update`, `symbolic_expression`: expressions in known symbols.
- `linear`, `quadratic`, `references`: the mathematical model of quadratic expressions, their
  values, variables and texts.
- `quadratic_symbolic_expression`: quadratic expressions with their operators and updates.
- `effect`, `solution`, `sorting`, `solve`: how equations are solved.
- `decomposition`, `laws`: what solving promises, and why bits can be read off a number.
- `params`: the parameters of the prover over the KoalaBear field.
- `text`: writing numbers and lists.

`app/` offers the field to the prover, with round constants of the caller's choice.
