# gauss_solver

A solver for systems of linear equations over exact fractions, written in Verus.
Equations are entered one per line in free form (`2x + 3/5y - 1 = 4z`); the solver
normalizes each line, builds the augmented matrix, runs Gaussian elimination while
recording every step for playback, and reads off a unique solution, a solution in
free parameters, or the verdict that the system has none.

## Layout

- `src/` — the verified library.
  - `number_theory.rs`, `rational.rs`, `rational_order.rs`: fractions over `i128` in
    lowest terms, their arithmetic and order.
  - `text.rs`, `names.rs`: character classes, decimal text, and sorted association
    lists keyed by variable names.
  - `lexer.rs`, `parser.rs`: tokens and the normalized form `sum(c_i * v_i) = k` of
    one equation line.
  - `equivalence.rs`, `symmetry.rs`: the normalized form holds for exactly the values
    for which the two sides of the line are equal; swapping the two sides of `=`
    negates every coefficient and the constant.
  - `matrix.rs`: the augmented matrix built from normalized equations, one column
    per variable name in sorted order.
  - `gauss.rs`, `solution.rs`: forward elimination with its recorded steps, and the
    solution read off the final matrix.
  - `echelon.rs`, `frac.rs`, `soundness.rs`, `parametric.rs`: the laws of the
    elimination — row echelon form; a unique solution solves the system and is the
    only one; a system reported without solution has none; the expressions of a
    parametric answer give a solution for every choice of the parameters, and every
    solution that way; each recorded step keeps the solutions. The same laws hold of
    the answer read off any matrix in row echelon form, and all of them hold for
    entries with any non-zero denominator, negative ones included.
  - `solver.rs`, `display.rs`: the whole pipeline from equation lines to the
    response the front end shows, and the layout of a step's rows.
  - `answers.rs`: the answer for the lines typed in, read by variable name — a
    unique answer makes every line hold, and an answer without solution leaves no
    values that do.
  - `laws.rs`: laws of the rational arithmetic.
- `tests/` — tests on concrete systems.
- `app/` — the desktop shell (the `solve` command and the window) and the web front
  end, around the library.
