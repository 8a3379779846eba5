# oxiz_solver

The logic of an SMT solver, verified with Verus: terms and formulas, their encoding in clauses, the
link between a clause search and the theories, datatypes, nonlinear patterns, models, unsatisfiable
cores, contexts, and the decisions of a check.

What searches or solves (the clause search, simplex, congruence closure, bit blasting, polynomial
solvers, quantifier instantiation) is not part of the library. The library says what to ask of such
an engine, is told the answer, and draws the conclusions.

## Layout

| Modules | Subject |
| --- | --- |
| `term`, `walk`, `numeral`, `rational`, `text`, `maps`, `small` | terms, numbers and containers |
| `cnf`, `semantics`, `encoder`, `track`, `encode`, `emission`, `encode_laws` | formulas as clauses |
| `linear`, `bounds`, `squares`, `spine`, `spine_laws` | arithmetic: linear forms, bounds, squares, wrapped operators |
| `ites`, `axioms`, `dt_axioms`, `axiom_laws`, `assertion` | what an assertion adds to the clauses |
| `classes`, `dt_facts`, `dt_model`, `dt_resolve`, `dt_closure`, `dt_cycle`, `dt_check` | datatypes |
| `euf`, `bits`, `blast`, `theory`, `theory_laws`, `drain`, `combine`, `combination`, `parallel`, `fd`, `fp` | theories |
| `model`, `model_laws`, `builder` | models |
| `config`, `verdict`, `unsat`, `resolution`, `minimize` | settings, verdicts, cores, proofs |
| `context`, `solver`, `check`, `instances`, `rounds`, `session`, `solver_laws` | the solver |

`app/` carries out the steps of a check and of the theories with engines behind traits, and prints
models and proofs.

## What is proved

Contracts say what each function returns or changes. Laws about several of them together are public
proof functions whose names begin with `law_`: among others, that an assignment which satisfies the
clauses makes the asserted formulas true, that no reading of the formulas is ruled out by their
clauses, that leaving a context undoes what was done in it, that every datatype conflict is one under
all values, and that evaluation in a model respects the meaning of terms.
