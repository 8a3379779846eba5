//! The core of a lazy SMT solver.
//!
//! Terms live in a hash-consed store (`term`, `builder`). An assertion is lowered (`ites`), encoded
//! into clauses (`encode`, `emission`), and completed by axioms of arithmetic and datatypes
//! (`axioms`, `dt_axioms`); everything that it changes is on a trail, so that contexts can be left
//! (`context`, `encoder`, `solver`). A check first looks for conflicts that need no search (`check`,
//! `dt_check`, `squares`, `spine`, `bounds`, `fd`, `fp`). During a search the link to the theories
//! tells each of them what an assigned literal says, turns their conflicts into clauses, and passes
//! equalities between them (`theory`, `euf`, `blast`, `combine`, `combination`, `drain`). After a
//! search quantifiers are instantiated in rounds (`instances`, `rounds`), and a verdict comes with a
//! model (`model`, `dt_model`), a core (`unsat`, `minimize`) or a proof (`resolution`). `session`
//! and `config` are what a caller sets and asks.
//!
//! The search and the decision procedures of the theories are outside: they are handed instructions
//! and hand back plain answers.
pub mod arith_laws;
pub mod assertion;
pub mod axiom_laws;
pub mod axioms;
pub mod bits;
pub mod blast;
pub mod bounds;
pub mod build_laws;
pub mod builder;
pub mod bv_laws;
pub mod check;
pub mod classes;
pub mod cnf;
pub mod combination;
pub mod combine;
pub mod config;
pub mod context;
pub mod core_laws;
pub mod drain;
pub mod dt_axioms;
pub mod dt_check;
pub mod dt_closure;
pub mod dt_cycle;
pub mod dt_facts;
pub mod dt_laws;
pub mod dt_model;
pub mod dt_resolve;
pub mod emission;
pub mod encode;
pub mod encode_laws;
pub mod encoder;
pub mod euf;
pub mod euf_laws;
pub mod fd;
pub mod find_laws;
pub mod fp;
pub mod instances;
pub mod ites;
pub mod linear;
pub mod link_laws;
pub mod maps;
pub mod minimize;
pub mod model;
pub mod model_laws;
pub mod numeral;
pub mod parallel;
pub mod resolution;
pub mod rational;
pub mod rounds;
pub mod semantics;
pub mod session;
pub mod small;
pub mod solver;
pub mod solver_laws;
pub mod spine;
pub mod spine_laws;
pub mod squares;
pub mod term;
pub mod text;
pub mod theory;
pub mod theory_laws;
pub mod track;
pub mod unsat;
pub mod verdict;
pub mod verdict_laws;
pub mod walk;
