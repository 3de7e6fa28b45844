//! Model checking of transition systems.

pub mod answers;
pub mod args;
pub mod arith;
pub mod arrange;
pub mod ast;
pub mod atg;
pub mod bdd;
pub mod blocks;
pub mod bmc;
pub mod bounded;
pub mod builtins;
pub mod calc;
pub mod cnf;
pub mod compose;
pub mod compositions;
pub mod connectives;
pub mod ctype;
pub mod dup;
pub mod elaboration;
pub mod env;
pub mod error;
pub mod eval;
pub mod evaluations;
pub mod explicit;
pub mod fair;
pub mod fexpr;
pub mod flat;
pub mod flatten;
pub mod formula;
pub mod goals;
pub mod judgement;
pub mod laws;
pub mod lexer;
pub mod library;
pub mod ltl;
pub mod meaning;
pub mod num;
pub mod operators;
pub mod ordering;
pub mod ownership;
pub mod parser;
pub mod partial;
pub mod prelude;
pub mod preludes;
pub mod prime;
pub mod printer;
pub mod property;
pub mod reach;
pub mod renamings;
pub mod reply;
pub mod reread;
pub mod sat;
pub mod sections;
pub mod sexpr;
pub mod show;
pub mod skel;
pub mod smt;
pub mod smtlaw;
pub mod smtlib;
pub mod smtscript;
pub mod sorts;
pub mod span;
pub mod spelling;
pub mod sval;
pub mod symbolic;
pub mod tables;
pub mod temporal;
pub mod text;
pub mod token;
pub mod types;
pub mod typing;
pub mod unroll;
pub mod value;
pub mod variables;
pub mod wfc;
