pub mod anf;
pub mod anf_laws;
pub mod ast;
pub mod fbip;
pub mod interp;
pub mod ir;
pub mod liftassign;
pub mod liftassign_laws;
pub mod lower;
pub mod names;
