//! Bytecode analysis for compiled JVM classes: a verified instruction decoder
//! and control-flow-graph builder, with the rule logic and classpath
//! bookkeeping that consume them.
#![verifier::loop_isolation(false)]

pub mod bytestr;
pub mod cfg;
pub mod classinfo;
pub mod classpath;
pub mod decode;
pub mod ir;
pub mod opcode;
pub mod pool;
pub mod rules;
