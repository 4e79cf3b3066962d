//! Row-KOPIR (SimplePIR): single-server, LWE-based index PIR over `q = 2³²`.
pub mod arith;
pub mod backend;
pub mod params;
pub mod matvec;
pub mod sampler;
pub mod sums;
