//! KPIR^index keyword PIR over a SimplePIR (Row-KOPIR) index-PIR backend.
pub mod bits;
pub mod params;
pub mod scheme;
pub mod simplepir;
