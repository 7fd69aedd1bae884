//! Local note recall: paragraph chunking, generation-bound catalogs and rank
//! fusion, with the packing and bookkeeping rules of the quantized indexes.

pub mod bits;
pub mod digest;
pub mod double;
pub mod float;
pub mod hashing;
pub mod instant;
pub mod keys;
pub mod order;
pub mod quant;
pub mod recall;
pub mod rounding;
pub mod rounding_laws;
pub mod semantic;
pub mod shadow;
pub mod single;
pub mod text;
pub mod words;
