pub mod latex;
pub mod segmenter;
pub mod coverage;
pub mod roundtrip;

pub use latex::scan;
pub use segmenter::{reconstruct, segment};
