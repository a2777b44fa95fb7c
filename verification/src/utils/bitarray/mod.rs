pub mod array225;
pub mod array9;
pub mod base;
pub mod bits;
pub mod instances;

pub use array225::BitArray225;
pub use array9::BitArray9;
pub use base::BitArray;
pub use base::BitArraySettings;
pub use base::MaskComparison;
pub use instances::BitArray16Settings;
pub use instances::BitArray225Settings;
pub use instances::BitArray36Settings;
pub use instances::BitArray64Settings;
pub use instances::BitArray9Settings;
