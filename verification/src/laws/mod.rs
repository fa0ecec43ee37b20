//! What holds of blocks across operations.

pub mod amounts;
pub mod assembly;
pub mod building;
pub mod bytes;
pub mod compacting;
pub mod cutting;
pub mod lists;
pub mod rules;
pub mod shapes;
pub mod soundness;
pub mod validity;
pub mod wire;
