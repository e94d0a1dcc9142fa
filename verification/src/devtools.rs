//! Developer tasks that build test fixtures out of QR containers: editing the archive of
//! symbols, rendering single symbols and laying symbols out on one canvas.
pub mod fixtures;
pub mod grid;
pub mod render;
