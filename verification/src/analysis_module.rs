pub mod analysis;
pub mod public_analysis;
pub mod folder_summary;
