//! Extraction of individual sprites ("emotes") from a sprite-sheet image:
//! alpha-threshold masking, flood-fill connected-component segmentation,
//! bounding-box containment merging, and composition of each component into
//! normalized, resized output canvases.

pub mod pixel;
pub mod connectivity;
pub mod image_processing;
pub mod resample;
pub mod rng;
pub mod debug_guides;
pub mod guides;
pub mod laws;
