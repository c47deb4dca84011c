//! Element recognition, layout decoding and page parsing rules for PaddleOCR-VL.

pub mod architecture;
pub mod bicubic;
pub mod chat;
pub mod checkpoint;
pub mod config;
pub mod contour;
pub mod crop;
pub mod detection;
pub mod device;
pub mod dtype;
pub mod encoding;
pub mod float;
pub mod generation;
pub mod inputs;
pub mod layout;
pub mod layout_config;
pub mod mask;
pub mod mlx;
pub mod ordering;
pub mod page;
pub mod patches;
pub mod picture;
pub mod pipeline;
pub mod precision;
pub mod queries;
pub mod recognition;
pub mod resize;
pub mod rope;
pub mod rounding;
pub mod simplify;
pub mod spotting;
pub mod text;
pub mod tokenizer;
pub mod version;
pub mod vision;
