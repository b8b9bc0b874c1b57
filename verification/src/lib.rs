//! PanoLoom stitching engine.

pub mod blend;
pub mod border;
pub mod bundle;
pub mod centers;
pub mod cp;
pub mod engine;
pub mod estimation;
pub mod export;
pub mod exposure;
pub mod fast;
pub mod gcgraph;
pub mod heaviest;
pub mod ids;
pub mod image;
pub mod imgproc;
pub mod laws;
pub mod layout;
pub mod masks;
pub mod matcher;
pub mod multiband;
pub mod optimizer;
pub mod orb;
pub mod painted;
pub mod paste;
pub mod patch;
pub mod pipeline;
pub mod points;
pub mod progress;
pub mod project;
pub mod promises;
pub mod pyramid;
pub mod ransac;
pub mod report;
pub mod response;
pub mod rng;
pub mod seam;
pub mod seamcost;
pub mod shown;
pub mod spanning;
pub mod steps;
pub mod text;
pub mod tree;
pub mod warp;
