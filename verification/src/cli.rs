//! The run configuration for a crawl.

use vstd::prelude::*;

verus! {

/// Settings that drive a crawl run: the seed URL, the depth and domain
/// policy, the worker count, and the persistence / image options.
pub struct Args {
    /// Starting URL to crawl.
    pub url: String,
    /// Maximum crawl depth (0 = unlimited).
    pub depth: u32,
    /// Stay on the same domain only.
    pub stay_on_domain: bool,
    /// Number of concurrent workers.
    pub workers: usize,
    /// Persistence store path.
    pub db: String,
    /// HTTP request timeout in milliseconds.
    pub timeout: u64,
    /// Resume from an existing store.
    pub resume: bool,
    /// Verbose output.
    pub verbose: bool,
    /// Disable SSL certificate verification.
    pub insecure: bool,
    /// Enable image face detection.
    pub extract_images: bool,
    /// Path to the face detection model.
    pub yolo_model: String,
    /// Minimum image width for face detection.
    pub min_image_width: u32,
    /// Minimum image height for face detection.
    pub min_image_height: u32,
    /// Output directory for images with faces.
    pub faces_dir: String,
}

} // verus!
