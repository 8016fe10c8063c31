use vstd::prelude::*;

use crate::Error;

verus! {

/// Types of regions detected by the layout model.
#[derive(Debug, Clone, Copy, PartialEq, Eq, Structural)]
pub enum RegionType {
    Title,
    Text,
    Table,
    Image,
    List,
    Header,
    Footer,
}

/// Layout detection engine for page images.
///
/// Detects document regions (titles, text blocks, tables, images, etc.) from
/// page images. No detection model is bundled, so detection always reports
/// that the model is missing.
pub struct LayoutDetector {
    _private: (),
}

/// The message of the error that layout detection reports.
pub open spec fn layout_model_missing() -> Seq<char> {
    "Layout detection model not loaded"@
}

impl LayoutDetector {
    /// Create a new LayoutDetector.
    pub fn new() -> Self {
        LayoutDetector { _private: () }
    }

    /// Detect regions in a page image.
    ///
    /// A detected region carries floating-point geometry and a confidence
    /// score, which this library does not hold; the caller names the region
    /// type `R`. Without a bundled model this always reports `NotImplemented`.
    pub fn detect_regions<R>(&self, _image: &[u8]) -> (res: Result<Vec<R>, Error>)
        ensures
            res matches Err(Error::NotImplemented(m)) && m@ == layout_model_missing(),
    {
        Err(Error::NotImplemented("Layout detection model not loaded"))
    }
}

impl Default for LayoutDetector {
    fn default() -> Self {
        LayoutDetector::new()
    }
}

} // verus!
