//! The settings of the layout engines: page size, font metrics and streaming. Of the
//! engines' layout passes, the page region geometry, table bodies and flow pagination are
//! methods of [`LayoutEngine`] in their own modules.

use vstd::prelude::*;
use crate::font_metrics::{is_standard_registry, FontRegistry};
use crate::length::{mm_to_millipoints, Length};

verus! {

/// Width of an A4 page in millipoints (210 mm).
pub open spec fn a4_width() -> int {
    mm_to_millipoints(210)
}

/// Height of an A4 page in millipoints (297 mm).
pub open spec fn a4_height() -> int {
    mm_to_millipoints(297)
}

/// The settings of the layout engine: A4 pages by default, the standard fonts, streaming off.
pub struct LayoutEngine {
    /// Default page width.
    pub page_width: Length,
    /// Default page height.
    pub page_height: Length,
    /// Metrics for measuring text.
    pub font_registry: FontRegistry,
    /// Whether large documents are processed page by page with bounded memory.
    pub streaming_mode: bool,
}

impl LayoutEngine {
    /// An engine for A4 pages with the standard fonts, streaming off.
    pub fn new() -> (r: LayoutEngine)
        ensures
            r.page_width.mp() == a4_width(),
            r.page_height.mp() == a4_height(),
            is_standard_registry(r.font_registry),
            !r.streaming_mode,
    {
        LayoutEngine {
            page_width: Length::from_mm(210),
            page_height: Length::from_mm(297),
            font_registry: FontRegistry::new(),
            streaming_mode: false,
        }
    }

    /// The same engine with streaming mode set to `enabled`.
    pub fn with_streaming_mode(self, enabled: bool) -> (r: LayoutEngine)
        ensures
            r.streaming_mode == enabled,
            r.page_width == self.page_width,
            r.page_height == self.page_height,
            r.font_registry == self.font_registry,
    {
        let mut e = self;
        e.streaming_mode = enabled;
        e
    }

    /// Whether streaming mode is on.
    pub fn is_streaming_mode(&self) -> (r: bool)
        ensures
            r == self.streaming_mode,
    {
        self.streaming_mode
    }
}

impl Default for LayoutEngine {
    /// An engine for A4 pages with the standard fonts, streaming off.
    fn default() -> (r: LayoutEngine)
        ensures
            r.page_width.mp() == a4_width(),
            r.page_height.mp() == a4_height(),
            is_standard_registry(r.font_registry),
            !r.streaming_mode,
    {
        LayoutEngine::new()
    }
}

/// Settings of the streaming layout engine.
#[derive(Debug, Clone)]
pub struct StreamingConfig {
    /// Most pages kept in memory at once.
    pub max_memory_pages: usize,
    /// Default page width.
    pub page_width: Length,
    /// Default page height.
    pub page_height: Length,
}

impl Default for StreamingConfig {
    /// Ten pages in memory, A4 pages.
    fn default() -> (r: StreamingConfig)
        ensures
            r.max_memory_pages == 10,
            r.page_width.mp() == a4_width(),
            r.page_height.mp() == a4_height(),
    {
        StreamingConfig { max_memory_pages: 10, page_width: Length::from_mm(210), page_height: Length::from_mm(297) }
    }
}

/// Lays out a document page by page, keeping few pages in memory.
pub struct StreamingLayoutEngine {
    /// Its settings.
    pub config: StreamingConfig,
    /// Metrics for measuring text.
    pub font_registry: FontRegistry,
}

impl StreamingLayoutEngine {
    /// An engine with the default settings.
    pub fn new() -> (r: StreamingLayoutEngine)
        ensures
            r.config.max_memory_pages == 10,
            r.config.page_width.mp() == a4_width(),
            r.config.page_height.mp() == a4_height(),
            is_standard_registry(r.font_registry),
    {
        StreamingLayoutEngine::with_config(StreamingConfig::default())
    }

    /// An engine with the given settings and the standard fonts.
    pub fn with_config(config: StreamingConfig) -> (r: StreamingLayoutEngine)
        ensures
            r.config == config,
            is_standard_registry(r.font_registry),
    {
        StreamingLayoutEngine { config, font_registry: FontRegistry::new() }
    }
}

impl Default for StreamingLayoutEngine {
    /// An engine with the default settings.
    fn default() -> (r: StreamingLayoutEngine)
        ensures
            r.config.max_memory_pages == 10,
            r.config.page_width.mp() == a4_width(),
            r.config.page_height.mp() == a4_height(),
            is_standard_registry(r.font_registry),
    {
        StreamingLayoutEngine::new()
    }
}

/// Renders the pages of a document on several threads.
pub struct ParallelRenderer {
    /// Number of threads to use (0: one per available core).
    pub num_threads: usize,
}

impl ParallelRenderer {
    /// A renderer using `num_threads` threads (0: one per available core).
    pub fn new(num_threads: usize) -> (r: ParallelRenderer)
        ensures
            r.num_threads == num_threads,
    {
        ParallelRenderer { num_threads }
    }

    /// The number of threads to render with: `num_threads`, or when it is 0 the machine's
    /// available parallelism `available` (1 when that is unknown).
    pub fn effective_threads(&self, available: Option<usize>) -> (r: usize)
        ensures
            r == if self.num_threads == 0 {
                match available {
                    Some(n) => n,
                    None => 1,
                }
            } else {
                self.num_threads
            },
            self.num_threads > 0 || available != Some(0usize) ==> r >= 1,
    {
        if self.num_threads == 0 {
            match available {
                Some(n) => n,
                None => 1,
            }
        } else {
            self.num_threads
        }
    }
}

/// How the ends of stroked lines are drawn.
#[derive(Debug, Clone, Copy, PartialEq, Eq, Structural)]
pub enum LineCap {
    Butt,
    Round,
    Square,
}

impl Default for LineCap {
    /// Butt caps.
    fn default() -> (r: LineCap)
        ensures
            r == LineCap::Butt,
    {
        LineCap::Butt
    }
}

/// How the corners of stroked paths are drawn.
#[derive(Debug, Clone, Copy, PartialEq, Eq, Structural)]
pub enum LineJoin {
    Miter,
    Round,
    Bevel,
}

impl Default for LineJoin {
    /// Miter joins.
    fn default() -> (r: LineJoin)
        ensures
            r == LineJoin::Miter,
    {
        LineJoin::Miter
    }
}

} // verus!
