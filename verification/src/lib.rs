//! Verified pieces of an XSL-FO formatter: lengths and geometry, the area tree, page
//! breaking and single-column flow pagination, Knuth-Plass line breaking, font metrics,
//! embedded fonts and their CMaps, PDF page content and small PDF files. Of the layout pass
//! from the formatting-object tree to the area tree it holds the page region geometry, the
//! table body layout, the pagination of a flow whose blocks are laid out and the extraction
//! of rendering traits from properties; block, inline, list and float layout
//! are not part of it.

pub mod length;
pub mod geometry;
pub mod area;
pub mod page_break;
pub mod textfmt;
pub mod font_metrics;
pub mod knuth_plass;
pub mod error;
pub mod pdf_font;
pub mod ttf;
pub mod compliance;
pub mod cidfont;
pub mod to_unicode;
pub mod cmap_roundtrip;
pub mod engine;
pub mod simple;
pub mod properties;
pub mod pagination;
pub mod minimal_pdf;
pub mod raster;
pub mod page;
pub mod page_master;
pub mod table;
pub mod flow;
pub mod property_list;

pub use length::{Length, MILLIPOINTS_PER_POINT};
pub use geometry::{Color, Point, Rect, Size};
pub use area::{Area, AreaContent, AreaId, AreaNode, AreaTree, AreaType, BorderStyle, BreakValue, Keep, KeepConstraint, TraitSet};
pub use page_break::PageBreaker;
pub use font_metrics::{FontMetrics, FontRegistry};
pub use knuth_plass::{Breakpoint, Item, KnuthPlassBreaker};
