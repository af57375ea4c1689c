//! Query execution over a segmented index.
//!
//! A [`Searcher`] holds one opened reader per segment of an index snapshot.
//! [`Searcher::search`] walks the segments in order, tells the collector which
//! segment is active, and hands it every matching document of that segment;
//! [`Searcher::doc`] fetches a document by its address. Every search returns a
//! [`TimerTree`] with the time each phase took.

pub mod address;
pub mod collector;
pub mod error;
pub mod memory;
pub mod reader;
pub mod searcher;
pub mod timer;

pub use address::{DocAddress, DocId, SegmentLocalId};
pub use collector::{Call, CallRecorder, Collector, CountCollector};
pub use error::DocError;
pub use memory::{MemDocument, MemError, MemPostings, MemReader, MemSegment, PostingList, Term};
pub use reader::{Index, Postings, SegmentReader};
pub use searcher::{collect_all, Searcher};
pub use timer::{Frame, TimerTree, Timing};
