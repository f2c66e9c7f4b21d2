//! Canonical-vocabulary substitution: rewrites free text so that every
//! recognized synonym is replaced by its canonical form, preserving
//! punctuation affixes and (optionally) the original capitalization, and
//! reports replacement and vocabulary statistics.

pub mod lookup;
pub mod processor;
pub mod tokenize;
pub mod unicode;

pub use lookup::LookupTable;
pub use processor::CVCProcessor;
pub use processor::FileProcessingStats;
pub use processor::MappingInfo;
pub use processor::MappingsData;
pub use processor::Metadata;
pub use processor::ProcessingStats;
pub use processor::Replacement;
pub use processor::VocabularyStats;
