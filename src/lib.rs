pub mod assoc;
pub mod index;
pub mod scorer;
pub mod tokenizer;

pub use index::{index_document, index_documents, TermFreq, TermFreqIndex};
pub use scorer::{tf_idf_search, DocScore, Match, ScoreIndex};
pub use tokenizer::Tokenizer;
