//! A tree of conversation history entries, grouped by their label chains, with
//! per-node selection, collapse state and summaries, kept in step with the
//! history through a recorder of index mutations.
pub mod text;
pub mod recorder;
pub mod tree;
pub mod cache;
pub mod summarizer;
pub mod client;
pub mod replay;
pub mod selection;
pub mod counts;
pub mod items;
pub mod normalize;
pub mod prompt;
pub mod history;
pub mod markdown;
pub mod overlay;
pub mod session;

pub use client::ContextTreeClient;
pub use recorder::EntryPayload;
pub use recorder::EntryRole;
pub use recorder::HistoryMutationRecorder;
pub use summarizer::PromptModelError;
pub use summarizer::PromptRequest;
pub use summarizer::PromptResponse;
pub use tree::ContextTree;
pub use tree::ContextTreeNode;
