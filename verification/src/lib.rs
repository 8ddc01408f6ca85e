//! A slip box in the manner of Niklas Luhmann: notes with fixed positions in a branching tree.

pub mod box_laws;
pub mod clock;
pub mod commands;
pub mod disk;
pub mod disk_laws;
pub mod git;
pub mod growth;
pub mod id;
pub mod id_laws;
pub mod index;
pub mod laws;
pub mod lex;
pub mod lineage;
pub mod lock;
pub mod merge;
pub mod merge_fields;
pub mod merge_laws;
pub mod merge_whole;
pub mod model;
pub mod note;
pub mod numeral;
pub mod order;
pub mod query;
pub mod report;
pub mod report_laws;
pub mod search_laws;
pub mod sort;
pub mod store;
pub mod subtree;
pub mod sync;
pub mod sync_laws;
pub mod text;
pub mod text_laws;
pub mod tree;
pub mod tree_laws;
pub mod update;

pub use clock::Timestamp;
pub use disk::{migrate, needs_migration};
pub use git::{
    git_current_branch, git_has_uncommitted, git_has_upstream, git_remote, git_run, git_unpushed_count,
};
pub use id::ID;
pub use merge::{merge_conflicts, rebuild_index, MergeAction, MergeReport};
pub use model::DRAW_CAPACITY;
pub use note::{headline, validate_content, Note, MAX_CONTENT_LEN};
pub use store::{BoxError, Draw, NoteBox};
pub use sync::{sync, SyncReport};
