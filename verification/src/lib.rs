pub mod text;
pub mod strset;
pub mod matcher;
pub mod diagnostics;
pub mod defaults;
pub mod config;
pub mod analyzer;
pub mod score;
pub mod ranking;
pub mod discover;
pub mod matching;
pub mod paths;
pub mod references;
pub mod edits;
pub mod markdown;
pub mod gfm;
pub mod skills;
pub mod lint;
pub mod local_paths;
pub mod frontmatter;
pub mod documents;
pub mod root;
pub mod cli;
pub mod tasks;
