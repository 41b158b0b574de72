//! A spell-checking library: a tokenizer that turns free text into
//! normalized word candidates, a gestalt (Ratcliff/Obershelp) similarity
//! engine over exact rational ratios, a ranker that orders a dictionary by
//! similarity to a query, and a membership checker that reports tokens
//! found in neither a word set nor an ignore set.

pub mod checker;
pub mod dict;
pub mod ignore;
pub mod rank;
pub mod similarity;
pub mod tokens;
pub mod wordset;

pub use checker::{check_file, check_files, missing_tokens, Finding, SourceText};
pub use dict::get_words;
pub use ignore::{get_ignore_file_contents, get_ignore_list, trim_str};
pub use rank::{find_word, top_matches, MatchCandidate};
pub use similarity::{ratio, ratio_ge, ratio_is_one, Ratio};
pub use tokens::{check_token, strip_apost, tokenize};
pub use wordset::{to_hashset, WordSet};
