//! Collects the set of distinct characters occurring across text files and
//! renders it as one sorted, de-duplicated character sequence; also unions
//! two already-rendered sequences. Files are validated as text by checking a
//! bounded prefix for UTF-8 validity; line terminators are never collected.

pub mod charset;
pub mod collect;
pub mod merge;
pub mod run;
pub mod validate;
