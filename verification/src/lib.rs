//! Schema references, occurrence statistics and relations for JSON data.

pub mod calls;
pub mod catalog;
pub mod facts;
pub mod graph;
pub mod graph_laws;
pub mod index;
pub mod index_laws;
pub mod index_path;
pub mod input;
pub mod input_laws;
pub mod interns;
pub mod joins;
pub mod json;
pub mod jsonl;
pub mod kinds;
pub mod label;
pub mod label_laws;
pub mod laws;
pub mod names;
pub mod order;
pub mod ordmap;
pub mod outdir;
pub mod overrides;
pub mod path;
pub mod path_laws;
pub mod places;
pub mod quoted;
pub mod record_laws;
pub mod recorder;
pub mod records;
pub mod relation_laws;
pub mod relations;
pub mod report;
pub mod report_laws;
pub mod same_counts;
pub mod same_index;
pub mod same_lines;
pub mod same_records;
pub mod same_stored;
pub mod same_text;
pub mod statistics;
pub mod stream;
pub mod stream_laws;
pub mod streamed;
pub mod streamed_schemas;
pub mod tables;
pub mod text;
pub mod text_laws;
pub mod walk;
pub mod walk_laws;
