//! Viewer logic for ONNX model graphs.

pub mod attributes;
pub mod blocks;
pub mod builder;
pub mod canvas;
pub mod category;
pub mod chars;
pub mod collect;
pub mod crossings;
pub mod details;
pub mod drawn;
pub mod faithful;
pub mod glimpses;
pub mod graph;
pub mod hierarchy;
pub mod journeys;
pub mod layout;
pub mod lookups;
pub mod measures;
pub mod mentions;
pub mod mirrors;
pub mod model;
pub mod name_paths;
pub mod navigation;
pub mod nesting;
pub mod op_schema;
pub mod ordering;
pub mod outlines;
pub mod overview;
pub mod pictures;
pub mod proto;
pub mod queries;
pub mod ranks;
pub mod reading;
pub mod reports;
pub mod routing;
pub mod schema_order;
pub mod schema_table;
pub mod search;
pub mod sorting;
pub mod splitting;
pub mod summary;
pub mod sweeps;
pub mod tally;
pub mod text;
pub mod threads;
pub mod values;
pub mod wiring;
pub mod wording;
