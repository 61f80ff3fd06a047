pub mod adapter;
pub mod banner;
pub mod capacity;
pub mod cell;
pub mod chunk;
pub mod cli;
pub mod clock;
pub mod collapse;
pub mod engine;
pub mod feed;
pub mod hash;
pub mod json;
pub mod layout;
pub mod measure;
pub mod memory;
pub mod number;
pub mod openai;
pub mod order;
pub mod ranks;
pub mod recurrence;
pub mod registry;
pub mod report;
pub mod rss;
pub mod scaling;
pub mod scan;
pub mod select;
pub mod sheet;
pub mod spans;
pub mod stats;
pub mod table;
pub mod text;
pub mod threads;
