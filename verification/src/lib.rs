pub mod text;
pub mod event;
pub mod rules;
pub mod proctree;
pub mod taint;
pub mod sorted;
pub mod correlate;
pub mod document;
pub mod report;
