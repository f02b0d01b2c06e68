//! Runbook walkthroughs from two small procedure languages: a flowchart
//! language compiled to a graph of steps, and a step-sequence language
//! compiled to grouped steps, each driven by a verified state machine.
pub mod text;
pub mod graph;
pub mod mermaid;
pub mod flowchart;
pub mod oats;
pub mod oats_runner;
pub mod graph_runner;
pub mod logname;
