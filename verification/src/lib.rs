//! Rules, parsers and metrics of an agent-based social-media simulation:
//! agents on a follow graph choose actions, a recommender builds their
//! feeds, posts cascade through reposts, and population metrics are taken
//! every step.
pub mod config;
pub mod experiment;
pub mod mechanisms;
pub mod metrics;
pub mod parse;
pub mod prompts;
pub mod rank;
pub mod record;
pub mod recsys;
pub mod reproduce_mock;
pub mod simulation;
pub mod text;
pub mod world;
