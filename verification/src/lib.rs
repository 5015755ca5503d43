//! Keeps two derived link trees in step with a multi-format music library.

pub mod choice_laws;
pub mod clean;
pub mod clean_laws;
pub mod clearing_laws;
pub mod config;
pub mod config_laws;
pub mod confinement_laws;
pub mod count_laws;
pub mod foretelling_laws;
pub mod line_laws;
pub mod link;
pub mod link_laws;
pub mod model;
pub mod names;
pub mod order_laws;
pub mod outcome_laws;
pub mod path;
pub mod path_laws;
pub mod path_set;
pub mod place_laws;
pub mod plan;
pub mod plan_laws;
pub mod prune;
pub mod prune_laws;
pub mod report_laws;
pub mod rerun_laws;
pub mod run;
pub mod run_laws;
pub mod scan;
pub mod scan_laws;
pub mod stage_laws;
pub mod stats;
pub mod summary_laws;
pub mod survey;
pub mod survey_laws;
pub mod text;
pub mod text_laws;
pub mod tree_laws;
pub mod view_laws;
pub mod walk;
pub mod walk_laws;

pub use config::Config;
pub use run::run;
pub use stats::Stats;
