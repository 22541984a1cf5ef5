pub mod metric;
pub mod lines_count;
pub mod line_count;
pub mod social_complexity;
pub mod project_metrics;
pub mod fake_metrics;
