//! A minimal price oracle: named sources report fixed-point USD prices,
//! the latest report per source is kept, and once a quorum of distinct
//! sources is reached the mean price can be read out.

pub mod oracle;
pub mod report;

pub use oracle::OracleError;
pub use oracle::OracleView;
pub use oracle::PriceOracle;
pub use report::PriceReport;
pub use report::ReportView;
