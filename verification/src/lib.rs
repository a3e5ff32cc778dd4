pub mod aggregate;
pub mod calendar;
pub mod display;
pub mod rank;
pub mod record;
pub mod store;
pub mod sums;
