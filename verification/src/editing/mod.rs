pub mod context;
pub mod corrections;
pub mod inline;
pub mod repeats;
pub mod false_starts;
