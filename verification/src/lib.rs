pub mod reconcile;
pub mod record;
