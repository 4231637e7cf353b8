pub mod fetch;
pub mod full_sync;
pub mod laws;
pub mod lemmas;
pub mod order;
pub mod peer;
pub mod peer_laws;
pub mod random;
pub mod roster;
pub mod score;
pub mod search;
pub mod selector;
pub mod strategy;
pub mod sync_laws;
pub mod target;
pub mod task_error;
pub mod text;
pub mod types;
