//! Head-to-head records and set statistics of tournament players.
pub mod competitor;
pub mod decimal;
pub mod h2h_query;
pub mod head_to_head;
pub mod head_to_head_laws;
pub mod json;
pub mod names;
pub mod sets;
pub mod sightings;
pub mod slots;
