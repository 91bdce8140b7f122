pub mod configuration;
pub mod domain;
pub mod email_client;
pub mod laws;
pub mod model;
pub mod outcome;
pub mod routes;
pub mod seq_facts;
pub mod store;
pub mod text;
