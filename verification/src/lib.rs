//! Client library for the BioLogreen facial-authentication web API.
//!
//! The library builds the JSON-over-HTTPS request bodies, discriminates
//! transport failures from API-level failures, and parses response bodies.
//! Sending the requests over the network is left to the caller.

pub mod b64;
pub mod client;
pub mod errors;
pub mod json;
pub mod models;

pub use client::handle_response;
pub use client::ApiRequest;
pub use client::BioLogreenClient;
pub use errors::transport_error;
pub use errors::Error;
pub use models::FaceAuthResponse;
