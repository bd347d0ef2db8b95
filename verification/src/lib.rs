//! The update server's library: the release manifest, the checks it must pass
//! before it is served, the legacy text files rendered from it, and the
//! decisions behind the HTTP routes that serve and replace it.
pub mod manifest;
pub mod render;
pub mod routes;
pub mod text;
pub mod version;
