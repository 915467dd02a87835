//! A resource-safety and lifecycle bridge for a display-server protocol
//! client: native protocol objects (connections, event queues, registries)
//! are owned by a handle table and exposed to callers only as opaque
//! integer handles, with a verified model of handle allocation, connection
//! lifecycle, and the server-advertised "globals" snapshot.

pub mod bridge;
pub mod errors;
pub mod globals;
pub mod table;
