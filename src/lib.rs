//! An SNMPv2c agent's core: object identifiers and their order, the ordered value
//! store, the GetNext walk, the wire encoding of responses, and the probes that turn
//! what Linux reports into MIB table rows.

pub mod agent;
pub mod ber;
pub mod mib_disks;
pub mod mib_extend;
pub mod mib_net;
pub mod mib_procs;
pub mod mib_sys;
pub mod oid;
pub mod refresh;
pub mod store;
pub mod text;
pub mod value;
