//! Building blocks of a local network scanner: address-range expansion,
//! port-range parsing, a bounded sweep scheduler and a deduplicating
//! result store, each with a machine-checked contract.
//!
//! The library does no input or output.  Probing hosts and ports, asking a
//! resolver and reading or writing the store files is the caller's part;
//! the library says which hosts and ports to probe, schedules the probes,
//! reads what came back and composes what is to be written.

pub mod address;
pub mod dns;
pub mod error;
pub mod ports;
pub mod store;
pub mod sweep;
pub mod text;

pub use address::{generate_ip_range, host_text, parse_address, parse_cidr, IpAddress};
pub use dns::{attempt_zone_transfer, discover_subdomains, resolve_host};
pub use error::ScanError;
pub use ports::{expand_port_range, identify_service, parse_port_range};
pub use store::{
    db_directory_in, db_path_in, degraded_db_path, get_db_directory, get_db_path, load_hosts,
    load_services, save_host, save_service, store_path_in, HOSTS_DB_FILE, SERVICES_DB_FILE,
};
pub use sweep::{SweepAction, SweepEngine, UnitStatus};
