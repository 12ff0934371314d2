//! A network scanner's verified core: target and port-list parsing, the
//! decisions taken while probing hosts and ports, and the shaping of the
//! scan report.
mod models;
pub mod text;
pub mod ports;
pub mod targets;
pub mod address_set;
pub mod scanner;
pub mod report;

pub use models::{HostInfo, IpAddress, PortState, Protocol, ScanResult};
pub use ports::{parse_port_spec, select_ports, top_ports, IntErrorKind, PortSpecError};
pub use targets::{
    collect_targets, exclude_targets, parse_network, parse_target_list, parse_targets,
    target_names, IpNetwork, Target, TargetError,
};
pub use scanner::sanitize_banner;
