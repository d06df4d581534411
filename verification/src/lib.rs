//! IPv4 and IPv6 addressing arithmetic: subnet masks, wildcard masks, network
//! descriptors, host capacities, and variable-length subnet allocation.
pub mod utils;
