//! Node configuration.

use vstd::prelude::*;

verus! {

/// What a node needs to start: its name, where to listen, whom to dial
/// first, and where the embedded bridge listens.
pub struct AviP2pConfig {
    /// Human-readable name, used for discovery records.
    pub node_name: String,
    /// TCP port to listen on; zero lets the system choose.
    pub listen_port: u16,
    /// Multiaddresses to register and dial at startup.
    pub bootstrap_peers: Vec<String>,
    /// UDP port of the embedded bridge.
    pub udp_bridge_port: u16,
}

impl Default for AviP2pConfig {
    /// A default node: an empty name, system-chosen TCP port, no
    /// bootstrap peers, and the conventional bridge port.
    fn default() -> (r: AviP2pConfig)
        ensures
            r.node_name@ == Seq::<char>::empty(),
            r.listen_port == 0,
            r.bootstrap_peers@.len() == 0,
            r.udp_bridge_port == 8765,
    {
        AviP2pConfig {
            node_name: String::new(),
            listen_port: 0,
            bootstrap_peers: Vec::new(),
            udp_bridge_port: 8765,
        }
    }
}

} // verus!
