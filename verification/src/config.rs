//! Configuration: the nodes to dream against, the sinks to post to, and the
//! startup validation rules. Node and label names are held as UTF-8 bytes so
//! that equality and ordering are plain byte comparisons.

use vstd::prelude::*;

verus! {

/// The command line: where the configuration file lives, and how long a
/// genesis-state download may take.
pub struct CliConfig {
    /// Path to a TOML configuration file.
    pub config: String,
    /// Timeout for genesis state download, in seconds.
    pub genesis_state_timeout: u64,
}

/// The genesis-state download timeout used when the command line names none.
pub fn default_genesis_state_timeout() -> (t: u64)
    ensures
        t == 180,
{
    180
}

/// One candidate block-producing node.
#[derive(Clone, Debug)]
pub struct Node {
    /// Unique name of the node.
    pub name: Vec<u8>,
    /// Implementation family; two nodes may share a label.
    pub label: Vec<u8>,
    /// Base URL of the node's HTTP API.
    pub url: String,
    /// Ask the node to skip verifying the RANDAO reveal.
    pub skip_randao_verification: bool,
    /// Deprecated; ignored with a warning.
    pub use_builder: bool,
    /// Request blocks over SSZ rather than JSON.
    pub ssz: bool,
    /// Use the v3 block-production endpoint.
    pub v3: bool,
    /// Whether the node takes part at all.
    pub enabled: bool,
    /// Advisory builder preference.
    pub builder_boost_factor: Option<u64>,
}

/// One sink to POST collected blocks to.
#[derive(Clone, Debug)]
pub struct PostEndpointConfig {
    pub name: Vec<u8>,
    /// URL to send data to.
    pub url: String,
    /// Directory to save post responses to.
    pub results_dir: Option<String>,
    /// Whether to post extra data about the nodes that produced the blocks.
    pub extra_data: bool,
    /// Whether to compare attestation rewards after posting.
    pub compare_rewards: bool,
    /// Only post blocks if all nodes returned one.
    pub require_all: bool,
    /// Only post blocks if all blocks build on the same parent.
    pub require_same_parent: bool,
}

/// The whole configuration file.
pub struct Config {
    /// Name of a known network; exactly one of this and `network_dir`.
    pub network: Option<String>,
    /// Path to a network definition directory.
    pub network_dir: Option<String>,
    /// URL of the canonical beacon node.
    pub canonical_bn: String,
    /// Sinks to push the dreamt blocks to.
    pub post_endpoints: Vec<PostEndpointConfig>,
    /// The candidate nodes.
    pub nodes: Vec<Node>,
}

/// The default of the config flags that are on unless switched off.
pub fn default_true() -> (b: bool)
    ensures
        b,
{
    true
}

/// A fatal flaw in the configuration.
#[derive(PartialEq, Eq, Structural, Debug, Clone, Copy)]
pub enum ConfigError {
    /// Both `network` and `network_dir` are set.
    ConflictingNetworkSources,
    /// Neither `network` nor `network_dir` is set.
    MissingNetworkSource,
}

/// Where the network parameters come from.
pub enum NetworkSource {
    /// A known network, by name.
    Named(String),
    /// A directory holding the network definition.
    Directory(String),
}

impl Config {
    /// Exactly one of `network` and `network_dir` must be set; the one that
    /// is names the network source.
    pub fn network_source(&self) -> (r: Result<NetworkSource, ConfigError>)
        ensures
            r.is_ok() <==> (self.network.is_some() != self.network_dir.is_some()),
            self.network.is_some() && self.network_dir.is_some() ==> (r matches Err(e) && e
                == ConfigError::ConflictingNetworkSources),
            self.network.is_none() && self.network_dir.is_none() ==> (r matches Err(e) && e
                == ConfigError::MissingNetworkSource),
            (self.network matches Some(n) && self.network_dir.is_none()) ==> (r matches Ok(
                NetworkSource::Named(m),
            ) && m@ == self.network.unwrap()@),
            (self.network.is_none() && self.network_dir matches Some(d)) ==> (r matches Ok(
                NetworkSource::Directory(e),
            ) && e@ == self.network_dir.unwrap()@),
    {
        match (&self.network, &self.network_dir) {
            (Some(network), None) => Ok(NetworkSource::Named(network.clone())),
            (None, Some(dir)) => Ok(NetworkSource::Directory(dir.clone())),
            (Some(_), Some(_)) => Err(ConfigError::ConflictingNetworkSources),
            (None, None) => Err(ConfigError::MissingNetworkSource),
        }
    }

    /// The `(name, label)` pairs of the enabled nodes, in configuration
    /// order.
    pub fn enabled_labels(&self) -> (r: Vec<(Vec<u8>, Vec<u8>)>)
        ensures
            r@.map_values(|p: (Vec<u8>, Vec<u8>)| (p.0@, p.1@)) == enabled_pairs(self.nodes@),
    {
        let mut r: Vec<(Vec<u8>, Vec<u8>)> = Vec::new();
        let mut i: usize = 0;
        while i < self.nodes.len()
            invariant
                0 <= i <= self.nodes@.len(),
                r@.map_values(|p: (Vec<u8>, Vec<u8>)| (p.0@, p.1@)) == enabled_pairs(
                    self.nodes@.take(i as int),
                ),
            decreases self.nodes@.len() - i,
        {
            let ghost pre = r@;
            proof {
                assert(self.nodes@.take(i + 1).drop_last() =~= self.nodes@.take(i as int));
            }
            if self.nodes[i].enabled {
                let name = clone_bytes(&self.nodes[i].name);
                let label = clone_bytes(&self.nodes[i].label);
                r.push((name, label));
                proof {
                    assert(r@.map_values(|p: (Vec<u8>, Vec<u8>)| (p.0@, p.1@)) =~= pre.map_values(
                        |p: (Vec<u8>, Vec<u8>)| (p.0@, p.1@),
                    ).push((self.nodes@[i as int].name@, self.nodes@[i as int].label@)));
                    assert(r@.map_values(|p: (Vec<u8>, Vec<u8>)| (p.0@, p.1@)) =~= enabled_pairs(
                        self.nodes@.take(i + 1),
                    ));
                }
            } else {
                proof {
                    assert(r@.map_values(|p: (Vec<u8>, Vec<u8>)| (p.0@, p.1@)) =~= enabled_pairs(
                        self.nodes@.take(i + 1),
                    ));
                }
            }
            i += 1;
        }
        proof {
            assert(self.nodes@.take(self.nodes@.len() as int) =~= self.nodes@);
        }
        r
    }
}

/// The `(name, label)` views of the enabled nodes, in order.
pub open spec fn enabled_pairs(nodes: Seq<Node>) -> Seq<(Seq<u8>, Seq<u8>)>
    decreases nodes.len(),
{
    if nodes.len() == 0 {
        Seq::empty()
    } else if nodes.last().enabled {
        enabled_pairs(nodes.drop_last()).push((nodes.last().name@, nodes.last().label@))
    } else {
        enabled_pairs(nodes.drop_last())
    }
}

/// Copy a byte string.
pub fn clone_bytes(v: &Vec<u8>) -> (r: Vec<u8>)
    ensures
        r@ == v@,
{
    let mut r: Vec<u8> = Vec::new();
    let mut i: usize = 0;
    while i < v.len()
        invariant
            0 <= i <= v@.len(),
            r@ == v@.take(i as int),
        decreases v@.len() - i,
    {
        r.push(v[i]);
        proof {
            assert(v@.take(i + 1) =~= v@.take(i as int).push(v@[i as int]));
        }
        i += 1;
    }
    proof {
        assert(v@.take(v@.len() as int) =~= v@);
    }
    r
}

} // verus!
