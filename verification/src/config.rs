//! The node's configuration and the rules it has to meet.

use vstd::prelude::*;
use crate::error::ConfigError;

verus! {

/// The lower-case form that `str::to_lowercase` gives to a string.
pub uninterp spec fn lowercase_of(text: Seq<char>) -> Seq<char>;

/// Calls `str::to_lowercase`. Trusted: the string that comes back depends on
/// `text` alone.
#[verifier::external_body]
fn to_lowercase(text: &str) -> (lower: String)
    ensures
        lower@ == lowercase_of(text@),
{
    text.to_lowercase()
}

/// The chain that the node follows.
#[derive(Clone, Copy, Debug, PartialEq, Eq, Structural)]
pub enum Network {
    Mainnet,
    Sepolia,
    Holesky,
}

/// Where the node listens, and for how many clients at once.
#[derive(Debug)]
pub struct ServerConfig {
    pub host: String,
    pub port: u16,
    pub max_connections: usize,
}

/// The chain and the two nodes that the gateway talks to.
#[derive(Debug)]
pub struct EthereumConfig {
    pub network: Network,
    pub execution_rpc: String,
    pub consensus_rpc: String,
    pub chain_id: u64,
}

/// Whether and from where the light client follows the chain.
#[derive(Debug)]
pub struct ConsensusConfig {
    pub enabled: bool,
    pub checkpoint: Option<String>,
    pub data_dir: String,
}

/// Whether proofs are checked, and how many are kept.
#[derive(Debug)]
pub struct ProofConfig {
    pub enabled: bool,
    pub cache_size: usize,
}

/// How the node logs.
#[derive(Debug)]
pub struct LoggingConfig {
    pub level: String,
    pub format: String,
}

/// The whole configuration.
#[derive(Debug)]
pub struct Config {
    pub server: ServerConfig,
    pub ethereum: EthereumConfig,
    pub consensus: ConsensusConfig,
    pub proof: ProofConfig,
    pub logging: LoggingConfig,
}

impl Clone for ServerConfig {
    fn clone(&self) -> (copy: Self)
        ensures
            copy == *self,
    {
        ServerConfig {
            host: self.host.clone(),
            port: self.port,
            max_connections: self.max_connections,
        }
    }
}

impl Clone for EthereumConfig {
    fn clone(&self) -> (copy: Self)
        ensures
            copy == *self,
    {
        EthereumConfig {
            network: self.network,
            execution_rpc: self.execution_rpc.clone(),
            consensus_rpc: self.consensus_rpc.clone(),
            chain_id: self.chain_id,
        }
    }
}

impl Clone for ConsensusConfig {
    fn clone(&self) -> (copy: Self)
        ensures
            copy == *self,
    {
        let checkpoint = match &self.checkpoint {
            Some(root) => Some(root.clone()),
            None => None,
        };
        ConsensusConfig { enabled: self.enabled, checkpoint, data_dir: self.data_dir.clone() }
    }
}

impl Clone for ProofConfig {
    fn clone(&self) -> (copy: Self)
        ensures
            copy == *self,
    {
        ProofConfig { enabled: self.enabled, cache_size: self.cache_size }
    }
}

impl Clone for LoggingConfig {
    fn clone(&self) -> (copy: Self)
        ensures
            copy == *self,
    {
        LoggingConfig { level: self.level.clone(), format: self.format.clone() }
    }
}

impl Clone for Config {
    fn clone(&self) -> (copy: Self)
        ensures
            copy == *self,
    {
        Config {
            server: self.server.clone(),
            ethereum: self.ethereum.clone(),
            consensus: self.consensus.clone(),
            proof: self.proof.clone(),
            logging: self.logging.clone(),
        }
    }
}

impl Network {
    /// The identifier of the chain.
    pub open spec fn spec_chain_id(&self) -> u64 {
        match self {
            Network::Mainnet => 1,
            Network::Sepolia => 11155111,
            Network::Holesky => 17000,
        }
    }

    /// The identifier of the chain.
    #[verifier::when_used_as_spec(spec_chain_id)]
    pub fn chain_id(&self) -> (id: u64)
        ensures
            id == self.spec_chain_id(),
    {
        match self {
            Network::Mainnet => 1,
            Network::Sepolia => 11155111,
            Network::Holesky => 17000,
        }
    }

    /// The time of slot 0 of the network's beacon chain, in seconds since 1970.
    pub open spec fn spec_genesis_time(&self) -> u64 {
        match self {
            Network::Mainnet => 1606824023,
            Network::Sepolia => 1655733600,
            Network::Holesky => 1695902400,
        }
    }

    /// The time of slot 0 of the network's beacon chain, in seconds since 1970.
    #[verifier::when_used_as_spec(spec_genesis_time)]
    pub fn genesis_time(&self) -> (time: u64)
        ensures
            time == self.spec_genesis_time(),
    {
        match self {
            Network::Mainnet => 1606824023,
            Network::Sepolia => 1655733600,
            Network::Holesky => 1695902400,
        }
    }

    /// The slot whose block carries the time `timestamp`: slots are 12 seconds
    /// apart from the genesis time on. A time that is no slot's has none.
    pub open spec fn spec_slot_at(&self, timestamp: u64) -> Option<u64> {
        let since = timestamp - self.spec_genesis_time();
        if since >= 0 && since % 12 == 0 {
            Some((since / 12) as u64)
        } else {
            None
        }
    }

    /// The slot whose block carries the time `timestamp`.
    #[verifier::when_used_as_spec(spec_slot_at)]
    pub fn slot_at(&self, timestamp: u64) -> (slot: Option<u64>)
        ensures
            slot == self.spec_slot_at(timestamp),
            slot matches Some(s) ==> timestamp == self.spec_genesis_time() + 12 * s,
    {
        let genesis = self.genesis_time();
        if timestamp < genesis || (timestamp - genesis) % 12 != 0 {
            return None;
        }
        Some((timestamp - genesis) / 12)
    }

    /// The name of the network, in lower case.
    pub open spec fn name(self) -> Seq<char> {
        match self {
            Network::Mainnet => "mainnet"@,
            Network::Sepolia => "sepolia"@,
            Network::Holesky => "holesky"@,
        }
    }

    /// The name of the network, in lower case.
    pub fn to_string(&self) -> (name: String)
        ensures
            name@ == self.name(),
    {
        match self {
            Network::Mainnet => "mainnet".to_string(),
            Network::Sepolia => "sepolia".to_string(),
            Network::Holesky => "holesky".to_string(),
        }
    }

    /// The network that a lower-case name stands for.
    pub open spec fn named(name: Seq<char>) -> Option<Network> {
        if name == "mainnet"@ {
            Some(Network::Mainnet)
        } else if name == "sepolia"@ {
            Some(Network::Sepolia)
        } else if name == "holesky"@ {
            Some(Network::Holesky)
        } else {
            None
        }
    }

    /// The network that a lower-case name stands for.
    pub fn from_lowercase(name: &String) -> (network: Option<Network>)
        ensures
            network == Network::named(name@),
    {
        if *name == "mainnet".to_string() {
            Some(Network::Mainnet)
        } else if *name == "sepolia".to_string() {
            Some(Network::Sepolia)
        } else if *name == "holesky".to_string() {
            Some(Network::Holesky)
        } else {
            None
        }
    }

    /// Reads the name of a network, in any mix of upper and lower case.
    pub fn from_str(text: &str) -> (r: Result<Network, ConfigError>)
        ensures
            r == match Network::named(lowercase_of(text@)) {
                Some(network) => Ok::<Network, ConfigError>(network),
                None => Err(ConfigError::InvalidNetwork),
            },
    {
        match Network::from_lowercase(&to_lowercase(text)) {
            Some(network) => Ok(network),
            None => Err(ConfigError::InvalidNetwork),
        }
    }
}

/// The host that the node listens on unless told otherwise: every interface.
pub fn default_host() -> (host: String)
    ensures
        host@ == "0.0.0.0"@,
{
    "0.0.0.0".to_string()
}

/// The port that the node listens on unless told otherwise.
pub fn default_port() -> (port: u16)
    ensures
        port == 8545,
{
    8545
}

/// The number of clients served at once unless told otherwise.
pub fn default_max_connections() -> (count: usize)
    ensures
        count == 100,
{
    100
}

/// The chain identifier unless told otherwise: that of mainnet.
pub fn default_chain_id() -> (id: u64)
    ensures
        id == 1,
{
    1
}

/// What a switch is set to unless told otherwise: on.
pub fn default_true() -> (on: bool)
    ensures
        on,
{
    true
}

/// Where the light client keeps its data unless told otherwise.
pub fn default_data_dir() -> (dir: String)
    ensures
        dir@ == "./data/consensus"@,
{
    "./data/consensus".to_string()
}

/// The number of proofs kept unless told otherwise.
pub fn default_cache_size() -> (size: usize)
    ensures
        size == 128,
{
    128
}

/// The log level unless told otherwise.
pub fn default_log_level() -> (level: String)
    ensures
        level@ == "info"@,
{
    "info".to_string()
}

/// The log format unless told otherwise.
pub fn default_log_format() -> (format: String)
    ensures
        format@ == "pretty"@,
{
    "pretty".to_string()
}

impl Default for ServerConfig {
    fn default() -> (server: Self)
        ensures
            server.host@ == "0.0.0.0"@,
            server.port == 8545,
            server.max_connections == 100,
    {
        ServerConfig {
            host: default_host(),
            port: default_port(),
            max_connections: default_max_connections(),
        }
    }
}

impl Default for LoggingConfig {
    fn default() -> (logging: Self)
        ensures
            logging.level@.len() == 0,
            logging.format@.len() == 0,
    {
        LoggingConfig { level: String::new(), format: String::new() }
    }
}

impl Config {
    /// The rule that the configuration breaks, if any: it has to name an
    /// execution node, and a consensus node too where the light client is
    /// enabled.
    pub open spec fn fault(&self) -> Option<ConfigError> {
        if self.ethereum.execution_rpc@.len() == 0 {
            Some(ConfigError::ExecutionRpcEmpty)
        } else if self.consensus.enabled && self.ethereum.consensus_rpc@.len() == 0 {
            Some(ConfigError::ConsensusRpcEmpty)
        } else {
            None
        }
    }

    /// Checks the configuration against its rules.
    pub fn validate(&self) -> (r: Result<(), ConfigError>)
        ensures
            r == match self.fault() {
                Some(e) => Err::<(), ConfigError>(e),
                None => Ok(()),
            },
    {
        if self.ethereum.execution_rpc.as_str().is_empty() {
            return Err(ConfigError::ExecutionRpcEmpty);
        }
        if self.consensus.enabled && self.ethereum.consensus_rpc.as_str().is_empty() {
            return Err(ConfigError::ConsensusRpcEmpty);
        }
        Ok(())
    }
}

/// The value of a decimal digit, and `None` for any other character.
pub open spec fn digit_value(c: char) -> Option<nat> {
    if '0' <= c <= '9' {
        Some((c as u32 - '0' as u32) as nat)
    } else {
        None
    }
}

/// Every character is a decimal digit.
pub open spec fn all_digits(text: Seq<char>) -> bool {
    forall|i: int| 0 <= i < text.len() ==> (#[trigger] digit_value(text[i])) is Some
}

/// The number that decimal digits denote.
pub open spec fn decimal_value(digits: Seq<char>) -> nat
    decreases digits.len(),
{
    if digits.len() == 0 {
        0
    } else {
        decimal_value(digits.drop_last()) * 10 + match digit_value(digits.last()) {
            Some(d) => d,
            None => 0,
        }
    }
}

/// The number up to `max` that `text` is the decimal form of: digits only,
/// at least one, behind at most one `+`.
pub open spec fn decimal_in_range(text: Seq<char>, max: nat) -> Option<nat> {
    let digits = if text.len() > 0 && text[0] == '+' {
        text.skip(1)
    } else {
        text
    };
    if digits.len() > 0 && all_digits(digits) && decimal_value(digits) <= max {
        Some(decimal_value(digits))
    } else {
        None
    }
}

/// A number is at least what its first digits denote.
proof fn lemma_decimal_value_grows(digits: Seq<char>, count: int)
    requires
        0 <= count <= digits.len(),
    ensures
        decimal_value(digits.take(count)) <= decimal_value(digits),
    decreases digits.len() - count,
{
    if count < digits.len() {
        lemma_decimal_value_grows(digits, count + 1);
        assert(digits.take(count + 1).drop_last() == digits.take(count));
    } else {
        assert(digits.take(count) == digits);
    }
}

/// Reads a decimal number up to `max`: digits only, at least one, behind at
/// most one `+`.
pub fn parse_decimal(text: &str, max: u64) -> (r: Option<u64>)
    ensures
        r == match decimal_in_range(text@, max as nat) {
            Some(n) => Some(n as u64),
            None => None::<u64>,
        },
{
    if !text.is_ascii() {
        proof {
            let digits = if text@.len() > 0 && text@[0] == '+' {
                text@.skip(1)
            } else {
                text@
            };
            if digits.len() > 0 && all_digits(digits) {
                assert forall|i: int| 0 <= i < text@.len() implies '\0' <= #[trigger] text@[i]
                    <= '\u{7f}' by {
                    if text@[i] != '+' {
                        let k = if digits.len() == text@.len() {
                            i
                        } else {
                            i - 1
                        };
                        assert(digit_value(digits[k]) is Some);
                    }
                }
            }
        }
        return None;
    }
    let len = text.unicode_len();
    let start: usize = if len > 0 && text.get_ascii(0) == 0x2b {
        1
    } else {
        0
    };
    let ghost digits = text@.skip(start as int);
    proof {
        if len > 0 {
            assert('\0' <= text@[0] <= '\u{7f}');
        }
        assert(text@.skip(0) == text@);
    }
    if start == len {
        return None;
    }
    let mut value: u64 = 0;
    let mut i: usize = start;
    while i < len
        invariant
            start <= i <= len,
            len == text@.len(),
            text.is_ascii(),
            digits == text@.skip(start as int),
            digits.len() > 0,
            digits == if text@.len() > 0 && text@[0] == '+' {
                text@.skip(1)
            } else {
                text@
            },
            all_digits(digits.take(i - start)),
            value == decimal_value(digits.take(i - start)),
            value <= max,
        decreases len - i,
    {
        let byte = text.get_ascii(i);
        let ghost next = digits.take(i - start + 1);
        proof {
            assert(next.drop_last() == digits.take(i - start));
            assert(next.last() == text@[i as int]);
            assert('\0' <= text@[i as int] <= '\u{7f}');
        }
        if byte < 0x30 || byte > 0x39 {
            assert(digit_value(digits[i - start]) is None);
            return None;
        }
        let digit = (byte - 0x30) as u64;
        assert(digit_value(next.last()) == Some(digit as nat));
        if digit > max || value > (max - digit) / 10 {
            proof {
                lemma_decimal_value_grows(digits, i - start + 1);
            }
            return None;
        }
        value = value * 10 + digit;
        proof {
            assert forall|k: int| 0 <= k < next.len() implies (#[trigger] digit_value(next[k]))
                is Some by {
                if k < next.len() - 1 {
                    assert(next[k] == digits.take(i - start)[k]);
                }
            }
        }
        i += 1;
    }
    assert(digits.take(i - start) == digits);
    Some(value)
}

/// What the environment sets, one entry for each variable that the node
/// reads; `None` where a variable is not set.
#[derive(Debug)]
pub struct EnvVars {
    pub host: Option<String>,
    pub port: Option<String>,
    pub max_connections: Option<String>,
    pub network: Option<String>,
    pub chain_id: Option<String>,
    pub execution_rpc: Option<String>,
    pub consensus_rpc: Option<String>,
    pub consensus_enabled: Option<String>,
    pub checkpoint: Option<String>,
    pub data_dir: Option<String>,
    pub proof_enabled: Option<String>,
    pub cache_size: Option<String>,
    pub log_level: Option<String>,
    pub log_format: Option<String>,
}

/// Whether a switch is on, given what it is set to and the lower-case form of
/// that: on for `true` in any mix of case and for `1`.
pub open spec fn flag_is_on(text: Seq<char>, lower: Seq<char>) -> bool {
    lower == "true"@ || text == "1"@
}

/// Whether a switch is on, given what it is set to and the lower-case form of
/// that.
pub fn flag_from_lowercase(text: &str, lower: &String) -> (on: bool)
    ensures
        on == flag_is_on(text@, lower@),
{
    *lower == "true".to_string() || text.to_string() == "1".to_string()
}

/// Whether a switch is on: it is for `true` in any mix of case and for `1`.
pub fn parse_flag(text: &str) -> (on: bool)
    ensures
        on == flag_is_on(text@, lowercase_of(text@)),
{
    flag_from_lowercase(text, &to_lowercase(text))
}

/// The text of a variable, or of nothing.
pub open spec fn text_of(var: Option<String>) -> Option<Seq<char>> {
    match var {
        Some(text) => Some(text@),
        None => None,
    }
}

/// What a switch comes to: on unless it is set to something else than on.
pub open spec fn flag_or_on(var: Option<Seq<char>>) -> bool {
    match var {
        Some(text) => flag_is_on(text, lowercase_of(text)),
        None => true,
    }
}

/// What a number comes to: `fallback` unless the variable holds a number up
/// to `max`.
pub open spec fn number_or(var: Option<Seq<char>>, max: nat, fallback: nat) -> nat {
    match var {
        Some(text) => match decimal_in_range(text, max) {
            Some(n) => n,
            None => fallback,
        },
        None => fallback,
    }
}

/// What a text comes to: `fallback` unless the variable is set.
pub open spec fn text_or(var: Option<Seq<char>>, fallback: Seq<char>) -> Seq<char> {
    match var {
        Some(text) => text,
        None => fallback,
    }
}

fn flag_var(var: &Option<String>) -> (on: bool)
    ensures
        on == flag_or_on(text_of(*var)),
{
    match var {
        Some(text) => parse_flag(text.as_str()),
        None => true,
    }
}

fn number_var(var: &Option<String>, max: u64, fallback: u64) -> (n: u64)
    requires
        fallback <= max,
    ensures
        n == number_or(text_of(*var), max as nat, fallback as nat),
        n <= max,
{
    match var {
        Some(text) => match parse_decimal(text.as_str(), max) {
            Some(n) => n,
            None => fallback,
        },
        None => fallback,
    }
}

fn text_var(var: &Option<String>, fallback: String) -> (text: String)
    ensures
        text@ == text_or(text_of(*var), fallback@),
{
    match var {
        Some(text) => text.clone(),
        None => fallback,
    }
}

impl Config {
    /// What the environment alone configures, before the rules are applied.
    ///
    /// The network is mainnet unless named. Numbers and switches that do not
    /// read as such count as not set. The chain identifier is that of the
    /// network unless set. An execution node has to be named; no consensus
    /// node is the empty address.
    pub open spec fn env_matches(&self, vars: EnvVars, network: Network) -> bool {
        &&& self.server.host@ == text_or(text_of(vars.host), "0.0.0.0"@)
        &&& self.server.port == number_or(text_of(vars.port), 0xffff, 8545)
        &&& self.server.max_connections == number_or(
            text_of(vars.max_connections),
            usize::MAX as nat,
            100,
        )
        &&& self.ethereum.network == network
        &&& vars.execution_rpc matches Some(url) && self.ethereum.execution_rpc@ == url@
        &&& self.ethereum.consensus_rpc@ == text_or(text_of(vars.consensus_rpc), Seq::empty())
        &&& self.ethereum.chain_id == number_or(
            text_of(vars.chain_id),
            u64::MAX as nat,
            network.spec_chain_id() as nat,
        )
        &&& self.consensus.enabled == flag_or_on(text_of(vars.consensus_enabled))
        &&& text_of(self.consensus.checkpoint) == text_of(vars.checkpoint)
        &&& self.consensus.data_dir@ == text_or(text_of(vars.data_dir), "./data/consensus"@)
        &&& self.proof.enabled == flag_or_on(text_of(vars.proof_enabled))
        &&& self.proof.cache_size == number_or(text_of(vars.cache_size), usize::MAX as nat, 128)
        &&& self.logging.level@ == text_or(text_of(vars.log_level), "info"@)
        &&& self.logging.format@ == text_or(text_of(vars.log_format), "pretty"@)
    }

    /// The network that the environment names: mainnet where it names none.
    pub open spec fn env_network(vars: EnvVars) -> Option<Network> {
        match vars.network {
            Some(name) => Network::named(lowercase_of(name@)),
            None => Some(Network::Mainnet),
        }
    }

    /// Builds the configuration from what the environment sets.
    ///
    /// Fails with `InvalidNetwork` where the network is none of the three,
    /// else with `ExecutionRpcRequired` where no execution node is named, else
    /// with the rule that the result breaks. Otherwise the result is what
    /// `env_matches` describes.
    pub fn from_vars(vars: &EnvVars) -> (r: Result<Config, ConfigError>)
        ensures
            match Config::env_network(*vars) {
                None => r == Err::<Config, ConfigError>(ConfigError::InvalidNetwork),
                Some(network) => match vars.execution_rpc {
                    None => r == Err::<Config, ConfigError>(ConfigError::ExecutionRpcRequired),
                    Some(_) => match r {
                        Ok(config) => config.env_matches(*vars, network) && config.fault()
                            is None,
                        Err(e) => exists|config: Config|
                            config.env_matches(*vars, network) && config.fault() == Some(e),
                    },
                },
            },
    {
        let network = match &vars.network {
            Some(name) => Network::from_str(name.as_str())?,
            None => Network::Mainnet,
        };
        let chain_id = number_var(&vars.chain_id, u64::MAX, network.chain_id());
        let execution_rpc = match &vars.execution_rpc {
            Some(url) => url.clone(),
            None => {
                return Err(ConfigError::ExecutionRpcRequired);
            },
        };
        let checkpoint = match &vars.checkpoint {
            Some(root) => Some(root.clone()),
            None => None,
        };
        let config = Config {
            server: ServerConfig {
                host: text_var(&vars.host, default_host()),
                port: number_var(&vars.port, 0xffff, default_port() as u64) as u16,
                max_connections: number_var(
                    &vars.max_connections,
                    usize::MAX as u64,
                    default_max_connections() as u64,
                ) as usize,
            },
            ethereum: EthereumConfig {
                network,
                execution_rpc,
                consensus_rpc: text_var(&vars.consensus_rpc, String::new()),
                chain_id,
            },
            consensus: ConsensusConfig {
                enabled: flag_var(&vars.consensus_enabled),
                checkpoint,
                data_dir: text_var(&vars.data_dir, default_data_dir()),
            },
            proof: ProofConfig {
                enabled: flag_var(&vars.proof_enabled),
                cache_size: number_var(
                    &vars.cache_size,
                    usize::MAX as u64,
                    default_cache_size() as u64,
                ) as usize,
            },
            logging: LoggingConfig {
                level: text_var(&vars.log_level, default_log_level()),
                format: text_var(&vars.log_format, default_log_format()),
            },
        };
        assert(config.env_matches(*vars, network));
        match config.validate() {
            Ok(()) => Ok(config),
            Err(e) => Err(e),
        }
    }

    /// What a configuration comes to once the environment has overridden it:
    /// the host, the addresses of the two nodes, the checkpoint and the
    /// switch of the light client where they are set, and the port where it is
    /// set to a port.
    pub open spec fn overridden_by(&self, base: Config, vars: EnvVars) -> bool {
        &&& self.server.host@ == text_or(text_of(vars.host), base.server.host@)
        &&& self.server.port == number_or(text_of(vars.port), 0xffff, base.server.port as nat)
        &&& self.server.max_connections == base.server.max_connections
        &&& self.ethereum.network == base.ethereum.network
        &&& self.ethereum.execution_rpc@ == text_or(
            text_of(vars.execution_rpc),
            base.ethereum.execution_rpc@,
        )
        &&& self.ethereum.consensus_rpc@ == text_or(
            text_of(vars.consensus_rpc),
            base.ethereum.consensus_rpc@,
        )
        &&& self.ethereum.chain_id == base.ethereum.chain_id
        &&& self.consensus.enabled == match vars.consensus_enabled {
            Some(text) => flag_is_on(text@, lowercase_of(text@)),
            None => base.consensus.enabled,
        }
        &&& text_of(self.consensus.checkpoint) == match vars.checkpoint {
            Some(root) => Some(root@),
            None => text_of(base.consensus.checkpoint),
        }
        &&& self.consensus.data_dir == base.consensus.data_dir
        &&& self.proof == base.proof
        &&& self.logging == base.logging
    }

    /// Lets the environment override a configuration and checks the result
    /// against the rules.
    pub fn with_overrides(self, vars: &EnvVars) -> (r: Result<Config, ConfigError>)
        ensures
            match r {
                Ok(config) => config.overridden_by(self, *vars) && config.fault() is None,
                Err(e) => exists|config: Config|
                    config.overridden_by(self, *vars) && config.fault() == Some(e),
            },
    {
        let mut config = self;
        let ghost base = config;
        if let Some(host) = &vars.host {
            config.server.host = host.clone();
        }
        if let Some(port) = &vars.port {
            if let Some(p) = parse_decimal(port.as_str(), 0xffff) {
                config.server.port = p as u16;
            }
        }
        if let Some(url) = &vars.execution_rpc {
            config.ethereum.execution_rpc = url.clone();
        }
        if let Some(url) = &vars.consensus_rpc {
            config.ethereum.consensus_rpc = url.clone();
        }
        if let Some(root) = &vars.checkpoint {
            config.consensus.checkpoint = Some(root.clone());
        }
        if let Some(text) = &vars.consensus_enabled {
            config.consensus.enabled = parse_flag(text.as_str());
        }
        assert(config.overridden_by(base, *vars));
        match config.validate() {
            Ok(()) => Ok(config),
            Err(e) => Err(e),
        }
    }
}

} // verus!
