//! The ways in which decoding and proof checking fail.

use vstd::prelude::*;
use vstd::string::StringExecFns;

verus! {

/// The decimal digits of `n`.
pub open spec fn decimal_digits(n: nat) -> Seq<char>
    decreases n,
{
    let last = seq![(('0' as u8) + (n % 10) as u8) as char];
    if n < 10 {
        last
    } else {
        decimal_digits(n / 10) + last
    }
}

/// The decimal digit for a number below ten.
fn decimal_digit(n: usize) -> (digit: &'static str)
    requires
        n < 10,
    ensures
        digit@ == seq![(('0' as u8) + n as u8) as char],
{
    proof {
        reveal_strlit("0");
        reveal_strlit("1");
        reveal_strlit("2");
        reveal_strlit("3");
        reveal_strlit("4");
        reveal_strlit("5");
        reveal_strlit("6");
        reveal_strlit("7");
        reveal_strlit("8");
        reveal_strlit("9");
    }
    let digit = if n == 0 {
        "0"
    } else if n == 1 {
        "1"
    } else if n == 2 {
        "2"
    } else if n == 3 {
        "3"
    } else if n == 4 {
        "4"
    } else if n == 5 {
        "5"
    } else if n == 6 {
        "6"
    } else if n == 7 {
        "7"
    } else if n == 8 {
        "8"
    } else {
        "9"
    };
    assert(digit@ =~= seq![(('0' as u8) + n as u8) as char]);
    digit
}

/// Writes `n` in decimal.
pub fn decimal_string(n: usize) -> (text: String)
    ensures
        text@ == decimal_digits(n as nat),
    decreases n,
{
    if n < 10 {
        decimal_digit(n).to_string()
    } else {
        decimal_string(n / 10).concat(decimal_digit(n % 10))
    }
}

/// Why a byte string is not the encoding it was taken for.
#[derive(Clone, Copy, Debug, PartialEq, Eq, Structural)]
pub enum DecodeError {
    /// There is no byte where an item has to start.
    Empty,
    /// A prefix announces more bytes than the input holds.
    Truncated,
    /// A length field has more bytes than a machine word.
    LengthTooLarge,
    /// A list stands where a byte string is expected, or the other way round.
    UnexpectedKind,
    /// The bytes are a longer way of writing a value that has a shorter encoding.
    NonCanonical,
    /// A field is wider than its type, or a hash is not 32 bytes long.
    WrongLength,
    /// Bytes are left over behind the value.
    TrailingBytes,
}

/// Why a list of trie nodes authenticates no verdict.
#[derive(Clone, Copy, Debug, PartialEq, Eq, Structural)]
pub enum ProofError {
    /// A node, or the value at the end of the walk, is malformed.
    Decode(DecodeError),
    /// No node was supplied although the root is not the empty root.
    EmptyProof,
    /// The node at `index` does not hash to the reference that leads to it.
    HashMismatch { index: usize },
    /// The node at `index` has fewer than 32 bytes and is held by hash, where
    /// such a node stands inside its parent.
    MisplacedNode { index: usize },
    /// The node at `index`, or a node embedded in it, is a list of neither 2 nor 17 items.
    InvalidNode { index: usize },
    /// In the node at `index` the reference to follow has more than 32 bytes,
    /// or is empty where an extension needs a child.
    InvalidReference { index: usize },
    /// The nodes ran out before the walk reached a verdict.
    Incomplete,
}

/// Why a configuration is refused.
#[derive(Clone, Copy, Debug, PartialEq, Eq, Structural)]
pub enum ConfigError {
    /// The network is none of mainnet, sepolia and holesky.
    InvalidNetwork,
    /// No execution node is named in the environment.
    ExecutionRpcRequired,
    /// The address of the execution node is empty.
    ExecutionRpcEmpty,
    /// The light client is enabled and the address of the consensus node is empty.
    ConsensusRpcEmpty,
    /// The checkpoint is not the hexadecimal form of 32 bytes.
    InvalidCheckpoint,
}

impl DecodeError {
    /// What went wrong, in words.
    pub open spec fn text(self) -> Seq<char> {
        match self {
            DecodeError::Empty => "no bytes where an item starts"@,
            DecodeError::Truncated => "item truncated"@,
            DecodeError::LengthTooLarge => "length too large for a machine word"@,
            DecodeError::UnexpectedKind => "list where a byte string belongs, or the reverse"@,
            DecodeError::NonCanonical => "encoding is not canonical"@,
            DecodeError::WrongLength => "field of the wrong length"@,
            DecodeError::TrailingBytes => "bytes left over"@,
        }
    }

    /// What went wrong, in words.
    pub fn message(&self) -> (text: String)
        ensures
            text@ == self.text(),
    {
        match self {
            DecodeError::Empty => "no bytes where an item starts".to_string(),
            DecodeError::Truncated => "item truncated".to_string(),
            DecodeError::LengthTooLarge => "length too large for a machine word".to_string(),
            DecodeError::UnexpectedKind => {
                "list where a byte string belongs, or the reverse".to_string()
            },
            DecodeError::NonCanonical => "encoding is not canonical".to_string(),
            DecodeError::WrongLength => "field of the wrong length".to_string(),
            DecodeError::TrailingBytes => "bytes left over".to_string(),
        }
    }
}

impl ProofError {
    /// What went wrong, in words.
    pub open spec fn text(self) -> Seq<char> {
        match self {
            ProofError::Decode(e) => "Malformed node: "@ + e.text(),
            ProofError::EmptyProof => "Empty proof for non-empty root"@,
            ProofError::HashMismatch { index } => "Node hash mismatch at index "@ + decimal_digits(
                index as nat,
            ),
            ProofError::MisplacedNode { index } => "Invalid embedded node at index "@
                + decimal_digits(index as nat),
            ProofError::InvalidNode { index } => "Invalid node at index "@ + decimal_digits(
                index as nat,
            ),
            ProofError::InvalidReference { index } => "Invalid child reference at index "@
                + decimal_digits(index as nat),
            ProofError::Incomplete => "Incomplete proof"@,
        }
    }

    /// What went wrong, in words.
    pub fn message(&self) -> (text: String)
        ensures
            text@ == self.text(),
    {
        match self {
            ProofError::Decode(e) => "Malformed node: ".to_string().concat(e.message().as_str()),
            ProofError::EmptyProof => "Empty proof for non-empty root".to_string(),
            ProofError::HashMismatch { index } => {
                "Node hash mismatch at index ".to_string().concat(decimal_string(*index).as_str())
            },
            ProofError::MisplacedNode { index } => {
                "Invalid embedded node at index ".to_string().concat(
                    decimal_string(*index).as_str(),
                )
            },
            ProofError::InvalidNode { index } => "Invalid node at index ".to_string().concat(
                decimal_string(*index).as_str(),
            ),
            ProofError::InvalidReference { index } => {
                "Invalid child reference at index ".to_string().concat(
                    decimal_string(*index).as_str(),
                )
            },
            ProofError::Incomplete => "Incomplete proof".to_string(),
        }
    }
}

impl ConfigError {
    /// What went wrong, in words.
    pub open spec fn text(self) -> Seq<char> {
        match self {
            ConfigError::InvalidNetwork => {
                "Invalid network. Must be mainnet, sepolia, or holesky"@
            },
            ConfigError::ExecutionRpcRequired => {
                "DVRPC_EXECUTION_RPC environment variable is required"@
            },
            ConfigError::ExecutionRpcEmpty => "execution_rpc must be configured"@,
            ConfigError::ConsensusRpcEmpty => {
                "consensus_rpc must be configured when consensus is enabled"@
            },
            ConfigError::InvalidCheckpoint => "checkpoint must be 32 bytes in hexadecimal"@,
        }
    }

    /// What went wrong, in words.
    pub fn message(&self) -> (text: String)
        ensures
            text@ == self.text(),
    {
        match self {
            ConfigError::InvalidNetwork => {
                "Invalid network. Must be mainnet, sepolia, or holesky".to_string()
            },
            ConfigError::ExecutionRpcRequired => {
                "DVRPC_EXECUTION_RPC environment variable is required".to_string()
            },
            ConfigError::ExecutionRpcEmpty => "execution_rpc must be configured".to_string(),
            ConfigError::ConsensusRpcEmpty => {
                "consensus_rpc must be configured when consensus is enabled".to_string()
            },
            ConfigError::InvalidCheckpoint => {
                "checkpoint must be 32 bytes in hexadecimal".to_string()
            },
        }
    }
}

} // verus!
