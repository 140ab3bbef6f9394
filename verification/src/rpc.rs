//! The decisions of the JSON-RPC front end: which method a request names,
//! which block to ask the upstream node for, and what to answer once the
//! claim has been checked.

use vstd::prelude::*;
use vstd::string::{StrSliceExecFns, StringExecFns};
use crate::bytes::{
    be_nat,
    left_pad_32,
    lemma_be_nat_all_zero,
    lemma_minimal_be_denotes,
    minimal_be_bytes,
    zeros,
};
use crate::error::ProofError;
use crate::types::{ConsensusProof, ProofData};
use crate::verify::{verify_complete_spec, ProofGenerator};

verus! {

/// A JSON value, carried through as it came.
#[verifier::external_type_specification]
#[verifier::external_body]
pub struct ExJsonValue(serde_json::Value);

/// The error code for a method that the node does not serve.
pub const METHOD_NOT_FOUND: i32 = -32601;

/// The error code for parameters that do not fit the method.
pub const INVALID_PARAMS: i32 = -32602;

/// The error code for everything that fails inside the node, a failed
/// verification included.
pub const INTERNAL_ERROR: i32 = -32603;

/// A request as it arrives.
#[derive(Debug)]
pub struct RpcRequest {
    pub jsonrpc: String,
    pub method: String,
    pub params: serde_json::Value,
    pub id: serde_json::Value,
}

/// A successful response, with the proof and the head it was checked against
/// where the client asked for them.
#[derive(Debug)]
pub struct RpcResponse<T> {
    pub jsonrpc: String,
    pub id: serde_json::Value,
    pub result: T,
    pub proof: Option<ProofData>,
    pub consensus: Option<ConsensusProof>,
}

/// The code and the message of an error.
#[derive(Clone, Debug)]
pub struct RpcErrorData {
    pub code: i32,
    pub message: String,
}

/// An error response.
#[derive(Debug)]
pub struct RpcError {
    pub jsonrpc: String,
    pub id: serde_json::Value,
    pub error: RpcErrorData,
}

impl<T> RpcResponse<T> {
    /// The response that carries `result` and nothing else.
    pub fn new(id: serde_json::Value, result: T) -> (response: Self)
        ensures
            response.jsonrpc@ == "2.0"@,
            response.id == id,
            response.result == result,
            response.proof is None,
            response.consensus is None,
    {
        Self { jsonrpc: "2.0".to_string(), id, result, proof: None, consensus: None }
    }

    /// The same response with the proof and the head attached.
    pub fn with_proof(self, proof: ProofData, consensus: ConsensusProof) -> (response: Self)
        ensures
            response.jsonrpc == self.jsonrpc,
            response.id == self.id,
            response.result == self.result,
            response.proof == Some(proof),
            response.consensus == Some(consensus),
    {
        let mut response = self;
        response.proof = Some(proof);
        response.consensus = Some(consensus);
        response
    }
}

impl RpcError {
    /// The error response with the given code and message.
    pub fn new(id: serde_json::Value, code: i32, message: String) -> (response: Self)
        ensures
            response.jsonrpc@ == "2.0"@,
            response.id == id,
            response.error.code == code,
            response.error.message == message,
    {
        Self { jsonrpc: "2.0".to_string(), id, error: RpcErrorData { code, message } }
    }

    /// The response for a failure inside the node.
    pub fn internal(id: serde_json::Value, message: String) -> (response: Self)
        ensures
            response.jsonrpc@ == "2.0"@,
            response.id == id,
            response.error.code == INTERNAL_ERROR,
            response.error.message == message,
    {
        Self::new(id, INTERNAL_ERROR, message)
    }

    /// The response for a method that the node does not serve.
    pub fn method_not_found(id: serde_json::Value) -> (response: Self)
        ensures
            response.jsonrpc@ == "2.0"@,
            response.id == id,
            response.error.code == METHOD_NOT_FOUND,
            response.error.message@ == "Method not found"@,
    {
        Self::new(id, METHOD_NOT_FOUND, "Method not found".to_string())
    }

    /// The response for parameters that do not fit the method.
    pub fn invalid_params(id: serde_json::Value, message: String) -> (response: Self)
        ensures
            response.jsonrpc@ == "2.0"@,
            response.id == id,
            response.error.code == INVALID_PARAMS,
            response.error.message == message,
    {
        Self::new(id, INVALID_PARAMS, message)
    }
}

/// The methods that the node serves.
#[derive(Clone, Copy, Debug, PartialEq, Eq, Structural)]
pub enum Method {
    GetBalance,
    GetStorageAt,
    GetTransactionCount,
    GetCode,
    GetProof,
    BlockNumber,
    ChainId,
}

/// The number that a verified read hands to the client.
#[derive(Clone, Copy, Debug, PartialEq, Eq, Structural)]
pub enum ScalarKind {
    /// The balance of the account.
    Balance,
    /// The nonce of the account.
    Nonce,
    /// The value of the first storage slot that was asked for.
    Storage,
}

impl Method {
    /// The method that a name stands for.
    pub open spec fn named(name: Seq<char>) -> Option<Method> {
        if name == "eth_getBalance"@ {
            Some(Method::GetBalance)
        } else if name == "eth_getStorageAt"@ {
            Some(Method::GetStorageAt)
        } else if name == "eth_getTransactionCount"@ {
            Some(Method::GetTransactionCount)
        } else if name == "eth_getCode"@ {
            Some(Method::GetCode)
        } else if name == "eth_getProof"@ {
            Some(Method::GetProof)
        } else if name == "eth_blockNumber"@ {
            Some(Method::BlockNumber)
        } else if name == "eth_chainId"@ {
            Some(Method::ChainId)
        } else {
            None
        }
    }

    /// The method that a request names, and `None` for a name that the node
    /// does not serve, which is answered with `METHOD_NOT_FOUND`.
    pub fn from_name(name: &String) -> (method: Option<Method>)
        ensures
            method == Method::named(name@),
    {
        if *name == "eth_getBalance".to_string() {
            Some(Method::GetBalance)
        } else if *name == "eth_getStorageAt".to_string() {
            Some(Method::GetStorageAt)
        } else if *name == "eth_getTransactionCount".to_string() {
            Some(Method::GetTransactionCount)
        } else if *name == "eth_getCode".to_string() {
            Some(Method::GetCode)
        } else if *name == "eth_getProof".to_string() {
            Some(Method::GetProof)
        } else if *name == "eth_blockNumber".to_string() {
            Some(Method::BlockNumber)
        } else if *name == "eth_chainId".to_string() {
            Some(Method::ChainId)
        } else {
            None
        }
    }

    /// The number that a verified read of this method hands out, and `None`
    /// for a method that is no verified read.
    pub open spec fn spec_scalar(&self) -> Option<ScalarKind> {
        match self {
            Method::GetBalance => Some(ScalarKind::Balance),
            Method::GetTransactionCount => Some(ScalarKind::Nonce),
            Method::GetStorageAt => Some(ScalarKind::Storage),
            _ => None,
        }
    }

    /// The number that a verified read of this method hands out.
    #[verifier::when_used_as_spec(spec_scalar)]
    pub fn scalar(&self) -> (kind: Option<ScalarKind>)
        ensures
            kind == self.spec_scalar(),
    {
        match self {
            Method::GetBalance => Some(ScalarKind::Balance),
            Method::GetTransactionCount => Some(ScalarKind::Nonce),
            Method::GetStorageAt => Some(ScalarKind::Storage),
            _ => None,
        }
    }
}

/// Whether a header value asks for the proof: `true` in any mix of case.
pub open spec fn asks_for_proof(value: Seq<char>) -> bool {
    &&& value.len() == 4
    &&& (value[0] == 't' || value[0] == 'T')
    &&& (value[1] == 'r' || value[1] == 'R')
    &&& (value[2] == 'u' || value[2] == 'U')
    &&& (value[3] == 'e' || value[3] == 'E')
}

/// Whether the client asked for the proof, given the value of the header
/// `X-DVRPC-Proof` where the request has one.
pub fn wants_proof(header: Option<&str>) -> (wanted: bool)
    ensures
        wanted == (header matches Some(value) && asks_for_proof(value@)),
{
    match header {
        None => false,
        Some(value) => {
            if value.unicode_len() != 4 {
                return false;
            }
            let t = value.get_char(0);
            let r = value.get_char(1);
            let u = value.get_char(2);
            let e = value.get_char(3);
            (t == 't' || t == 'T') && (r == 'r' || r == 'R') && (u == 'u' || u == 'U') && (e == 'e'
                || e == 'E')
        },
    }
}

/// The digit for a number below sixteen, in lower case.
pub open spec fn hex_char(n: nat) -> char {
    if n < 10 {
        (('0' as u8) + n as u8) as char
    } else {
        (('a' as u8) + (n - 10) as u8) as char
    }
}

/// The hexadecimal digits of `n`, in lower case and without zeros in front.
pub open spec fn hex_digits(n: nat) -> Seq<char>
    decreases n,
{
    if n < 16 {
        seq![hex_char(n)]
    } else {
        hex_digits(n / 16).push(hex_char(n % 16))
    }
}

/// A number as a JSON-RPC quantity: `0x` and its hexadecimal digits.
pub open spec fn hex_quantity(n: nat) -> Seq<char> {
    "0x"@ + hex_digits(n)
}

/// The digit for a number below sixteen.
fn hex_digit_str(n: u64) -> (digit: &'static str)
    requires
        n < 16,
    ensures
        digit@ == seq![hex_char(n as nat)],
{
    proof {
        reveal_strlit("0");
        reveal_strlit("1");
        reveal_strlit("2");
        reveal_strlit("3");
        reveal_strlit("4");
        reveal_strlit("5");
        reveal_strlit("6");
        reveal_strlit("7");
        reveal_strlit("8");
        reveal_strlit("9");
        reveal_strlit("a");
        reveal_strlit("b");
        reveal_strlit("c");
        reveal_strlit("d");
        reveal_strlit("e");
        reveal_strlit("f");
    }
    let digit = if n == 0 {
        "0"
    } else if n == 1 {
        "1"
    } else if n == 2 {
        "2"
    } else if n == 3 {
        "3"
    } else if n == 4 {
        "4"
    } else if n == 5 {
        "5"
    } else if n == 6 {
        "6"
    } else if n == 7 {
        "7"
    } else if n == 8 {
        "8"
    } else if n == 9 {
        "9"
    } else if n == 10 {
        "a"
    } else if n == 11 {
        "b"
    } else if n == 12 {
        "c"
    } else if n == 13 {
        "d"
    } else if n == 14 {
        "e"
    } else {
        "f"
    };
    assert(digit@ =~= seq![hex_char(n as nat)]);
    digit
}

/// Appends the hexadecimal digits of `n` to `text`.
fn push_hex_digits(text: String, n: u64) -> (longer: String)
    ensures
        longer@ == text@ + hex_digits(n as nat),
    decreases n,
{
    if n < 16 {
        text.concat(hex_digit_str(n))
    } else {
        let head = push_hex_digits(text, n / 16);
        let longer = head.concat(hex_digit_str(n % 16));
        assert(longer@ =~= text@ + hex_digits(n as nat));
        longer
    }
}

/// Writes a block number as a quantity.
pub fn block_quantity(number: u64) -> (text: String)
    ensures
        text@ == hex_quantity(number as nat),
{
    push_hex_digits("0x".to_string(), number)
}

/// The block to ask the upstream node for. A client that asks for `latest`
/// gets the block that the light client vouches for, so that the proof is
/// made against the root it will be held to; every other selector, and
/// `latest` without a head, goes on as it came.
pub open spec fn block_to_query(requested: Seq<char>, head: Option<ConsensusProof>) -> Seq<char> {
    match head {
        Some(h) => if requested == "latest"@ {
            hex_quantity(h.block_number as nat)
        } else {
            requested
        },
        None => requested,
    }
}

/// The block to ask the upstream node for.
pub fn query_block(requested: &str, head: &Option<ConsensusProof>) -> (block: String)
    ensures
        block@ == block_to_query(requested@, *head),
{
    let requested = requested.to_string();
    match head {
        Some(h) => {
            if requested == "latest".to_string() {
                block_quantity(h.block_number)
            } else {
                requested
            }
        },
        None => requested,
    }
}

/// The number that a claim holds for the client.
pub open spec fn scalar_of(proof: ProofData, kind: ScalarKind) -> nat {
    match kind {
        ScalarKind::Balance => be_nat(proof.balance@),
        ScalarKind::Nonce => proof.nonce as nat,
        ScalarKind::Storage => if proof.storage_proof@.len() == 0 {
            0
        } else {
            be_nat(proof.storage_proof@[0].value@)
        },
    }
}

/// A nonce as a word of 32 bytes.
fn word_of_u64(n: u64) -> (word: [u8; 32])
    ensures
        be_nat(word@) == n,
{
    let bytes = minimal_be_bytes(n);
    proof {
        lemma_minimal_be_denotes(n as nat);
    }
    left_pad_32(bytes.as_slice())
}

/// Picks the number that the client asked for out of a claim, as a word of 32
/// bytes: the balance, the nonce, or the value of the first storage slot,
/// which is zero where the claim holds no slot.
pub fn extract_scalar(proof: &ProofData, kind: ScalarKind) -> (word: [u8; 32])
    ensures
        be_nat(word@) == scalar_of(*proof, kind),
{
    match kind {
        ScalarKind::Balance => proof.balance,
        ScalarKind::Nonce => word_of_u64(proof.nonce),
        ScalarKind::Storage => {
            if proof.storage_proof.len() == 0 {
                let zero = [0u8; 32];
                proof {
                    assert(zero@ =~= zeros(32));
                    lemma_be_nat_all_zero(32);
                }
                zero
            } else {
                proof.storage_proof[0].value
            }
        },
    }
}

/// What a verified read hands to the client: the number it asked for and,
/// where it asked for them too, the claim and the head it was held against.
#[derive(Debug)]
pub struct Answer {
    pub result: [u8; 32],
    pub proof: Option<ProofData>,
    pub consensus: Option<ConsensusProof>,
}

/// The message for a claim that the trie contradicts.
pub open spec fn mismatch_text() -> Seq<char> {
    "Proof verification failed - data integrity check failed"@
}

/// The message for nodes that prove nothing.
pub open spec fn error_text(e: ProofError) -> Seq<char> {
    "Proof verification error: "@ + e.text()
}

/// Whether `r` is the response that the outcome of the verification calls
/// for. Without a head nothing was verified and the number goes out alone.
/// With one, a claim that passed is answered with its number, and with the
/// claim and the head where the client asked for the proof; a claim that
/// failed and nodes that prove nothing are answered with an internal error,
/// each with its own message.
pub open spec fn is_answer(
    r: Result<Answer, RpcErrorData>,
    outcome: Option<Result<bool, ProofError>>,
    kind: ScalarKind,
    head: Option<ConsensusProof>,
    proof: ProofData,
    include_proof: bool,
) -> bool {
    match (head, outcome) {
        (Some(h), Some(Ok(true))) => r matches Ok(answer) && be_nat(answer.result@) == scalar_of(
            proof,
            kind,
        ) && answer.proof == (if include_proof {
            Some(proof)
        } else {
            None
        }) && answer.consensus == (if include_proof {
            Some(h)
        } else {
            None
        }),
        (Some(_), Some(Ok(false))) => r matches Err(e) && e.code == INTERNAL_ERROR && e.message@
            == mismatch_text(),
        (Some(_), Some(Err(fault))) => r matches Err(e) && e.code == INTERNAL_ERROR && e.message@
            == error_text(fault),
        _ => r matches Ok(answer) && be_nat(answer.result@) == scalar_of(proof, kind)
            && answer.proof is None && answer.consensus is None,
    }
}

/// Shapes the response to a verified read from the outcome of the
/// verification; `outcome` is `None` where there was no head to verify
/// against.
pub fn answer_for(
    outcome: Option<Result<bool, ProofError>>,
    kind: ScalarKind,
    head: Option<ConsensusProof>,
    proof: ProofData,
    include_proof: bool,
) -> (r: Result<Answer, RpcErrorData>)
    ensures
        is_answer(r, outcome, kind, head, proof, include_proof),
{
    let result = extract_scalar(&proof, kind);
    match (head, outcome) {
        (Some(h), Some(Ok(true))) => {
            if include_proof {
                Ok(Answer { result, proof: Some(proof), consensus: Some(h) })
            } else {
                Ok(Answer { result, proof: None, consensus: None })
            }
        },
        (Some(_), Some(Ok(false))) => Err(
            RpcErrorData {
                code: INTERNAL_ERROR,
                message: "Proof verification failed - data integrity check failed".to_string(),
            },
        ),
        (Some(_), Some(Err(fault))) => Err(
            RpcErrorData {
                code: INTERNAL_ERROR,
                message: "Proof verification error: ".to_string().concat(
                    fault.message().as_str(),
                ),
            },
        ),
        _ => Ok(Answer { result, proof: None, consensus: None }),
    }
}

/// Answers a verified read: holds the claim and all its storage claims
/// against the state root of the head, where there is one, and shapes the
/// response from the outcome.
pub fn answer(
    generator: &ProofGenerator,
    kind: ScalarKind,
    head: Option<ConsensusProof>,
    proof: ProofData,
    include_proof: bool,
) -> (r: Result<Answer, RpcErrorData>)
    ensures
        is_answer(
            r,
            match head {
                Some(h) => Some(verify_complete_spec(h.state_root@, proof)),
                None => None,
            },
            kind,
            head,
            proof,
            include_proof,
        ),
{
    let outcome = match &head {
        Some(h) => Some(generator.verify_complete_proof(h.state_root, &proof)),
        None => None,
    };
    answer_for(outcome, kind, head, proof, include_proof)
}

} // verus!
