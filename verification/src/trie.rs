//! Walking a Merkle Patricia Trie along a list of proof nodes.
//!
//! The walk starts at a 32-byte root and follows the nibbles of a key through
//! the nodes it is given. Every node it reads from the list must hash to the
//! reference that led to it; a node of fewer than 32 bytes may also stand
//! inside its parent and is then read in place. The walk ends with the value
//! under the key, with the finding that the key has none, or with an error
//! where the nodes authenticate neither.

use vstd::prelude::*;
use vstd::slice::slice_to_vec;
use crate::bytes::bytes_eq;
use crate::error::ProofError;
use crate::hp::{
    all_nibbles,
    bytes_to_nibbles,
    decode_hp_path,
    hp_decode,
    lemma_nibbles_of_are_nibbles,
    nibbles_of,
};
use crate::keccak::{keccak256, keccak256_digest, EMPTY_ROOT_HASH};
use crate::rlp::{decode_rlp_list, lemma_rlp_list_items_shorter, rlp_list, views};

verus! {

/// Where a node sends a key.
pub enum Target {
    /// The walk ends here, with the value under the key or without one.
    Value(Option<Seq<u8>>),
    /// The walk goes on at the child behind `reference`, with `cursor` nibbles
    /// of the key used up.
    Child { reference: Seq<u8>, cursor: nat },
}

/// Where a branch node sends a key: to its own value once the key is used up,
/// else to the child under the key's next nibble, and nowhere if that slot is
/// empty.
pub open spec fn branch_target(items: Seq<Seq<u8>>, key: Seq<u8>, cursor: nat) -> Target {
    if cursor >= key.len() {
        Target::Value(
            if items[16].len() == 0 {
                None
            } else {
                Some(items[16])
            },
        )
    } else {
        let child = items[key[cursor as int] as int];
        if child.len() == 0 {
            Target::Value(None)
        } else {
            Target::Child { reference: child, cursor: cursor + 1 }
        }
    }
}

/// Where a leaf or an extension sends a key. A leaf holds the value of the one
/// key whose remaining nibbles are its path. An extension passes on the keys
/// whose remaining nibbles start with its path.
pub open spec fn leaf_extension_target(items: Seq<Seq<u8>>, key: Seq<u8>, cursor: nat) -> Target {
    let (path, leaf) = hp_decode(items[0]);
    let remaining = key.skip(cursor as int);
    if leaf {
        Target::Value(
            if path == remaining {
                Some(items[1])
            } else {
                None
            },
        )
    } else if !path.is_prefix_of(remaining) {
        Target::Value(None)
    } else {
        Target::Child { reference: items[1], cursor: cursor + path.len() }
    }
}

/// Where a decoded node sends a key; `None` for a list that is neither a
/// branch (17 items) nor a leaf or extension (2 items).
pub open spec fn node_target(items: Seq<Seq<u8>>, key: Seq<u8>, cursor: nat) -> Option<Target> {
    if items.len() == 17 {
        Some(branch_target(items, key, cursor))
    } else if items.len() == 2 {
        Some(leaf_extension_target(items, key, cursor))
    } else {
        None
    }
}

/// What reading one node of the list comes to.
pub enum Step {
    /// The walk has its verdict.
    Done(Option<Seq<u8>>),
    /// The next node of the list must hash to `expected`. It is `embedded`
    /// where it is the node that stands inside the one just read.
    Follow { expected: Seq<u8>, cursor: nat, embedded: bool },
    /// The node authenticates nothing.
    Fail(ProofError),
}

/// Reads `node`, which is entry `index` of `proof` or a node embedded in it.
///
/// A reference of 32 bytes is a hash, and the next entry has to match it. A
/// shorter reference is the child itself: if the next entry is that same
/// child, the walk goes on there, else it reads the child in place.
pub open spec fn node_step(
    node: Seq<u8>,
    key: Seq<u8>,
    cursor: nat,
    proof: Seq<Seq<u8>>,
    hashes: Seq<Seq<u8>>,
    index: nat,
) -> Step
    decreases node.len(),
    when all_nibbles(key)
{
    match rlp_list(node) {
        Err(e) => Step::Fail(ProofError::Decode(e)),
        Ok(items) => match node_target(items, key, cursor) {
            None => Step::Fail(ProofError::InvalidNode { index: index as usize }),
            Some(Target::Value(value)) => Step::Done(value),
            Some(Target::Child { reference, cursor: next }) => {
                if reference.len() == 32 {
                    Step::Follow { expected: reference, cursor: next, embedded: false }
                } else if 0 < reference.len() < 32 {
                    if index + 1 < proof.len() && proof[index + 1 as int] == reference {
                        Step::Follow {
                            expected: hashes[index + 1 as int],
                            cursor: next,
                            embedded: true,
                        }
                    } else {
                        proof {
                            lemma_rlp_list_items_shorter(node);
                        }
                        node_step(reference, key, next, proof, hashes, index)
                    }
                } else {
                    Step::Fail(ProofError::InvalidReference { index: index as usize })
                }
            },
        },
    }
}

/// The walk from entry `index` on, where that entry has to hash to
/// `expected`. An entry of fewer than 32 bytes is in place only where it
/// `may_be_short`: as the first entry, or as the node that stands inside the
/// entry before it.
pub open spec fn walk_from(
    expected: Seq<u8>,
    may_be_short: bool,
    key: Seq<u8>,
    cursor: nat,
    proof: Seq<Seq<u8>>,
    hashes: Seq<Seq<u8>>,
    index: nat,
) -> Result<Option<Seq<u8>>, ProofError>
    decreases proof.len() - index,
{
    if index >= proof.len() {
        Err(ProofError::Incomplete)
    } else if hashes[index as int] != expected {
        Err(ProofError::HashMismatch { index: index as usize })
    } else if proof[index as int].len() < 32 && !may_be_short {
        Err(ProofError::MisplacedNode { index: index as usize })
    } else {
        match node_step(proof[index as int], key, cursor, proof, hashes, index) {
            Step::Done(value) => Ok(value),
            Step::Fail(e) => Err(e),
            Step::Follow { expected: next, cursor: used, embedded } => walk_from(
                next,
                embedded,
                key,
                used,
                proof,
                hashes,
                index + 1,
            ),
        }
    }
}

/// The verdict on the nibbles `key` under `root`, where `hashes[i]` is the
/// digest of `proof[i]`. Without nodes the key is absent under the empty root,
/// and nothing is proved under any other.
pub open spec fn mpt_walk_hashed(
    root: Seq<u8>,
    key: Seq<u8>,
    proof: Seq<Seq<u8>>,
    hashes: Seq<Seq<u8>>,
) -> Result<Option<Seq<u8>>, ProofError> {
    if proof.len() == 0 {
        if root == EMPTY_ROOT_HASH@ {
            Ok(None)
        } else {
            Err(ProofError::EmptyProof)
        }
    } else {
        walk_from(root, true, key, 0, proof, hashes, 0)
    }
}

/// The Keccak-256 digest of each node.
pub open spec fn digests(proof: Seq<Seq<u8>>) -> Seq<Seq<u8>> {
    Seq::new(proof.len(), |i: int| keccak256_digest(proof[i]))
}

/// The verdict on the key bytes `key` under `root`, given the nodes `proof`:
/// `Ok(Some(v))` where the key maps to `v`, `Ok(None)` where it is proved
/// absent, an error where the nodes prove neither.
pub open spec fn mpt_walk(root: Seq<u8>, key: Seq<u8>, proof: Seq<Seq<u8>>) -> Result<
    Option<Seq<u8>>,
    ProofError,
> {
    mpt_walk_hashed(root, nibbles_of(key), proof, digests(proof))
}

/// Where a node sends a key, as the walker holds it.
pub enum NodeTarget {
    /// The walk ends here, with the value under the key or without one.
    Value(Option<Vec<u8>>),
    /// The walk goes on at the child behind `reference`, with `cursor` nibbles
    /// of the key used up.
    Child { reference: Vec<u8>, cursor: usize },
}

impl View for NodeTarget {
    type V = Target;

    open spec fn view(&self) -> Target {
        match self {
            NodeTarget::Value(Some(value)) => Target::Value(Some(value@)),
            NodeTarget::Value(None) => Target::Value(None),
            NodeTarget::Child { reference, cursor } => Target::Child {
                reference: reference@,
                cursor: *cursor as nat,
            },
        }
    }
}

/// A proof node together with its Keccak-256 digest.
pub struct HashedNode<'a> {
    /// The node as it came, an RLP list.
    pub bytes: &'a [u8],
    /// The digest of `bytes`.
    pub hash: [u8; 32],
}

/// The nodes of a hashed proof, in order.
pub open spec fn node_bytes(nodes: Seq<HashedNode<'_>>) -> Seq<Seq<u8>> {
    Seq::new(nodes.len(), |i: int| nodes[i].bytes@)
}

/// The digests of a hashed proof, in order.
pub open spec fn node_hashes(nodes: Seq<HashedNode<'_>>) -> Seq<Seq<u8>> {
    Seq::new(nodes.len(), |i: int| nodes[i].hash@)
}

/// The verdict of a walk as a value of the model.
pub open spec fn verdict_view(r: Result<Option<Vec<u8>>, ProofError>) -> Result<
    Option<Seq<u8>>,
    ProofError,
> {
    match r {
        Ok(Some(value)) => Ok(Some(value@)),
        Ok(None) => Ok(None),
        Err(e) => Err(e),
    }
}

/// Whether `path` is what the key holds from `cursor` on, or the start of it.
fn path_matches(path: &[u8], key: &[u8], cursor: usize) -> (r: (bool, bool))
    requires
        cursor <= key.len(),
    ensures
        r.0 == path@.is_prefix_of(key@.skip(cursor as int)),
        r.1 == (path@ == key@.skip(cursor as int)),
{
    let remaining = &key[cursor..key.len()];
    assert(remaining@ == key@.skip(cursor as int));
    if path.len() > remaining.len() {
        return (false, false);
    }
    let start = bytes_eq(path, &remaining[0..path.len()]);
    assert(path.len() == remaining.len() ==> remaining@.subrange(0, path.len() as int)
        == remaining@);
    (start, start && path.len() == remaining.len())
}

/// Reads a branch node, a list of 16 child references and a value.
pub fn process_branch(items: &Vec<Vec<u8>>, key_nibbles: &[u8], key_index: usize) -> (target:
    NodeTarget)
    requires
        items.len() == 17,
        all_nibbles(key_nibbles@),
    ensures
        target@ == branch_target(views(items@), key_nibbles@, key_index as nat),
        target matches NodeTarget::Child { cursor, .. } ==> cursor <= key_nibbles.len(),
{
    if key_index >= key_nibbles.len() {
        if items[16].len() == 0 {
            NodeTarget::Value(None)
        } else {
            NodeTarget::Value(Some(slice_to_vec(items[16].as_slice())))
        }
    } else {
        assert(key_nibbles@[key_index as int] < 16);
        let nibble = key_nibbles[key_index] as usize;
        if items[nibble].len() == 0 {
            NodeTarget::Value(None)
        } else {
            NodeTarget::Child {
                reference: slice_to_vec(items[nibble].as_slice()),
                cursor: key_index + 1,
            }
        }
    }
}

/// Reads a leaf or an extension, a list of a hex-prefix path and a value or
/// child reference.
pub fn process_leaf_extension(items: &Vec<Vec<u8>>, key_nibbles: &[u8], key_index: usize) -> (r:
    Result<NodeTarget, ProofError>)
    requires
        items.len() == 2,
        key_index <= key_nibbles.len(),
    ensures
        r matches Ok(target) && target@ == leaf_extension_target(
            views(items@),
            key_nibbles@,
            key_index as nat,
        ),
        r matches Ok(NodeTarget::Child { cursor, .. }) ==> cursor <= key_nibbles.len(),
{
    let (path, is_leaf) = match decode_hp_path(items[0].as_slice()) {
        Ok(decoded) => decoded,
        Err(e) => {
            return Err(ProofError::Decode(e));
        },
    };
    let (starts, equals) = path_matches(path.as_slice(), key_nibbles, key_index);
    if is_leaf {
        if equals {
            Ok(NodeTarget::Value(Some(slice_to_vec(items[1].as_slice()))))
        } else {
            Ok(NodeTarget::Value(None))
        }
    } else if !starts {
        Ok(NodeTarget::Value(None))
    } else {
        Ok(
            NodeTarget::Child {
                reference: slice_to_vec(items[1].as_slice()),
                cursor: key_index + path.len(),
            },
        )
    }
}

/// What reading one node comes to, as the walker holds it.
pub enum WalkStep {
    /// The walk has its verdict.
    Done(Option<Vec<u8>>),
    /// The next node of the list must hash to `expected`. It is `embedded`
    /// where it is the node that stands inside the one just read.
    Follow { expected: Vec<u8>, cursor: usize, embedded: bool },
}

/// A step of the walker as a value of the model.
pub open spec fn step_view(r: Result<WalkStep, ProofError>) -> Step {
    match r {
        Ok(WalkStep::Done(Some(value))) => Step::Done(Some(value@)),
        Ok(WalkStep::Done(None)) => Step::Done(None),
        Ok(WalkStep::Follow { expected, cursor, embedded }) => Step::Follow {
            expected: expected@,
            cursor: cursor as nat,
            embedded,
        },
        Err(e) => Step::Fail(e),
    }
}

/// Reads `node`, which is entry `index` of `nodes` or a node embedded in it,
/// and says how the walk goes on.
pub fn read_node(
    node: &[u8],
    key_nibbles: &[u8],
    key_index: usize,
    nodes: &Vec<HashedNode<'_>>,
    index: usize,
) -> (r: Result<WalkStep, ProofError>)
    requires
        all_nibbles(key_nibbles@),
        key_index <= key_nibbles.len(),
        index < nodes.len(),
    ensures
        step_view(r) == node_step(
            node@,
            key_nibbles@,
            key_index as nat,
            node_bytes(nodes@),
            node_hashes(nodes@),
            index as nat,
        ),
        r matches Ok(WalkStep::Follow { cursor, .. }) ==> cursor <= key_nibbles.len(),
    decreases node@.len(),
{
    let items = match decode_rlp_list(node) {
        Ok(items) => items,
        Err(e) => {
            return Err(ProofError::Decode(e));
        },
    };
    let target = if items.len() == 17 {
        process_branch(&items, key_nibbles, key_index)
    } else if items.len() == 2 {
        process_leaf_extension(&items, key_nibbles, key_index)?
    } else {
        return Err(ProofError::InvalidNode { index });
    };
    match target {
        NodeTarget::Value(value) => Ok(WalkStep::Done(value)),
        NodeTarget::Child { reference, cursor } => {
            if reference.len() == 32 {
                Ok(WalkStep::Follow { expected: reference, cursor, embedded: false })
            } else if 0 < reference.len() && reference.len() < 32 {
                if index + 1 < nodes.len() && bytes_eq(nodes[index + 1].bytes, reference.as_slice()) {
                    Ok(
                        WalkStep::Follow {
                            expected: slice_to_vec(nodes[index + 1].hash.as_slice()),
                            cursor,
                            embedded: true,
                        },
                    )
                } else {
                    proof {
                        lemma_rlp_list_items_shorter(node@);
                    }
                    read_node(reference.as_slice(), key_nibbles, cursor, nodes, index)
                }
            } else {
                Err(ProofError::InvalidReference { index })
            }
        },
    }
}

/// Walks the key bytes `key` from `root` through nodes whose digests are
/// given with them.
///
/// The result is the verdict of `mpt_walk_hashed` on these values: entry `i`
/// is held to hash to `nodes[i].hash`, whatever hash function that is.
pub fn verify_hashed_proof(root: &[u8; 32], key: &[u8; 32], nodes: &Vec<HashedNode<'_>>) -> (r:
    Result<Option<Vec<u8>>, ProofError>)
    ensures
        verdict_view(r) == mpt_walk_hashed(
            root@,
            nibbles_of(key@),
            node_bytes(nodes@),
            node_hashes(nodes@),
        ),
{
    if nodes.len() == 0 {
        if bytes_eq(root.as_slice(), EMPTY_ROOT_HASH.as_slice()) {
            return Ok(None);
        }
        return Err(ProofError::EmptyProof);
    }
    let key_nibbles = bytes_to_nibbles(key.as_slice());
    let mut expected: Vec<u8> = slice_to_vec(root.as_slice());
    let mut may_be_short = true;
    let mut key_index: usize = 0;
    let mut index: usize = 0;
    let ghost proof = node_bytes(nodes@);
    let ghost hashes = node_hashes(nodes@);
    while index < nodes.len()
        invariant
            index <= nodes.len(),
            key_index <= key_nibbles.len(),
            all_nibbles(key_nibbles@),
            key_nibbles@ == nibbles_of(key@),
            nodes.len() > 0,
            proof == node_bytes(nodes@),
            hashes == node_hashes(nodes@),
            walk_from(root@, true, key_nibbles@, 0, proof, hashes, 0) == walk_from(
                expected@,
                may_be_short,
                key_nibbles@,
                key_index as nat,
                proof,
                hashes,
                index as nat,
            ),
        decreases nodes.len() - index,
    {
        if !bytes_eq(nodes[index].hash.as_slice(), expected.as_slice()) {
            return Err(ProofError::HashMismatch { index });
        }
        if nodes[index].bytes.len() < 32 && !may_be_short {
            return Err(ProofError::MisplacedNode { index });
        }
        match read_node(nodes[index].bytes, key_nibbles.as_slice(), key_index, nodes, index)? {
            WalkStep::Done(value) => {
                return Ok(value);
            },
            WalkStep::Follow { expected: next, cursor, embedded } => {
                expected = next;
                may_be_short = embedded;
                key_index = cursor;
            },
        }
        index += 1;
    }
    Err(ProofError::Incomplete)
}

/// Verifies a Merkle Patricia Trie proof: hashes every node and walks the key
/// from `root` through them.
///
/// Returns the value under the key, `None` where the nodes prove that the key
/// has no value, and an error where they prove neither.
pub fn verify_mpt_proof(root: &[u8; 32], key: &[u8; 32], proof: &Vec<Vec<u8>>) -> (r: Result<
    Option<Vec<u8>>,
    ProofError,
>)
    ensures
        verdict_view(r) == mpt_walk(root@, key@, views(proof@)),
{
    let mut nodes: Vec<HashedNode<'_>> = Vec::new();
    let mut i: usize = 0;
    while i < proof.len()
        invariant
            i <= proof.len(),
            nodes.len() == i,
            forall|k: int|
                0 <= k < i ==> (#[trigger] nodes@[k]).bytes@ == proof@[k]@ && nodes@[k].hash@
                    == keccak256_digest(proof@[k]@),
        decreases proof.len() - i,
    {
        let bytes = proof[i].as_slice();
        nodes.push(HashedNode { bytes, hash: keccak256(bytes) });
        i += 1;
    }
    assert(node_bytes(nodes@) =~= views(proof@));
    assert(node_hashes(nodes@) =~= digests(views(proof@)));
    verify_hashed_proof(root, key, &nodes)
}

/// Whether the walk from entry `index` on comes to read entry `target`: that
/// entry and every entry before it hashed to its reference and was in place,
/// and every entry before it sent the key on.
pub open spec fn reads_entry(
    expected: Seq<u8>,
    may_be_short: bool,
    key: Seq<u8>,
    cursor: nat,
    proof: Seq<Seq<u8>>,
    hashes: Seq<Seq<u8>>,
    index: nat,
    target: nat,
) -> bool
    decreases proof.len() - index,
{
    if index >= proof.len() || hashes[index as int] != expected || (proof[index as int].len()
        < 32 && !may_be_short) {
        false
    } else if index == target {
        true
    } else {
        match node_step(proof[index as int], key, cursor, proof, hashes, index) {
            Step::Follow { expected: next, cursor: used, embedded } => reads_entry(
                next,
                embedded,
                key,
                used,
                proof,
                hashes,
                index + 1,
                target,
            ),
            _ => false,
        }
    }
}

/// Under the empty root and without nodes every key is absent.
pub proof fn lemma_empty_trie_has_no_key(key: Seq<u8>)
    ensures
        mpt_walk(EMPTY_ROOT_HASH@, key, Seq::empty()) == Ok::<Option<Seq<u8>>, ProofError>(None),
{
}

/// Reading a node comes to the same in two lists that agree up to entry
/// `index` and whose next entries are either the same or both too long to be
/// an embedded node.
proof fn lemma_node_step_agrees(
    node: Seq<u8>,
    key: Seq<u8>,
    cursor: nat,
    proof: Seq<Seq<u8>>,
    hashes: Seq<Seq<u8>>,
    other: Seq<Seq<u8>>,
    other_hashes: Seq<Seq<u8>>,
    index: nat,
)
    requires
        all_nibbles(key),
        proof.len() == other.len(),
        ({
            let next = index + 1 as int;
            next < proof.len() ==> (proof[next] == other[next] && hashes[next]
                == other_hashes[next]) || (proof[next].len() >= 32 && other[next].len() >= 32)
        }),
    ensures
        node_step(node, key, cursor, proof, hashes, index) == node_step(
            node,
            key,
            cursor,
            other,
            other_hashes,
            index,
        ),
    decreases node.len(),
{
    if let Ok(items) = rlp_list(node) {
        if let Some(Target::Child { reference, cursor: next }) = node_target(items, key, cursor) {
            if 0 < reference.len() < 32 {
                lemma_rlp_list_items_shorter(node);
                lemma_node_step_agrees(
                    reference,
                    key,
                    next,
                    proof,
                    hashes,
                    other,
                    other_hashes,
                    index,
                );
            }
        }
    }
}

/// The walk stops with a hash mismatch at entry `target` once that entry is
/// replaced by a node of another digest, where the walk reads the entry and
/// both versions are too long to be an embedded node.
proof fn lemma_walk_from_detects(
    expected: Seq<u8>,
    may_be_short: bool,
    key: Seq<u8>,
    cursor: nat,
    proof: Seq<Seq<u8>>,
    hashes: Seq<Seq<u8>>,
    index: nat,
    target: nat,
    node: Seq<u8>,
    hash: Seq<u8>,
)
    requires
        all_nibbles(key),
        hashes.len() == proof.len(),
        index <= target < proof.len(),
        reads_entry(expected, may_be_short, key, cursor, proof, hashes, index, target),
        proof[target as int].len() >= 32,
        node.len() >= 32,
        hash != hashes[target as int],
    ensures
        walk_from(
            expected,
            may_be_short,
            key,
            cursor,
            proof.update(target as int, node),
            hashes.update(target as int, hash),
            index,
        ) == Err::<Option<Seq<u8>>, ProofError>(ProofError::HashMismatch { index: target as usize }),
    decreases proof.len() - index,
{
    let other = proof.update(target as int, node);
    let other_hashes = hashes.update(target as int, hash);
    if index < target {
        lemma_node_step_agrees(
            proof[index as int],
            key,
            cursor,
            proof,
            hashes,
            other,
            other_hashes,
            index,
        );
        match node_step(proof[index as int], key, cursor, proof, hashes, index) {
            Step::Follow { expected: next, cursor: used, embedded } => {
                lemma_walk_from_detects(
                    next,
                    embedded,
                    key,
                    used,
                    proof,
                    hashes,
                    index + 1,
                    target,
                    node,
                    hash,
                );
            },
            _ => {},
        }
    }
}

/// Tampering with a node is detected. Let the walk on `proof` read entry
/// `target`, an entry of at least 32 bytes, which the list therefore holds by
/// its hash. Replace it by `node`, also of at least 32 bytes, with another
/// digest. Then the walk fails at that entry with a hash mismatch, whatever it
/// found before.
pub proof fn lemma_tampering_is_detected(
    root: Seq<u8>,
    key: Seq<u8>,
    proof: Seq<Seq<u8>>,
    target: nat,
    node: Seq<u8>,
)
    requires
        target < proof.len(),
        reads_entry(root, true, nibbles_of(key), 0, proof, digests(proof), 0, target),
        proof[target as int].len() >= 32,
        node.len() >= 32,
        keccak256_digest(node) != keccak256_digest(proof[target as int]),
    ensures
        mpt_walk(root, key, proof.update(target as int, node)) == Err::<
            Option<Seq<u8>>,
            ProofError,
        >(ProofError::HashMismatch { index: target as usize }),
{
    lemma_nibbles_of_are_nibbles(key);
    lemma_walk_from_detects(
        root,
        true,
        nibbles_of(key),
        0,
        proof,
        digests(proof),
        0,
        target,
        node,
        keccak256_digest(node),
    );
    assert(digests(proof.update(target as int, node)) =~= digests(proof).update(
        target as int,
        keccak256_digest(node),
    ));
}

/// No node of one list has the digest of another node of the other list.
pub open spec fn collision_free(first: Seq<Seq<u8>>, second: Seq<Seq<u8>>) -> bool {
    forall|i: int, j: int|
        0 <= i < first.len() && 0 <= j < second.len() && keccak256_digest(#[trigger] first[i])
            == keccak256_digest(#[trigger] second[j]) ==> first[i] == second[j]
}

/// How the walk ends once the node at entry `index` is read.
pub open spec fn walk_onward(
    step: Step,
    key: Seq<u8>,
    proof: Seq<Seq<u8>>,
    hashes: Seq<Seq<u8>>,
    index: nat,
) -> Result<Option<Seq<u8>>, ProofError> {
    match step {
        Step::Done(value) => Ok(value),
        Step::Fail(e) => Err(e),
        Step::Follow { expected, cursor, embedded } => walk_from(
            expected,
            embedded,
            key,
            cursor,
            proof,
            hashes,
            index + 1,
        ),
    }
}

/// One node, read at a place in each of two lists, leads both walks to the
/// same verdict where it leads both to a verdict.
proof fn lemma_node_agrees(
    node: Seq<u8>,
    key: Seq<u8>,
    cursor: nat,
    first: Seq<Seq<u8>>,
    i: nat,
    second: Seq<Seq<u8>>,
    j: nat,
)
    requires
        all_nibbles(key),
        collision_free(first, second),
        i < first.len(),
        j < second.len(),
        walk_onward(
            node_step(node, key, cursor, first, digests(first), i),
            key,
            first,
            digests(first),
            i,
        ) is Ok,
        walk_onward(
            node_step(node, key, cursor, second, digests(second), j),
            key,
            second,
            digests(second),
            j,
        ) is Ok,
    ensures
        walk_onward(
            node_step(node, key, cursor, first, digests(first), i),
            key,
            first,
            digests(first),
            i,
        ) == walk_onward(
            node_step(node, key, cursor, second, digests(second), j),
            key,
            second,
            digests(second),
            j,
        ),
    decreases (first.len() - i) + (second.len() - j), node.len(),
{
    let next_i = i + 1 as int;
    let next_j = j + 1 as int;
    if let Ok(items) = rlp_list(node) {
        if let Some(Target::Child { reference, cursor: next }) = node_target(items, key, cursor) {
            if reference.len() == 32 {
                assert(first[next_i] == second[next_j]);
                lemma_node_agrees(first[next_i], key, next, first, i + 1, second, j + 1);
            } else if 0 < reference.len() < 32 {
                lemma_rlp_list_items_shorter(node);
                let follows_first = next_i < first.len() && first[next_i] == reference;
                let follows_second = next_j < second.len() && second[next_j] == reference;
                if follows_first && follows_second {
                    lemma_node_agrees(reference, key, next, first, i + 1, second, j + 1);
                } else if follows_first {
                    lemma_node_agrees(reference, key, next, first, i + 1, second, j);
                } else if follows_second {
                    lemma_node_agrees(reference, key, next, first, i, second, j + 1);
                } else {
                    lemma_node_agrees(reference, key, next, first, i, second, j);
                }
            }
        }
    }
}

/// The verdict is that of the root and the key, not of the nodes. Two lists
/// of nodes that both lead the key from one root to a verdict lead it to the
/// same verdict, unless a node of one has the digest of another node of the
/// other.
pub proof fn lemma_verdicts_agree(
    root: Seq<u8>,
    key: Seq<u8>,
    first: Seq<Seq<u8>>,
    second: Seq<Seq<u8>>,
)
    requires
        first.len() > 0,
        second.len() > 0,
        collision_free(first, second),
        mpt_walk(root, key, first) is Ok,
        mpt_walk(root, key, second) is Ok,
    ensures
        mpt_walk(root, key, first) == mpt_walk(root, key, second),
{
    lemma_nibbles_of_are_nibbles(key);
    assert(first[0] == second[0]);
    lemma_node_agrees(first[0], nibbles_of(key), 0, first, 0, second, 0);
}

} // verus!
