//! A model of the trie itself, to say what a proof is a proof of.
//!
//! The walker sees lists of bytes. Here a trie is a tree of nodes, each with
//! its encoding, with the value it holds under a key, and with the nodes it
//! hands out as the proof for a key. The law at the end ties the three
//! together: the proof that a trie hands out for a key walks to what the trie
//! holds under that key.

use vstd::prelude::*;
use crate::error::{DecodeError, ProofError};
use crate::hp::{
    all_nibbles,
    hp_encode,
    lemma_hp_round_trip,
    lemma_nibbles_of_are_nibbles,
    lemma_nibbles_of_injective,
    nibbles_of,
};
use crate::keccak::keccak256_digest;
use crate::rlp::{
    lemma_encoding_is_longer,
    lemma_header_of_encoded_string,
    lemma_item_of_encoded_list,
    lemma_list_of_encoded_list,
    rlp_encode_list,
    rlp_encode_string,
    rlp_item,
    rlp_items,
    rlp_list,
};
use crate::trie::{
    collision_free,
    digests,
    lemma_verdicts_agree,
    mpt_walk,
    node_step,
    node_target,
    walk_onward,
    Step,
    Target,
};

verus! {

/// A node of a trie, with everything below it.
pub enum Node {
    /// No node: an empty slot of a branch, or the trie without entries.
    Empty,
    /// The value of the one key whose remaining nibbles are `path`.
    Leaf { path: Seq<u8>, value: Seq<u8> },
    /// The keys whose remaining nibbles start with `path` go on at `child`.
    Extension { path: Seq<u8>, child: Box<Node> },
    /// One child for each next nibble, and the value of the key that ends
    /// here, where `value` is not empty.
    Branch { children: Seq<Node>, value: Seq<u8> },
}

/// The encoding of a node: the list of its items, where a child is written
/// as its reference.
pub open spec fn encode(n: Node) -> Seq<u8>
    decreases n, 0nat,
{
    match n {
        Node::Empty => seq![0x80u8],
        Node::Leaf { path, value } => rlp_encode_list(
            rlp_encode_string(hp_encode(path, true)) + rlp_encode_string(value),
        ),
        Node::Extension { path, child } => rlp_encode_list(
            rlp_encode_string(hp_encode(path, false)) + reference(*child),
        ),
        Node::Branch { children, value } => rlp_encode_list(
            references(children, 16) + rlp_encode_string(value),
        ),
    }
}

/// How a parent writes a child: a node of fewer than 32 bytes as it is, a
/// longer one as the byte string of its digest, and no node as the empty
/// byte string.
pub open spec fn reference(n: Node) -> Seq<u8>
    decreases n, 1nat,
{
    let encoded = encode(n);
    if n is Empty || encoded.len() < 32 {
        encoded
    } else {
        rlp_encode_string(keccak256_digest(encoded))
    }
}

/// The references to the first `count` children, end to end.
pub open spec fn references(children: Seq<Node>, count: nat) -> Seq<u8>
    decreases children, count,
{
    if count == 0 || count > children.len() {
        Seq::empty()
    } else {
        references(children, (count - 1) as nat) + reference(children[count - 1])
    }
}

/// What the trie below `n` holds under `key`, of which `cursor` nibbles are
/// used up.
pub open spec fn lookup(n: Node, key: Seq<u8>, cursor: nat) -> Option<Seq<u8>>
    decreases n,
{
    match n {
        Node::Empty => None,
        Node::Leaf { path, value } => if path == key.skip(cursor as int) {
            Some(value)
        } else {
            None
        },
        Node::Extension { path, child } => if path.is_prefix_of(key.skip(cursor as int)) {
            lookup(*child, key, cursor + path.len())
        } else {
            None
        },
        Node::Branch { children, value } => if cursor >= key.len() {
            if value.len() == 0 {
                None
            } else {
                Some(value)
            }
        } else if key[cursor as int] < children.len() {
            lookup(children[key[cursor as int] as int], key, cursor + 1)
        } else {
            None
        },
    }
}

/// The entry that a node takes up in a proof: its encoding where its parent
/// holds it by hash, and none where it stands inside its parent.
pub open spec fn entry(n: Node) -> Seq<Seq<u8>> {
    if n is Empty || encode(n).len() < 32 {
        Seq::empty()
    } else {
        seq![encode(n)]
    }
}

/// The entries of the nodes that `key` passes below `n`, from the top down.
pub open spec fn proof_below(n: Node, key: Seq<u8>, cursor: nat) -> Seq<Seq<u8>>
    decreases n,
{
    match n {
        Node::Extension { path, child } => if path.is_prefix_of(key.skip(cursor as int)) {
            entry(*child) + proof_below(*child, key, cursor + path.len())
        } else {
            Seq::empty()
        },
        Node::Branch { children, value } => if cursor < key.len() && key[cursor as int]
            < children.len() {
            let child = children[key[cursor as int] as int];
            entry(child) + proof_below(child, key, cursor + 1)
        } else {
            Seq::empty()
        },
        _ => Seq::empty(),
    }
}

/// The proof that the trie with root `root` hands out for `key`: the root
/// and then the entries of the nodes that the key passes.
pub open spec fn proof_of(root: Node, key: Seq<u8>) -> Seq<Seq<u8>> {
    seq![encode(root)] + proof_below(root, key, 0)
}

/// A child that its parent can refer to: where it is held by hash, the hash
/// is 32 bytes long, as every digest of `keccak256` is.
pub open spec fn hashed_as_word(n: Node) -> bool {
    encode(n).len() >= 32 ==> keccak256_digest(encode(n)).len() == 32
}

/// A trie that can be written down: paths are nibbles, a branch has 16
/// children, an extension has a child, every encoding fits in memory, and
/// every child can be referred to.
pub open spec fn well_formed(n: Node) -> bool
    decreases n, 0nat,
{
    &&& encode(n).len() <= usize::MAX
    &&& match n {
        Node::Empty => true,
        Node::Leaf { path, value } => all_nibbles(path),
        Node::Extension { path, child } => all_nibbles(path) && !(*child is Empty)
            && hashed_as_word(*child) && well_formed(*child),
        Node::Branch { children, value } => children.len() == 16 && all_well_formed(children, 16),
    }
}

/// The first `count` children are well formed and can be referred to.
pub open spec fn all_well_formed(children: Seq<Node>, count: nat) -> bool
    decreases children, count,
{
    if count == 0 || count > children.len() {
        true
    } else {
        all_well_formed(children, (count - 1) as nat) && well_formed(children[count - 1])
            && hashed_as_word(children[count - 1])
    }
}

/// What a parent reads where it has written the reference to `n`.
pub open spec fn referred(n: Node) -> Seq<u8> {
    if n is Empty {
        Seq::empty()
    } else if encode(n).len() < 32 {
        encode(n)
    } else {
        keccak256_digest(encode(n))
    }
}

/// What a branch reads where it has written its first `count` children.
pub open spec fn all_referred(children: Seq<Node>, count: nat) -> Seq<Seq<u8>> {
    Seq::new(count, |i: int| referred(children[i]))
}

/// Every node but the empty one is encoded as a list.
proof fn lemma_encode_is_list(n: Node)
    requires
        !(n is Empty),
    ensures
        exists|payload: Seq<u8>| encode(n) == rlp_encode_list(payload),
{
    match n {
        Node::Empty => {},
        Node::Leaf { path, value } => {
            assert(encode(n) == rlp_encode_list(
                rlp_encode_string(hp_encode(path, true)) + rlp_encode_string(value),
            ));
        },
        Node::Extension { path, child } => {
            assert(encode(n) == rlp_encode_list(
                rlp_encode_string(hp_encode(path, false)) + reference(*child),
            ));
        },
        Node::Branch { children, value } => {
            assert(encode(n) == rlp_encode_list(
                references(children, 16) + rlp_encode_string(value),
            ));
        },
    }
}

/// Reading a reference gives what it refers to, whatever follows it.
proof fn lemma_item_of_reference(n: Node, rest: Seq<u8>)
    requires
        well_formed(n),
        hashed_as_word(n),
    ensures
        rlp_item(reference(n) + rest) == Ok::<(Seq<u8>, nat), DecodeError>(
            (referred(n), reference(n).len()),
        ),
        reference(n).len() > 0,
{
    if n is Empty {
        assert(reference(n) == rlp_encode_string(Seq::empty()));
        lemma_header_of_encoded_string(Seq::empty(), rest);
    } else if encode(n).len() < 32 {
        lemma_encode_is_list(n);
        let payload = choose|payload: Seq<u8>| encode(n) == rlp_encode_list(payload);
        lemma_encoding_is_longer(payload);
        lemma_item_of_encoded_list(payload, rest);
    } else {
        lemma_header_of_encoded_string(keccak256_digest(encode(n)), rest);
    }
}

/// The items behind a reference are what it refers to and the items of what
/// follows it.
proof fn lemma_items_after_reference(n: Node, rest: Seq<u8>)
    requires
        well_formed(n),
        hashed_as_word(n),
    ensures
        rlp_items(reference(n) + rest) == match rlp_items(rest) {
            Err(e) => Err::<Seq<Seq<u8>>, DecodeError>(e),
            Ok(items) => Ok(seq![referred(n)] + items),
        },
{
    lemma_item_of_reference(n, rest);
    assert((reference(n) + rest).skip(reference(n).len() as int) =~= rest);
}

/// The items of the references to the children of a branch, before what
/// follows them.
proof fn lemma_items_after_references(children: Seq<Node>, count: nat, rest: Seq<u8>)
    requires
        count <= children.len(),
        all_well_formed(children, count),
    ensures
        rlp_items(references(children, count) + rest) == match rlp_items(rest) {
            Err(e) => Err::<Seq<Seq<u8>>, DecodeError>(e),
            Ok(items) => Ok(all_referred(children, count) + items),
        },
    decreases count,
{
    if count == 0 {
        assert(references(children, count) + rest =~= rest);
        if let Ok(items) = rlp_items(rest) {
            assert(all_referred(children, count) + items =~= items);
        }
    } else {
        let last = children[count - 1];
        let before = (count - 1) as nat;
        lemma_items_after_reference(last, rest);
        lemma_items_after_references(children, before, reference(last) + rest);
        assert(references(children, count) + rest =~= references(children, before) + (reference(
            last,
        ) + rest));
        if let Ok(items) = rlp_items(rest) {
            assert(all_referred(children, before) + (seq![referred(last)] + items)
                =~= all_referred(children, count) + items);
        }
    }
}

/// The items of an encoded leaf.
proof fn lemma_leaf_items(path: Seq<u8>, value: Seq<u8>)
    requires
        well_formed(Node::Leaf { path, value }),
    ensures
        rlp_list(encode(Node::Leaf { path, value })) == Ok::<Seq<Seq<u8>>, DecodeError>(
            seq![hp_encode(path, true), value],
        ),
{
    crate::rlp::lemma_list_of_two_strings(hp_encode(path, true), value);
}

/// The items of an encoded extension.
proof fn lemma_extension_items(path: Seq<u8>, child: Node)
    requires
        well_formed(Node::Extension { path, child: Box::new(child) }),
    ensures
        rlp_list(encode(Node::Extension { path, child: Box::new(child) })) == Ok::<
            Seq<Seq<u8>>,
            DecodeError,
        >(seq![hp_encode(path, false), referred(child)]),
{
    let first = rlp_encode_string(hp_encode(path, false));
    let second = reference(child);
    let payload = first + second;
    lemma_encoding_is_longer(hp_encode(path, false));
    lemma_encoding_is_longer(payload);
    lemma_list_of_encoded_list(payload);
    crate::rlp::lemma_items_after_string(hp_encode(path, false), second);
    lemma_items_after_reference(child, Seq::empty());
    assert(second + Seq::<u8>::empty() =~= second);
    assert(rlp_items(Seq::<u8>::empty()) == Ok::<Seq<Seq<u8>>, DecodeError>(Seq::empty()));
    assert(seq![hp_encode(path, false)] + (seq![referred(child)] + Seq::<Seq<u8>>::empty())
        =~= seq![hp_encode(path, false), referred(child)]);
}

/// The items of an encoded branch.
proof fn lemma_branch_items(children: Seq<Node>, value: Seq<u8>)
    requires
        well_formed(Node::Branch { children, value }),
    ensures
        rlp_list(encode(Node::Branch { children, value })) == Ok::<Seq<Seq<u8>>, DecodeError>(
            all_referred(children, 16).push(value),
        ),
{
    let last = rlp_encode_string(value);
    let payload = references(children, 16) + last;
    lemma_encoding_is_longer(value);
    lemma_encoding_is_longer(payload);
    lemma_list_of_encoded_list(payload);
    lemma_items_after_references(children, 16, last);
    crate::rlp::lemma_items_after_string(value, Seq::empty());
    assert(last + Seq::<u8>::empty() =~= last);
    assert(rlp_items(Seq::<u8>::empty()) == Ok::<Seq<Seq<u8>>, DecodeError>(Seq::empty()));
    assert(all_referred(children, 16) + (seq![value] + Seq::<Seq<u8>>::empty())
        =~= all_referred(children, 16).push(value));
}

/// A child of a well-formed branch is well formed.
proof fn lemma_child_is_well_formed(children: Seq<Node>, count: nat, which: int)
    requires
        count <= children.len(),
        all_well_formed(children, count),
        0 <= which < count,
    ensures
        well_formed(children[which]),
        hashed_as_word(children[which]),
    decreases count,
{
    if which < count - 1 {
        lemma_child_is_well_formed(children, (count - 1) as nat, which);
    }
}

/// Every entry below a node is a node held by hash, of 32 bytes or more.
proof fn lemma_entries_are_hashed(n: Node, key: Seq<u8>, cursor: nat)
    ensures
        forall|j: int|
            0 <= j < proof_below(n, key, cursor).len() ==> (#[trigger] proof_below(
                n,
                key,
                cursor,
            )[j]).len() >= 32,
    decreases n,
{
    match n {
        Node::Extension { path, child } => {
            if path.is_prefix_of(key.skip(cursor as int)) {
                lemma_entries_are_hashed(*child, key, cursor + path.len());
                lemma_entries_after_entry(*child, proof_below(*child, key, cursor + path.len()));
            }
        },
        Node::Branch { children, value } => {
            if cursor < key.len() && key[cursor as int] < children.len() {
                let child = children[key[cursor as int] as int];
                lemma_entries_are_hashed(child, key, cursor + 1);
                lemma_entries_after_entry(child, proof_below(child, key, cursor + 1));
            }
        },
        _ => {},
    }
}

/// Entries of 32 bytes or more stay so behind the entry of a node.
proof fn lemma_entries_after_entry(n: Node, below: Seq<Seq<u8>>)
    requires
        forall|j: int| 0 <= j < below.len() ==> (#[trigger] below[j]).len() >= 32,
    ensures
        forall|j: int|
            0 <= j < (entry(n) + below).len() ==> (#[trigger] (entry(n) + below)[j]).len() >= 32,
{
    let all = entry(n) + below;
    assert forall|j: int| 0 <= j < all.len() implies (#[trigger] all[j]).len() >= 32 by {
        if j >= entry(n).len() {
            assert(all[j] == below[j - entry(n).len()]);
        }
    }
}

/// What following the reference `reference` out of entry `index` comes to.
pub open spec fn reference_step(
    reference: Seq<u8>,
    key: Seq<u8>,
    cursor: nat,
    proof: Seq<Seq<u8>>,
    hashes: Seq<Seq<u8>>,
    index: nat,
) -> Step {
    let next = index + 1 as int;
    if reference.len() == 32 {
        Step::Follow { expected: reference, cursor, embedded: false }
    } else if 0 < reference.len() < 32 {
        if next < proof.len() && proof[next] == reference {
            Step::Follow { expected: hashes[next], cursor, embedded: true }
        } else {
            node_step(reference, key, cursor, proof, hashes, index)
        }
    } else {
        Step::Fail(ProofError::InvalidReference { index: index as usize })
    }
}

/// What reading a node with the items `items` comes to.
pub open spec fn items_step(
    items: Seq<Seq<u8>>,
    key: Seq<u8>,
    cursor: nat,
    proof: Seq<Seq<u8>>,
    hashes: Seq<Seq<u8>>,
    index: nat,
) -> Step {
    match node_target(items, key, cursor) {
        None => Step::Fail(ProofError::InvalidNode { index: index as usize }),
        Some(Target::Value(value)) => Step::Done(value),
        Some(Target::Child { reference, cursor: next }) => reference_step(
            reference,
            key,
            next,
            proof,
            hashes,
            index,
        ),
    }
}

/// Reading a node comes to what its items say.
proof fn lemma_step_of_items(
    node: Seq<u8>,
    items: Seq<Seq<u8>>,
    key: Seq<u8>,
    cursor: nat,
    proof: Seq<Seq<u8>>,
    hashes: Seq<Seq<u8>>,
    index: nat,
)
    requires
        all_nibbles(key),
        rlp_list(node) == Ok::<Seq<Seq<u8>>, DecodeError>(items),
    ensures
        node_step(node, key, cursor, proof, hashes, index) == items_step(
            items,
            key,
            cursor,
            proof,
            hashes,
            index,
        ),
{
}

/// Following the reference to a child comes to what the child holds, where
/// the entries behind entry `index` are those of the child and of what the
/// key passes below it.
proof fn lemma_child_walks(child: Node, key: Seq<u8>, cursor: nat, proof: Seq<Seq<u8>>, index: nat)
    requires
        well_formed(child),
        hashed_as_word(child),
        !(child is Empty),
        all_nibbles(key),
        cursor <= key.len(),
        index < proof.len(),
        proof.skip(index + 1 as int) == entry(child) + proof_below(child, key, cursor),
    ensures
        walk_onward(
            reference_step(referred(child), key, cursor, proof, digests(proof), index),
            key,
            proof,
            digests(proof),
            index,
        ) == Ok::<Option<Seq<u8>>, ProofError>(lookup(child, key, cursor)),
    decreases child, 2nat,
{
    let rest = proof.skip(index + 1 as int);
    let below = proof_below(child, key, cursor);
    let hashes = digests(proof);
    if encode(child).len() < 32 {
        lemma_encode_is_list(child);
        let payload = choose|payload: Seq<u8>| encode(child) == rlp_encode_list(payload);
        lemma_encoding_is_longer(payload);
        lemma_item_of_encoded_list(payload, Seq::empty());
        lemma_entries_are_hashed(child, key, cursor);
        assert(rest =~= below);
        if index + 1 < proof.len() {
            assert(rest.len() > 0);
            assert(proof[index + 1 as int] == rest[0]);
            assert(below[0].len() >= 32);
        }
        lemma_node_walks(child, key, cursor, proof, index);
    } else {
        assert(rest.len() == 1 + below.len());
        assert(rest[0] == encode(child));
        assert(proof[index + 1 as int] == rest[0]);
        assert(hashes[index + 1 as int] == keccak256_digest(encode(child)));
        assert(proof.skip(index + 2 as int) =~= rest.skip(1));
        assert(rest.skip(1) =~= below);
        lemma_node_walks(child, key, cursor, proof, index + 1);
    }
}

/// Reading a leaf comes to what the leaf holds.
proof fn lemma_leaf_walks(
    path: Seq<u8>,
    value: Seq<u8>,
    key: Seq<u8>,
    cursor: nat,
    proof: Seq<Seq<u8>>,
    index: nat,
)
    requires
        well_formed(Node::Leaf { path, value }),
        all_nibbles(key),
    ensures
        node_step(encode(Node::Leaf { path, value }), key, cursor, proof, digests(proof), index)
            == Step::Done(lookup(Node::Leaf { path, value }, key, cursor)),
{
    let items = seq![hp_encode(path, true), value];
    lemma_leaf_items(path, value);
    lemma_hp_round_trip(path, true);
    lemma_step_of_items(
        encode(Node::Leaf { path, value }),
        items,
        key,
        cursor,
        proof,
        digests(proof),
        index,
    );
    assert(items.len() == 2 && items[0] == hp_encode(path, true) && items[1] == value);
}

/// Reading an extension comes to nothing where the key leaves its path, and
/// to following the reference to its child where it does not.
proof fn lemma_extension_step(
    path: Seq<u8>,
    child: Node,
    key: Seq<u8>,
    cursor: nat,
    proof: Seq<Seq<u8>>,
    index: nat,
)
    requires
        well_formed(Node::Extension { path, child: Box::new(child) }),
        all_nibbles(key),
    ensures
        node_step(
            encode(Node::Extension { path, child: Box::new(child) }),
            key,
            cursor,
            proof,
            digests(proof),
            index,
        ) == if path.is_prefix_of(key.skip(cursor as int)) {
            reference_step(referred(child), key, cursor + path.len(), proof, digests(proof), index)
        } else {
            Step::Done(None)
        },
{
    let items = seq![hp_encode(path, false), referred(child)];
    lemma_extension_items(path, child);
    lemma_hp_round_trip(path, false);
    lemma_step_of_items(
        encode(Node::Extension { path, child: Box::new(child) }),
        items,
        key,
        cursor,
        proof,
        digests(proof),
        index,
    );
    assert(items.len() == 2 && items[0] == hp_encode(path, false) && items[1] == referred(child));
}

/// Reading a branch comes to its value where the key is used up, to nothing
/// where the slot of the next nibble is empty, and to following the
/// reference to the child in that slot otherwise.
proof fn lemma_branch_step(
    children: Seq<Node>,
    value: Seq<u8>,
    key: Seq<u8>,
    cursor: nat,
    proof: Seq<Seq<u8>>,
    index: nat,
)
    requires
        well_formed(Node::Branch { children, value }),
        all_nibbles(key),
    ensures
        node_step(encode(Node::Branch { children, value }), key, cursor, proof, digests(proof), index)
            == if cursor >= key.len() {
            Step::Done(
                if value.len() == 0 {
                    None
                } else {
                    Some(value)
                },
            )
        } else if children[key[cursor as int] as int] is Empty {
            Step::Done(None)
        } else {
            reference_step(
                referred(children[key[cursor as int] as int]),
                key,
                cursor + 1,
                proof,
                digests(proof),
                index,
            )
        },
{
    let items = all_referred(children, 16).push(value);
    lemma_branch_items(children, value);
    lemma_step_of_items(
        encode(Node::Branch { children, value }),
        items,
        key,
        cursor,
        proof,
        digests(proof),
        index,
    );
    assert(items.len() == 17 && items[16] == value);
    if cursor < key.len() {
        let nibble = key[cursor as int] as int;
        assert(key[cursor as int] < 16);
        let child = children[nibble];
        assert(items[nibble] == referred(child));
        if !(child is Empty) {
            lemma_child_is_well_formed(children, 16, nibble);
            lemma_encode_is_list(child);
            let payload = choose|payload: Seq<u8>| encode(child) == rlp_encode_list(payload);
            lemma_encoding_is_longer(payload);
            lemma_item_of_encoded_list(payload, Seq::empty());
        }
    }
}

/// Reading a node comes to what the node holds, where the entries behind
/// entry `index` are those of what the key passes below the node.
proof fn lemma_node_walks(n: Node, key: Seq<u8>, cursor: nat, proof: Seq<Seq<u8>>, index: nat)
    requires
        well_formed(n),
        !(n is Empty),
        all_nibbles(key),
        cursor <= key.len(),
        index < proof.len(),
        proof.skip(index + 1 as int) == proof_below(n, key, cursor),
    ensures
        walk_onward(
            node_step(encode(n), key, cursor, proof, digests(proof), index),
            key,
            proof,
            digests(proof),
            index,
        ) == Ok::<Option<Seq<u8>>, ProofError>(lookup(n, key, cursor)),
    decreases n, 1nat,
{
    match n {
        Node::Empty => {},
        Node::Leaf { path, value } => {
            lemma_leaf_walks(path, value, key, cursor, proof, index);
        },
        Node::Extension { path, child } => {
            lemma_extension_step(path, *child, key, cursor, proof, index);
            if path.is_prefix_of(key.skip(cursor as int)) {
                lemma_child_walks(*child, key, cursor + path.len(), proof, index);
            }
        },
        Node::Branch { children, value } => {
            lemma_branch_step(children, value, key, cursor, proof, index);
            if cursor < key.len() {
                assert(key[cursor as int] < 16);
                let child = children[key[cursor as int] as int];
                if !(child is Empty) {
                    lemma_child_is_well_formed(children, 16, key[cursor as int] as int);
                    lemma_child_walks(child, key, cursor + 1, proof, index);
                } else {
                    assert(lookup(child, key, cursor + 1) == None::<Seq<u8>>);
                }
            }
        },
    }
}

/// The proof that a trie hands out for a key walks to what the trie holds
/// under that key: to the value where the key is in the trie, and to none
/// where it is not.
pub proof fn lemma_proof_walks_to_lookup(root: Node, key: Seq<u8>)
    requires
        well_formed(root),
        !(root is Empty),
    ensures
        mpt_walk(keccak256_digest(encode(root)), key, proof_of(root, nibbles_of(key))) == Ok::<
            Option<Seq<u8>>,
            ProofError,
        >(lookup(root, nibbles_of(key), 0)),
{
    let nibbles = nibbles_of(key);
    let proof = proof_of(root, nibbles);
    lemma_nibbles_of_are_nibbles(key);
    assert(proof.skip(1) =~= proof_below(root, nibbles, 0));
    lemma_node_walks(root, nibbles, 0, proof, 0);
}

/// A key that a trie holds is found: the proof that the trie hands out for
/// it walks to its value.
pub proof fn lemma_present_key_is_found(root: Node, key: Seq<u8>, value: Seq<u8>)
    requires
        well_formed(root),
        !(root is Empty),
        lookup(root, nibbles_of(key), 0) == Some(value),
    ensures
        mpt_walk(keccak256_digest(encode(root)), key, proof_of(root, nibbles_of(key))) == Ok::<
            Option<Seq<u8>>,
            ProofError,
        >(Some(value)),
{
    lemma_proof_walks_to_lookup(root, key);
}

/// A key that a trie does not hold is excluded: the proof that the trie
/// hands out for it walks to no value.
pub proof fn lemma_absent_key_is_excluded(root: Node, key: Seq<u8>)
    requires
        well_formed(root),
        !(root is Empty),
        lookup(root, nibbles_of(key), 0) is None,
    ensures
        mpt_walk(keccak256_digest(encode(root)), key, proof_of(root, nibbles_of(key))) == Ok::<
            Option<Seq<u8>>,
            ProofError,
        >(None),
{
    lemma_proof_walks_to_lookup(root, key);
}

/// The trie that holds `value` under `key` and nothing else: one leaf whose
/// path is the whole key.
pub open spec fn single_entry(key: Seq<u8>, value: Seq<u8>) -> Node {
    Node::Leaf { path: nibbles_of(key), value }
}

/// A trie with one entry gives back that entry: walking its key through its
/// one node, from the digest of that node, ends with its value.
pub proof fn lemma_single_entry_is_found(key: Seq<u8>, value: Seq<u8>)
    requires
        encode(single_entry(key, value)).len() <= usize::MAX,
    ensures
        mpt_walk(
            keccak256_digest(encode(single_entry(key, value))),
            key,
            seq![encode(single_entry(key, value))],
        ) == Ok::<Option<Seq<u8>>, ProofError>(Some(value)),
{
    let root = single_entry(key, value);
    lemma_nibbles_of_are_nibbles(key);
    lemma_proof_walks_to_lookup(root, key);
    assert(nibbles_of(key).skip(0) =~= nibbles_of(key));
    assert(proof_of(root, nibbles_of(key)) =~= seq![encode(root)]);
}

/// A trie with one entry holds no other key: walking any other key through
/// its one node ends without a value.
pub proof fn lemma_single_entry_excludes(key: Seq<u8>, value: Seq<u8>, absent: Seq<u8>)
    requires
        encode(single_entry(key, value)).len() <= usize::MAX,
        absent != key,
    ensures
        mpt_walk(
            keccak256_digest(encode(single_entry(key, value))),
            absent,
            seq![encode(single_entry(key, value))],
        ) == Ok::<Option<Seq<u8>>, ProofError>(None),
{
    let root = single_entry(key, value);
    lemma_nibbles_of_are_nibbles(key);
    lemma_proof_walks_to_lookup(root, absent);
    assert(nibbles_of(absent).skip(0) =~= nibbles_of(absent));
    if nibbles_of(absent) == nibbles_of(key) {
        lemma_nibbles_of_injective(absent, key);
    }
    assert(proof_of(root, nibbles_of(absent)) =~= seq![encode(root)]);
}

/// Whatever nodes lead a key from the root of a trie to a verdict, the
/// verdict is what the trie holds under the key, unless one of the nodes has
/// the digest of another node, one that the trie hands out for the key.
pub proof fn lemma_verdict_is_lookup(root: Node, key: Seq<u8>, proof: Seq<Seq<u8>>)
    requires
        well_formed(root),
        !(root is Empty),
        proof.len() > 0,
        collision_free(proof_of(root, nibbles_of(key)), proof),
        mpt_walk(keccak256_digest(encode(root)), key, proof) is Ok,
    ensures
        mpt_walk(keccak256_digest(encode(root)), key, proof) == Ok::<
            Option<Seq<u8>>,
            ProofError,
        >(lookup(root, nibbles_of(key), 0)),
{
    lemma_proof_walks_to_lookup(root, key);
    lemma_verdicts_agree(
        keccak256_digest(encode(root)),
        key,
        proof_of(root, nibbles_of(key)),
        proof,
    );
}

} // verus!
