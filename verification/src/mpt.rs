//! Merkle Patricia Trie: branch, leaf and extension nodes, a content-addressed
//! node database, insertion, lookup and inclusion proofs.
use rlp::DecoderError;
use vstd::prelude::*;

use crate::codec::{
    concat, item_count, reads_back_strings, rlp_bytes, rlp_count, rlp_list, rlp_string_at,
    rlp_strings, size_limit, stream_append_bytes, stream_append_empty, stream_items, stream_len,
    stream_new_list, stream_out, string_at,
};

use crate::nibbles::{
    is_nibble_path, lemma_compact_round_trip, spec_compact_decode, spec_compact_encode,
};

pub use crate::nibbles::{compact_decode, compact_encode, Nibble};
pub use crate::node_db::MptNodeDb;
pub use crate::mpt_trie::{verify_mpt_proof, MptTrie};

verus! {

/// A reference to a child node: the Keccak-256 hash of its encoding.
pub type NodeRef = crate::types::Hash;

/// A trie node.
#[derive(Debug, Clone, PartialEq, Eq)]
#[allow(inconsistent_fields)]
pub enum MptNode {
    /// Sixteen child slots, one per nibble, and the value of a key that ends here.
    Branch { children: [Option<NodeRef>; 16], value: Option<Vec<u8>> },
    /// The rest of a key's path and its value.
    Leaf { path: Vec<Nibble>, value: Vec<u8> },
    /// A path shared by every key below, and the node it leads to.
    Extension { path: Vec<Nibble>, child: NodeRef },
}

/// The abstract value of a node: paths and byte strings as sequences, child
/// references as the sequences of their hash bytes.
#[allow(inconsistent_fields)]
pub enum NodeView {
    Branch { children: Seq<Option<Seq<u8>>>, value: Option<Seq<u8>> },
    Leaf { path: Seq<u8>, value: Seq<u8> },
    Extension { path: Seq<u8>, child: Seq<u8> },
}

/// The bytes of an optional child reference.
pub open spec fn child_view(c: Option<NodeRef>) -> Option<Seq<u8>> {
    match c {
        Some(h) => Some(h@),
        None => None,
    }
}

/// An optional byte string as written in a node: absent is empty.
pub open spec fn opt_bytes(b: Option<Seq<u8>>) -> Seq<u8> {
    match b {
        Some(v) => v,
        None => Seq::empty(),
    }
}

/// An empty byte string read from a node means absent.
pub open spec fn nonempty_or_none(b: Seq<u8>) -> Option<Seq<u8>> {
    if b.len() == 0 {
        None
    } else {
        Some(b)
    }
}

impl View for MptNode {
    type V = NodeView;

    open spec fn view(&self) -> NodeView {
        match self {
            MptNode::Branch { children, value } => NodeView::Branch {
                children: children@.map_values(|c: Option<NodeRef>| child_view(c)),
                value: match value {
                    Some(v) => Some(v@),
                    None => None,
                },
            },
            MptNode::Leaf { path, value } => NodeView::Leaf { path: path@, value: value@ },
            MptNode::Extension { path, child } => NodeView::Extension {
                path: path@,
                child: child@,
            },
        }
    }
}

impl NodeView {
    /// The byte strings that the node's encoding lists, in order.
    pub open spec fn fields(self) -> Seq<Seq<u8>> {
        match self {
            NodeView::Branch { children, value } => Seq::new(
                17,
                |i: int|
                    if i < 16 {
                        opt_bytes(children[i])
                    } else {
                        opt_bytes(value)
                    },
            ),
            NodeView::Leaf { path, value } => seq![spec_compact_encode(path, true), value],
            NodeView::Extension { path, child } => seq![spec_compact_encode(path, false), child],
        }
    }

    /// The node's RLP encoding.
    pub open spec fn encoding(self) -> Seq<u8> {
        rlp_list(rlp_strings(self.fields()))
    }

    /// The node's paths consist of nibbles.
    pub open spec fn has_nibble_paths(self) -> bool {
        match self {
            NodeView::Branch { .. } => true,
            NodeView::Leaf { path, .. } => is_nibble_path(path),
            NodeView::Extension { path, .. } => is_nibble_path(path),
        }
    }

    /// The node's shape: sixteen child slots of 32-byte references, nibble paths.
    pub open spec fn well_formed(self) -> bool {
        match self {
            NodeView::Branch { children, .. } => children.len() == 16 && forall|i: int|
                0 <= i < 16 ==> (#[trigger] children[i] matches Some(h) ==> h.len() == 32),
            NodeView::Leaf { path, .. } => is_nibble_path(path),
            NodeView::Extension { path, child } => is_nibble_path(path) && child.len() == 32,
        }
    }

    /// The encoding's payload is short enough for the decoder to read it back.
    pub open spec fn fits(self) -> bool {
        concat(rlp_strings(self.fields())).len() < size_limit()
    }

    /// The node that decoding its encoding yields: a branch value that is
    /// the empty string reads back as absent.
    pub open spec fn normalize(self) -> NodeView {
        match self {
            NodeView::Branch { children, value } => NodeView::Branch {
                children,
                value: nonempty_or_none(opt_bytes(value)),
            },
            _ => self,
        }
    }
}

/// The payload of a successful decoder answer (empty otherwise).
pub open spec fn ok_bytes(r: Result<Seq<u8>, DecoderError>) -> Seq<u8> {
    match r {
        Ok(v) => v,
        Err(_) => Seq::empty(),
    }
}

/// Decoding of a two-item node: a leaf, or an extension with a 32-byte child.
pub open spec fn spec_decode_short(e: Seq<u8>) -> Option<NodeView> {
    match rlp_string_at(e, 0) {
        Ok(encoded_path) => match spec_compact_decode(encoded_path) {
            Some((path, is_leaf)) => match rlp_string_at(e, 1) {
                Ok(v) => if is_leaf {
                    Some(NodeView::Leaf { path, value: v })
                } else if v.len() == 32 {
                    Some(NodeView::Extension { path, child: v })
                } else {
                    None
                },
                Err(_) => None,
            },
            None => None,
        },
        Err(_) => None,
    }
}

/// Decoding of a seventeen-item node: a branch whose sixteen child slots are
/// empty or 32-byte references.
pub open spec fn spec_decode_branch(e: Seq<u8>) -> Option<NodeView> {
    if (forall|i: int| 0 <= i < 17 ==> #[trigger] rlp_string_at(e, i) is Ok) && (forall|i: int|
        0 <= i < 16 ==> #[trigger] ok_bytes(rlp_string_at(e, i)).len() == 0 || ok_bytes(
            rlp_string_at(e, i),
        ).len() == 32) {
        Some(
            NodeView::Branch {
                children: Seq::new(16, |i: int| nonempty_or_none(ok_bytes(rlp_string_at(e, i)))),
                value: nonempty_or_none(ok_bytes(rlp_string_at(e, 16))),
            },
        )
    } else {
        None
    }
}

/// What `MptNode::decode` gives for the given bytes.
pub open spec fn spec_decode_node(e: Seq<u8>) -> Option<NodeView> {
    match rlp_count(e) {
        Ok(n) => if n == 2 {
            spec_decode_short(e)
        } else if n == 17 {
            spec_decode_branch(e)
        } else {
            None
        },
        Err(_) => None,
    }
}

/// Copies a 32-byte slice into a hash.
pub(crate) fn hash_from_slice(data: &[u8]) -> (hash: NodeRef)
    requires
        data@.len() == 32,
    ensures
        hash@ == data@,
{
    let mut hash: NodeRef = [0u8; 32];
    for i in 0..32
        invariant
            data@.len() == 32,
            forall|j: int| 0 <= j < i ==> hash@[j] == data@[j],
    {
        hash[i] = data[i];
    }
    assert(hash@ =~= data@);
    hash
}

impl MptNode {
    /// A branch with no children and no value.
    pub fn branch() -> (node: Self)
        ensures
            node@ == (NodeView::Branch {
                children: Seq::new(16, |i: int| None::<Seq<u8>>),
                value: None,
            }),
    {
        let node = MptNode::Branch { children: [None; 16], value: None };
        proof {
            if let MptNode::Branch { children, .. } = node {
                assert(children@.map_values(|c: Option<NodeRef>| child_view(c)) =~= Seq::new(
                    16,
                    |i: int| None::<Seq<u8>>,
                ));
            }
        }
        node
    }

    /// A branch with no children that holds the value of a key ending here.
    pub fn branch_with_value(value: Vec<u8>) -> (node: Self)
        ensures
            node@ == (NodeView::Branch {
                children: Seq::new(16, |i: int| None::<Seq<u8>>),
                value: Some(value@),
            }),
    {
        let node = MptNode::Branch { children: [None; 16], value: Some(value) };
        proof {
            if let MptNode::Branch { children, .. } = node {
                assert(children@.map_values(|c: Option<NodeRef>| child_view(c)) =~= Seq::new(
                    16,
                    |i: int| None::<Seq<u8>>,
                ));
            }
        }
        node
    }

    /// A leaf holding the rest of a key's path and its value.
    pub fn leaf(path: Vec<Nibble>, value: Vec<u8>) -> (node: Self)
        ensures
            node@ == (NodeView::Leaf { path: path@, value: value@ }),
    {
        MptNode::Leaf { path, value }
    }

    /// An extension holding a shared path and the reference to its child.
    pub fn extension(path: Vec<Nibble>, child: NodeRef) -> (node: Self)
        ensures
            node@ == (NodeView::Extension { path: path@, child: child@ }),
    {
        MptNode::Extension { path, child }
    }

    /// RLP-encodes the node: a branch as a list of its sixteen child
    /// references (empty for none) and its value (empty for none); a leaf or
    /// an extension as a list of its compact path and its value or child.
    ///
    /// When the encoding's payload is below `size_limit()`, decoding it gives
    /// the node back, a branch value that is the empty string read as absent.
    pub fn encode(&self) -> (encoded: Vec<u8>)
        requires
            self@.has_nibble_paths(),
        ensures
            encoded@ == self@.encoding(),
            self@.fits() ==> spec_decode_node(encoded@) == Some(self@.normalize()),
    {
        let ghost fields = self@.fields();
        let encoded = match self {
            MptNode::Branch { children, value } => {
                let mut stream = stream_new_list(17);
                for i in 0..16
                    invariant
                        stream_len(stream) == 17,
                        stream_items(stream) == rlp_strings(fields.take(i as int)),
                        fields == self@.fields(),
                        self == (MptNode::Branch { children: *children, value: *value }),
                {
                    match children[i] {
                        Some(hash) => {
                            stream_append_bytes(&mut stream, hash.as_slice());
                        },
                        None => {
                            stream_append_empty(&mut stream);
                        },
                    }
                    assert(rlp_strings(fields.take(i + 1)) =~= rlp_strings(
                        fields.take(i as int),
                    ).push(rlp_bytes(fields[i as int])));
                }
                match value {
                    Some(v) => {
                        stream_append_bytes(&mut stream, v.as_slice());
                    },
                    None => {
                        stream_append_empty(&mut stream);
                    },
                }
                assert(rlp_strings(fields) =~= rlp_strings(fields.take(16)).push(
                    rlp_bytes(fields[16]),
                ));
                stream_out(stream)
            },
            MptNode::Leaf { path, value } => {
                let mut stream = stream_new_list(2);
                let encoded_path = compact_encode(path.as_slice(), true);
                stream_append_bytes(&mut stream, encoded_path.as_slice());
                stream_append_bytes(&mut stream, value.as_slice());
                assert(rlp_strings(fields) =~= seq![rlp_bytes(fields[0]), rlp_bytes(fields[1])]);
                assert(stream_items(stream) =~= rlp_strings(fields));
                stream_out(stream)
            },
            MptNode::Extension { path, child } => {
                let mut stream = stream_new_list(2);
                let encoded_path = compact_encode(path.as_slice(), false);
                stream_append_bytes(&mut stream, encoded_path.as_slice());
                stream_append_bytes(&mut stream, child.as_slice());
                assert(rlp_strings(fields) =~= seq![rlp_bytes(fields[0]), rlp_bytes(fields[1])]);
                assert(stream_items(stream) =~= rlp_strings(fields));
                stream_out(stream)
            },
        };
        proof {
            if let MptNode::Branch { children, .. } = self {
                assert forall|i: int| 0 <= i < 16 implies (#[trigger] self@->Branch_children[i] matches Some(
                    h,
                ) ==> h.len() == 32) by {
                    assert(self@->Branch_children[i] == child_view(children@[i]));
                }
            }
            assert(self@.well_formed());
            if self@.fits() {
                assert(reads_back_strings(encoded@, fields));
                lemma_decode_of_fields(self@, encoded@);
            }
        }
        encoded
    }

    /// Decodes a node: two items give a leaf or an extension (by the compact
    /// path's flag), seventeen give a branch; anything else, an unreadable
    /// item, a bad compact path or a reference that is not 32 bytes gives `None`.
    pub fn decode(encoded: &[u8]) -> (node: Option<Self>)
        ensures
            match node {
                Some(n) => spec_decode_node(encoded@) == Some(n@),
                None => spec_decode_node(encoded@) is None,
            },
    {
        let item_count = match item_count(encoded) {
            Ok(n) => n,
            Err(_) => return None,
        };
        if item_count == 2 {
            Self::decode_short_node(encoded)
        } else if item_count == 17 {
            Self::decode_branch(encoded)
        } else {
            None
        }
    }

    fn decode_branch(encoded: &[u8]) -> (node: Option<Self>)
        ensures
            match node {
                Some(n) => spec_decode_branch(encoded@) == Some(n@),
                None => spec_decode_branch(encoded@) is None,
            },
    {
        let mut children: [Option<NodeRef>; 16] = [None; 16];
        for i in 0..16
            invariant
                forall|j: int| 0 <= j < i ==> #[trigger] rlp_string_at(encoded@, j) is Ok,
                forall|j: int|
                    0 <= j < i ==> #[trigger] ok_bytes(rlp_string_at(encoded@, j)).len() == 0
                        || ok_bytes(rlp_string_at(encoded@, j)).len() == 32,
                forall|j: int|
                    0 <= j < i ==> child_view(#[trigger] children@[j]) == nonempty_or_none(
                        ok_bytes(rlp_string_at(encoded@, j)),
                    ),
                forall|j: int| i <= j < 16 ==> #[trigger] children@[j] is None,
        {
            let data = match string_at(encoded, i) {
                Ok(d) => d,
                Err(_) => return None,
            };
            if data.len() != 0 {
                if data.len() != 32 {
                    assert(!(ok_bytes(rlp_string_at(encoded@, i as int)).len() == 0 || ok_bytes(
                        rlp_string_at(encoded@, i as int),
                    ).len() == 32));
                    return None;
                }
                let hash = hash_from_slice(data.as_slice());
                let ghost before = children@;
                children[i] = Some(hash);
                assert(children@ == before.update(i as int, Some(hash)));
            }
        }
        let value = match string_at(encoded, 16) {
            Ok(v) => v,
            Err(_) => return None,
        };
        let value = if value.len() == 0 {
            None
        } else {
            Some(value)
        };
        let node = MptNode::Branch { children, value };
        proof {
            assert(children@.map_values(|c: Option<NodeRef>| child_view(c)) =~= Seq::new(
                16,
                |i: int| nonempty_or_none(ok_bytes(rlp_string_at(encoded@, i))),
            ));
        }
        Some(node)
    }

    fn decode_short_node(encoded: &[u8]) -> (node: Option<Self>)
        ensures
            match node {
                Some(n) => spec_decode_short(encoded@) == Some(n@),
                None => spec_decode_short(encoded@) is None,
            },
    {
        let encoded_path = match string_at(encoded, 0) {
            Ok(p) => p,
            Err(_) => return None,
        };
        let (path, is_leaf) = match compact_decode(encoded_path.as_slice()) {
            Some(d) => d,
            None => return None,
        };
        let second = match string_at(encoded, 1) {
            Ok(v) => v,
            Err(_) => return None,
        };
        if is_leaf {
            return Some(MptNode::Leaf { path, value: second });
        }
        if second.len() != 32 {
            return None;
        }
        let child = hash_from_slice(second.as_slice());
        Some(MptNode::Extension { path, child })
    }
}

/// What the decoder reads back from a node's encoding is the node itself,
/// normalized.
proof fn lemma_decode_of_fields(n: NodeView, e: Seq<u8>)
    requires
        n.well_formed(),
        reads_back_strings(e, n.fields()),
    ensures
        spec_decode_node(e) == Some(n.normalize()),
{
    let fields = n.fields();
    match n {
        NodeView::Branch { children, value } => {
            assert(rlp_count(e) == Ok::<usize, DecoderError>(17));
            assert forall|i: int| 0 <= i < 17 implies #[trigger] rlp_string_at(e, i) is Ok by {
                assert(rlp_string_at(e, i) == Ok::<Seq<u8>, DecoderError>(fields[i]));
            }
            assert forall|i: int| 0 <= i < 16 implies #[trigger] ok_bytes(rlp_string_at(e, i)).len()
                == 0 || ok_bytes(rlp_string_at(e, i)).len() == 32 by {
                assert(rlp_string_at(e, i) == Ok::<Seq<u8>, DecoderError>(fields[i]));
                assert(fields[i] == opt_bytes(children[i]));
            }
            let decoded_children = Seq::new(16, |i: int| nonempty_or_none(ok_bytes(rlp_string_at(e, i))));
            assert forall|i: int| 0 <= i < 16 implies decoded_children[i] == children[i] by {
                assert(rlp_string_at(e, i) == Ok::<Seq<u8>, DecoderError>(fields[i]));
                assert(fields[i] == opt_bytes(children[i]));
            }
            assert(decoded_children =~= children);
            assert(rlp_string_at(e, 16) == Ok::<Seq<u8>, DecoderError>(fields[16]));
        },
        NodeView::Leaf { path, value } => {
            assert(rlp_count(e) == Ok::<usize, DecoderError>(2));
            assert(rlp_string_at(e, 0) == Ok::<Seq<u8>, DecoderError>(fields[0]));
            assert(rlp_string_at(e, 1) == Ok::<Seq<u8>, DecoderError>(fields[1]));
            lemma_compact_round_trip(path, true);
        },
        NodeView::Extension { path, child } => {
            assert(rlp_count(e) == Ok::<usize, DecoderError>(2));
            assert(rlp_string_at(e, 0) == Ok::<Seq<u8>, DecoderError>(fields[0]));
            assert(rlp_string_at(e, 1) == Ok::<Seq<u8>, DecoderError>(fields[1]));
            lemma_compact_round_trip(path, false);
        },
    }
}

} // verus!
