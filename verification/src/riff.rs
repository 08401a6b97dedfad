//! The RIFF container: a header, then a tree of chunks and lists.
//!
//! On disk a chunk is `id, size, payload` and a list is
//! `"LIST", size, type, children`. Tags are stored most significant byte
//! first, sizes least significant byte first, and a chunk's payload is
//! padded to an even length. [`riff_tree_of`] says which tree a sequence of
//! bytes holds; the readers of this crate are proved against it.

use crate::bytes::{BigEndian, LittleEndian};
use crate::error::ReadError;
use crate::fourcc::FourCC;
use vstd::prelude::*;

verus! {

/// `"RIFF"`, the tag that opens a container.
pub const RIFF_TYPE: u32 = 0x5249_4646;

/// `"LIST"`, the tag that opens a list.
pub const LIST_TYPE: u32 = 0x4C49_5354;

/// The ways in which RIFF structure can be broken.
#[derive(Clone, Copy, Debug, PartialEq, Eq, Structural)]
pub enum RiffError {
    InvalidRiffHeader,
    InvalidListHeader,
    InvalidChunkHeader,
    InvalidChunkCast,
    InvalidListCast,
}

/// The twelve bytes that open a container.
#[derive(Clone, Copy, Debug, PartialEq, Eq, Structural)]
pub struct RiffHeader {
    /// The size field as stored: the length of everything after it.
    pub file_size: u32,
    pub file_type: FourCC,
}

/// Where a chunk's payload lies.
#[derive(Clone, Copy, Debug, PartialEq, Eq, Structural)]
pub struct RiffChunkHeader {
    pub ck_id: FourCC,
    /// The length of the payload, padding not counted.
    pub ck_size: u32,
    /// The offset of the payload's first byte in the source.
    pub data_pos: u64,
}

/// Where a list's children lie.
#[derive(Clone, Copy, Debug, PartialEq, Eq, Structural)]
pub struct RiffListHeader {
    pub list_type: FourCC,
    /// The size field as stored: it counts the four bytes of the type.
    pub list_size: u32,
    /// The offset of the first child in the source.
    pub data_pos: u64,
}

/// A leaf of the tree.
#[derive(Clone, Copy, Debug, PartialEq, Eq, Structural)]
pub struct RiffChunk {
    pub header: RiffChunkHeader,
}

/// An inner node of the tree.
#[derive(Debug, PartialEq, Eq)]
pub struct RiffList {
    pub header: RiffListHeader,
    pub childs: Vec<RiffNode>,
}

/// A node of the tree.
#[derive(Debug, PartialEq, Eq)]
pub enum RiffNode {
    Chunk(RiffChunk),
    List(RiffList),
}

/// A container's header and its top-level nodes.
#[derive(Debug, PartialEq, Eq)]
pub struct RiffTree {
    pub header: RiffHeader,
    pub childs: Vec<RiffNode>,
}

/// A node as a mathematical value.
pub enum NodeModel {
    Chunk(RiffChunkHeader),
    List(RiffListHeader, Seq<NodeModel>),
}

/// A tree as a mathematical value.
pub struct TreeModel {
    pub header: RiffHeader,
    pub childs: Seq<NodeModel>,
}

/// The number of bytes that pad a payload of `size` bytes to an even length.
pub open spec fn padding_of(size: u32) -> u32 {
    if size % 2 == 0 {
        0
    } else {
        1
    }
}

impl RiffChunkHeader {
    /// The offset just behind the payload and its padding.
    pub open spec fn end(self) -> int {
        self.data_pos + self.ck_size + padding_of(self.ck_size)
    }

    pub fn data_size(&self) -> (r: u32)
        ensures
            r == self.ck_size,
    {
        self.ck_size
    }

    pub fn data_pos(&self) -> (r: u64)
        ensures
            r == self.data_pos,
    {
        self.data_pos
    }
}

impl RiffListHeader {
    /// A list's size field counts its type tag, so it is at least 4.
    pub open spec fn wf(self) -> bool {
        self.list_size >= 4
    }

    /// The offset just behind the space that the list declares for its
    /// children.
    pub open spec fn end(self) -> int {
        self.data_pos + self.list_size - 4
    }

    /// The number of bytes that the list declares for its children.
    pub fn data_size(&self) -> (r: u32)
        requires
            self.wf(),
        ensures
            r == self.list_size - 4,
    {
        self.list_size - 4
    }

    pub fn data_pos(&self) -> (r: u64)
        ensures
            r == self.data_pos,
    {
        self.data_pos
    }
}

impl RiffHeader {
    pub fn file_size(&self) -> (r: u32)
        ensures
            r == self.file_size,
    {
        self.file_size
    }

    pub fn file_type(&self) -> (r: FourCC)
        ensures
            r == self.file_type,
    {
        self.file_type
    }
}

/// The models of a sequence of nodes.
pub open spec fn models_of(nodes: Seq<RiffNode>) -> Seq<NodeModel>
    decreases nodes,
{
    Seq::new(
        nodes.len(),
        |i: int|
            if 0 <= i < nodes.len() {
                nodes[i].view()
            } else {
                arbitrary()
            },
    )
}

impl View for RiffNode {
    type V = NodeModel;

    open spec fn view(&self) -> NodeModel
        decreases self,
    {
        match self {
            RiffNode::Chunk(c) => NodeModel::Chunk(c.header),
            RiffNode::List(l) => NodeModel::List(l.header, models_of(l.childs@)),
        }
    }
}

impl View for RiffTree {
    type V = TreeModel;

    open spec fn view(&self) -> TreeModel {
        TreeModel { header: self.header, childs: models_of(self.childs@) }
    }
}

impl NodeModel {
    /// A chunk's id, or a list's type.
    pub open spec fn id(self) -> FourCC {
        match self {
            NodeModel::Chunk(h) => h.ck_id,
            NodeModel::List(h, _) => h.list_type,
        }
    }

    /// The offset of a chunk's payload, or of a list's first child.
    pub open spec fn data_pos(self) -> u64 {
        match self {
            NodeModel::Chunk(h) => h.data_pos,
            NodeModel::List(h, _) => h.data_pos,
        }
    }

    /// The length of a chunk's payload, or of the space that a list declares
    /// for its children.
    pub open spec fn data_size(self) -> int {
        match self {
            NodeModel::Chunk(h) => h.ck_size as int,
            NodeModel::List(h, _) => h.list_size - 4,
        }
    }

    /// The padding behind a chunk's payload; a list has none.
    pub open spec fn padding(self) -> u32 {
        match self {
            NodeModel::Chunk(h) => padding_of(h.ck_size),
            NodeModel::List(_, _) => 0,
        }
    }

    /// A list's children; a chunk has none.
    pub open spec fn childs(self) -> Seq<NodeModel> {
        match self {
            NodeModel::Chunk(_) => Seq::empty(),
            NodeModel::List(_, kids) => kids,
        }
    }

    /// The offset just behind the node's data and padding.
    pub open spec fn end(self) -> int {
        self.data_pos() + self.data_size() + self.padding()
    }

    /// Every list in the node has a size field of at least 4.
    pub open spec fn wf(self) -> bool
        decreases self,
    {
        match self {
            NodeModel::Chunk(_) => true,
            NodeModel::List(h, kids) => h.wf() && forall|i: int|
                0 <= i < kids.len() ==> (#[trigger] kids[i]).wf(),
        }
    }

    /// The node was accepted in a region that starts at `pos`, in a source of
    /// `len` bytes: its header lies inside the source, and its declared size,
    /// laid out from the start of the region, stays short of the source's
    /// end. The same holds of all beneath it.
    pub open spec fn sound(self, pos: int, len: int) -> bool
        decreases self,
    {
        match self {
            NodeModel::Chunk(h) => pos + 8 <= h.data_pos <= len && pos + 8 + h.ck_size < len,
            NodeModel::List(h, kids) => {
                &&& h.wf()
                &&& pos + 12 <= h.data_pos <= len
                &&& pos + 8 + h.list_size < len
                &&& forall|i: int|
                    0 <= i < kids.len() ==> (#[trigger] kids[i]).sound(h.data_pos as int, len)
            },
        }
    }

    /// Every node beneath this one ends inside the list that holds it.
    pub open spec fn nested(self) -> bool
        decreases self,
    {
        match self {
            NodeModel::Chunk(_) => true,
            NodeModel::List(h, kids) => forall|i: int|
                0 <= i < kids.len() ==> (#[trigger] kids[i]).end() <= h.end() && kids[i].nested(),
        }
    }

    /// The node, and every node beneath it, ends at or before `bound`.
    pub open spec fn within(self, bound: int) -> bool
        decreases self,
    {
        match self {
            NodeModel::Chunk(h) => h.data_pos + h.ck_size <= bound && h.end() <= bound,
            NodeModel::List(h, kids) => h.end() <= bound && forall|i: int|
                0 <= i < kids.len() ==> (#[trigger] kids[i]).within(bound),
        }
    }
}

impl TreeModel {
    /// The offset just behind the space that the header declares.
    pub open spec fn end(self) -> int {
        self.header.file_size + 8
    }

    /// The tree is what a read accepts in a source of `len` bytes: the header
    /// declares at least its own type tag and no more than the source holds,
    /// and the nodes are sound in the top-level region.
    pub open spec fn sound(self, len: int) -> bool {
        &&& self.header.file_size >= 4
        &&& self.end() <= len
        &&& forall|i: int| 0 <= i < self.childs.len() ==> (#[trigger] self.childs[i]).sound(12, len)
    }

    /// Every list in the tree has a size field of at least 4.
    pub open spec fn wf(self) -> bool {
        forall|i: int| 0 <= i < self.childs.len() ==> (#[trigger] self.childs[i]).wf()
    }

    /// Every node ends inside what holds it: a list, or the container.
    pub open spec fn nested(self) -> bool {
        forall|i: int|
            0 <= i < self.childs.len() ==> (#[trigger] self.childs[i]).end() <= self.end()
                && self.childs[i].nested()
    }

    /// Every node ends at or before `bound`.
    pub open spec fn within(self, bound: int) -> bool {
        forall|i: int| 0 <= i < self.childs.len() ==> (#[trigger] self.childs[i]).within(bound)
    }
}

impl RiffChunk {
    /// The number of bytes that pad a payload of `ck_size` bytes: 1 where
    /// the size is odd, else 0.
    pub fn padding(ck_size: u32) -> (r: u32)
        ensures
            r == padding_of(ck_size),
            r == 0 || r == 1,
            r == 0 <==> ck_size % 2 == 0,
    {
        let m: u32 = ck_size % 2;
        if m != 0 {
            2 - m
        } else {
            0
        }
    }

    pub fn header(&self) -> (r: RiffChunkHeader)
        ensures
            r == self.header,
    {
        self.header
    }
}

impl RiffList {
    pub fn header(&self) -> (r: RiffListHeader)
        ensures
            r == self.header,
    {
        self.header
    }
}

impl RiffNode {
    /// A chunk's id, or a list's type (not the tag `"LIST"`).
    pub fn id(&self) -> (r: FourCC)
        ensures
            r == self@.id(),
    {
        match self {
            RiffNode::Chunk(c) => c.header.ck_id,
            RiffNode::List(l) => l.header.list_type,
        }
    }

    pub fn data_pos(&self) -> (r: u64)
        ensures
            r == self@.data_pos(),
    {
        match self {
            RiffNode::Chunk(c) => c.header.data_pos,
            RiffNode::List(l) => l.header.data_pos,
        }
    }

    pub fn data_size(&self) -> (r: u32)
        requires
            self@.wf(),
        ensures
            r == self@.data_size(),
    {
        match self {
            RiffNode::Chunk(c) => c.header.ck_size,
            RiffNode::List(l) => l.header.list_size - 4,
        }
    }

    pub fn padding(&self) -> (r: u32)
        ensures
            r == self@.padding(),
    {
        match self {
            RiffNode::Chunk(c) => RiffChunk::padding(c.header.ck_size),
            RiffNode::List(_) => 0,
        }
    }

    /// A list's children; the empty slice for a chunk.
    pub fn childs(&self) -> (r: &[RiffNode])
        ensures
            models_of(r@) == self@.childs(),
            self is Chunk ==> r@.len() == 0,
            self matches RiffNode::List(l) ==> r@ == l.childs@,
    {
        match self {
            RiffNode::Chunk(_) => {
                let none: &[RiffNode] = &[];
                assert(models_of(none@) =~= Seq::<NodeModel>::empty());
                none
            },
            RiffNode::List(l) => l.childs.as_slice(),
        }
    }

    /// The node as a chunk; `InvalidChunkCast` for a list.
    pub fn as_chunk(&self) -> (r: Result<&RiffChunk, RiffError>)
        ensures
            match self {
                RiffNode::Chunk(c) => r == Ok::<&RiffChunk, RiffError>(c),
                RiffNode::List(_) => r == Err::<&RiffChunk, RiffError>(RiffError::InvalidChunkCast),
            },
    {
        match self {
            RiffNode::Chunk(c) => Ok(c),
            RiffNode::List(_) => Err(RiffError::InvalidChunkCast),
        }
    }

    /// The node as a list; `InvalidListCast` for a chunk.
    pub fn as_list(&self) -> (r: Result<&RiffList, RiffError>)
        ensures
            match self {
                RiffNode::Chunk(_) => r == Err::<&RiffList, RiffError>(RiffError::InvalidListCast),
                RiffNode::List(l) => r == Ok::<&RiffList, RiffError>(l),
            },
    {
        match self {
            RiffNode::Chunk(_) => Err(RiffError::InvalidListCast),
            RiffNode::List(l) => Ok(l),
        }
    }
}

impl RiffTree {
    pub fn header(&self) -> (r: &RiffHeader)
        ensures
            *r == self.header,
    {
        &self.header
    }

    /// The top-level nodes, in file order.
    pub fn childs(&self) -> (r: &Vec<RiffNode>)
        ensures
            r@ == self.childs@,
    {
        &self.childs
    }
}

/// The tag stored at offset `at`.
pub open spec fn tag_at(data: Seq<u8>, at: int) -> FourCC {
    FourCC(BigEndian::word32_at(data, at) as u32)
}

/// The size field stored at offset `at`.
pub open spec fn size_at(data: Seq<u8>, at: int) -> u32 {
    LittleEndian::word32_at(data, at) as u32
}

/// Reading single fields of a RIFF source.
pub struct RiffUtil;

impl RiffUtil {
    /// The tag stored at `offset` of `data`; an early end where fewer than
    /// four bytes are left.
    pub fn read_fourcc(data: &[u8], offset: usize) -> (r: Result<FourCC, ReadError>)
        ensures
            r == if offset + 4 <= data@.len() {
                Ok::<FourCC, ReadError>(tag_at(data@, offset as int))
            } else {
                Err::<FourCC, ReadError>(ReadError::UnexpectedEof)
            },
    {
        if data.len() < 4 || offset > data.len() - 4 {
            return Err(ReadError::UnexpectedEof);
        }
        Ok(FourCC(BigEndian::read_u32(data, offset)))
    }
}

/// The nodes found from some offset to the end of a region, and how far
/// behind that offset the walk ended.
pub struct Walk {
    pub nodes: Seq<NodeModel>,
    pub advance: nat,
}

/// The number of bytes from `cursor` to the end of `data`.
pub open spec fn remaining(data: Seq<u8>, cursor: int) -> nat {
    if cursor < data.len() {
        (data.len() - cursor) as nat
    } else {
        0
    }
}

/// The nodes that `data` holds from `cursor` on, in the region that starts
/// at `pos` and ends before `end`.
///
/// A node's header is read while the cursor is inside the region. A chunk is
/// stepped over by its size and padding; a list is entered, and the walk goes
/// on behind the last node that its own region yields. A node is refused
/// where `pos + 8 + size` reaches the length of `data`: the offset in that
/// sum is the start of the region, not the node's own, and the comparison is
/// inclusive, so that a region's first node may not end with the source. A
/// list whose size field is below 4 cannot hold its own type tag and is
/// refused too.
pub open spec fn region_nodes(data: Seq<u8>, cursor: int, pos: int, end: int) -> Result<
    Walk,
    ReadError,
>
    decreases remaining(data, cursor),
{
    if cursor >= end {
        Ok(Walk { nodes: Seq::empty(), advance: 0 })
    } else if cursor + 8 > data.len() {
        Err(ReadError::UnexpectedEof)
    } else {
        let size = size_at(data, cursor + 4);
        if tag_at(data, cursor).0 == LIST_TYPE {
            if cursor + 12 > data.len() {
                Err(ReadError::UnexpectedEof)
            } else if size < 4 || pos + 8 + size >= data.len() {
                Err(ReadError::Riff(RiffError::InvalidListHeader))
            } else {
                let header = RiffListHeader {
                    list_type: tag_at(data, cursor + 8),
                    list_size: size,
                    data_pos: (cursor + 12) as u64,
                };
                match region_nodes(data, cursor + 12, cursor + 12, cursor + 12 + (size - 4)) {
                    Err(e) => Err(e),
                    Ok(inner) => {
                        let step = 12 + inner.advance;
                        match region_nodes(data, cursor + step, pos, end) {
                            Err(e) => Err(e),
                            Ok(rest) => Ok(
                                Walk {
                                    nodes: seq![NodeModel::List(header, inner.nodes)] + rest.nodes,
                                    advance: (step + rest.advance) as nat,
                                },
                            ),
                        }
                    },
                }
            }
        } else {
            if pos + 8 + size >= data.len() {
                Err(ReadError::Riff(RiffError::InvalidChunkHeader))
            } else {
                let header = RiffChunkHeader {
                    ck_id: tag_at(data, cursor),
                    ck_size: size,
                    data_pos: (cursor + 8) as u64,
                };
                let step = 8 + size + padding_of(size);
                match region_nodes(data, cursor + step, pos, end) {
                    Err(e) => Err(e),
                    Ok(rest) => Ok(
                        Walk {
                            nodes: seq![NodeModel::Chunk(header)] + rest.nodes,
                            advance: (step + rest.advance) as nat,
                        },
                    ),
                }
            }
        }
    }
}

/// The tree that `data` holds, or why it holds none.
///
/// The source opens with `"RIFF"`, a size and the file type. The size counts
/// everything behind it, the type included: it is at least 4 and, with the
/// eight bytes before it, no more than the source holds. The top-level
/// region starts behind the type and ends where the size says.
pub open spec fn riff_tree_of(data: Seq<u8>) -> Result<TreeModel, ReadError> {
    if data.len() < 12 {
        Err(ReadError::UnexpectedEof)
    } else {
        let size = size_at(data, 4);
        if tag_at(data, 0).0 != RIFF_TYPE || size < 4 || size + 8 > data.len() {
            Err(ReadError::Riff(RiffError::InvalidRiffHeader))
        } else {
            match region_nodes(data, 12, 12, size + 8) {
                Err(e) => Err(e),
                Ok(walk) => Ok(
                    TreeModel {
                        header: RiffHeader { file_size: size, file_type: tag_at(data, 8) },
                        childs: walk.nodes,
                    },
                ),
            }
        }
    }
}

/// What a walk of a region accepts is sound in that region.
pub proof fn lemma_region_nodes_sound(data: Seq<u8>, cursor: int, pos: int, end: int)
    requires
        0 <= pos <= cursor,
        data.len() <= u64::MAX,
    ensures
        region_nodes(data, cursor, pos, end) matches Ok(walk) ==> forall|i: int|
            0 <= i < walk.nodes.len() ==> (#[trigger] walk.nodes[i]).sound(pos, data.len() as int),
    decreases remaining(data, cursor),
{
    if cursor >= end {
    } else if cursor + 8 > data.len() {
    } else {
        let size = size_at(data, cursor + 4);
        if tag_at(data, cursor).0 == LIST_TYPE {
            if cursor + 12 > data.len() {
            } else if size < 4 || pos + 8 + size >= data.len() {
            } else {
                lemma_region_nodes_sound(data, cursor + 12, cursor + 12, cursor + 12 + (size - 4));
                match region_nodes(data, cursor + 12, cursor + 12, cursor + 12 + (size - 4)) {
                    Err(e) => {},
                    Ok(inner) => {
                        lemma_region_nodes_sound(data, cursor + 12 + inner.advance, pos, end);
                    },
                }
            }
        } else {
            if pos + 8 + size >= data.len() {
            } else {
                lemma_region_nodes_sound(data, cursor + 8 + size + padding_of(size), pos, end);
            }
        }
    }
}

/// Every tree that a source holds is sound in it.
pub proof fn lemma_tree_sound(data: Seq<u8>)
    requires
        data.len() <= u64::MAX,
    ensures
        riff_tree_of(data) matches Ok(tree) ==> tree.sound(data.len() as int),
{
    if data.len() >= 12 {
        lemma_region_nodes_sound(data, 12, 12, size_at(data, 4) + 8);
    }
}

/// A sound node has well-formed lists all the way down.
pub proof fn lemma_sound_is_wf(node: NodeModel, pos: int, len: int)
    requires
        node.sound(pos, len),
    ensures
        node.wf(),
    decreases node,
{
    match node {
        NodeModel::Chunk(_) => {},
        NodeModel::List(h, kids) => {
            assert forall|i: int| 0 <= i < kids.len() implies (#[trigger] kids[i]).wf() by {
                lemma_sound_is_wf(kids[i], h.data_pos as int, len);
            }
        },
    }
}

/// A sound tree has well-formed lists all the way down.
pub proof fn lemma_sound_tree_is_wf(tree: TreeModel, len: int)
    requires
        tree.sound(len),
    ensures
        tree.wf(),
{
    assert forall|i: int| 0 <= i < tree.childs.len() implies (#[trigger] tree.childs[i]).wf() by {
        lemma_sound_is_wf(tree.childs[i], 12, len);
    }
}

/// A node whose parts each end inside what holds them ends, with all its
/// parts, wherever the node itself ends.
pub proof fn lemma_nested_node_within(node: NodeModel, bound: int)
    requires
        node.wf(),
        node.nested(),
        node.end() <= bound,
    ensures
        node.within(bound),
    decreases node,
{
    match node {
        NodeModel::Chunk(_) => {},
        NodeModel::List(h, kids) => {
            assert forall|i: int| 0 <= i < kids.len() implies (#[trigger] kids[i]).within(
                bound,
            ) by {
                lemma_nested_node_within(kids[i], bound);
            }
        },
    }
}

/// In a tree that a source holds, and in which every node ends inside what
/// holds it, every chunk's payload and padding and every list's declared
/// space end inside the source.
pub proof fn lemma_nested_tree_within_source(data: Seq<u8>, tree: TreeModel)
    requires
        data.len() <= u64::MAX,
        riff_tree_of(data) == Ok::<TreeModel, ReadError>(tree),
        tree.nested(),
    ensures
        tree.within(data.len() as int),
{
    lemma_tree_sound(data);
    assert forall|i: int| 0 <= i < tree.childs.len() implies (#[trigger] tree.childs[i]).within(
        data.len() as int,
    ) by {
        lemma_sound_is_wf(tree.childs[i], 12, data.len() as int);
        lemma_nested_node_within(tree.childs[i], data.len() as int);
    }
}

} // verus!
