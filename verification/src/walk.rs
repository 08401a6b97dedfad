//! Reading a RIFF tree without doing the I/O.
//!
//! A [`RiffWalker`] never touches a source. It says which bytes it needs
//! next ([`RiffWalker::pending`]), takes them ([`RiffWalker::feed`]) and, when
//! it needs no more, hands out the tree ([`RiffWalker::finish`]). Whoever
//! drives it does the seeking and reading, blocking or not; the tree depends
//! on the bytes alone. [`RiffTree::read`] drives a walker over a buffer in
//! memory.

use crate::bytes::{BigEndian, LittleEndian};
use crate::error::ReadError;
use crate::fourcc::FourCC;
use crate::riff::{
    lemma_sound_tree_is_wf, lemma_tree_sound, models_of, padding_of, region_nodes, riff_tree_of, size_at, tag_at, NodeModel, RiffChunk,
    RiffChunkHeader, RiffError, RiffHeader, RiffList, RiffListHeader, RiffNode, RiffTree,
    TreeModel, LIST_TYPE, RIFF_TYPE,
};
use vstd::prelude::*;
use vstd::slice::slice_subrange;

verus! {

/// A run of bytes of the source.
#[derive(Clone, Copy, Debug, PartialEq, Eq, Structural)]
pub struct ReadRequest {
    pub offset: u64,
    pub len: u64,
}

impl ReadRequest {
    /// The bytes of `data` that the request names.
    pub open spec fn of(self, data: Seq<u8>) -> Seq<u8> {
        data.subrange(self.offset as int, self.offset + self.len)
    }
}

/// What a walker is waiting for.
#[derive(Clone, Copy)]
enum WalkPhase {
    /// The twelve bytes that open the container.
    Header,
    /// The header of the node at the cursor.
    Node,
    Done,
    Failed(ReadError),
}

/// A list that is being read, or the container itself, which is read as a
/// list whose type is the file type.
struct Frame {
    header: RiffListHeader,
    nodes: Vec<RiffNode>,
}

/// A frame as a mathematical value.
pub struct FrameModel {
    pub header: RiffListHeader,
    pub nodes: Seq<NodeModel>,
}

impl View for Frame {
    type V = FrameModel;

    closed spec fn view(&self) -> FrameModel {
        FrameModel { header: self.header, nodes: models_of(self.nodes@) }
    }
}

/// The state of a walk over a source of known length.
pub struct RiffWalker {
    file_len: u64,
    phase: WalkPhase,
    /// The offset of the node header that is awaited.
    cursor: u64,
    /// The lists that are open, outermost first.
    frames: Vec<Frame>,
}

/// The models of the frames.
spec fn frames_of(frames: Seq<Frame>) -> Seq<FrameModel> {
    Seq::new(frames.len(), |i: int| frames[i]@)
}

/// The container's header, kept as the header of the outermost frame.
spec fn header_of(h: RiffListHeader) -> RiffHeader {
    RiffHeader { file_size: h.list_size, file_type: h.list_type }
}

/// The top-level nodes that the walk will end with, when it goes on at
/// `cursor` inside the innermost frame.
#[verifier::opaque]
spec fn resume(data: Seq<u8>, frames: Seq<FrameModel>, cursor: int) -> Result<
    Seq<NodeModel>,
    ReadError,
>
    decreases frames.len(), 1int,
{
    if frames.len() == 0 {
        Err(ReadError::UnexpectedEof)
    } else {
        let top = frames.last();
        match region_nodes(data, cursor, top.header.data_pos as int, top.header.end()) {
            Err(e) => Err(e),
            Ok(walk) => close(data, frames, top.nodes + walk.nodes, cursor + walk.advance),
        }
    }
}

/// The top-level nodes that the walk will end with, when the innermost
/// frame is complete with `nodes` and the cursor stands at `cursor`.
spec fn close(data: Seq<u8>, frames: Seq<FrameModel>, nodes: Seq<NodeModel>, cursor: int) -> Result<
    Seq<NodeModel>,
    ReadError,
>
    decreases frames.len(), 0int,
{
    if frames.len() <= 1 {
        Ok(nodes)
    } else {
        resume(data, attach(frames, nodes), cursor)
    }
}

/// The frames without the innermost, which has become a node of the one
/// that held it.
spec fn attach(frames: Seq<FrameModel>, nodes: Seq<NodeModel>) -> Seq<FrameModel>
    recommends
        frames.len() >= 2,
{
    let below = frames.drop_last();
    let parent = below.last();
    below.drop_last().push(
        FrameModel {
            header: parent.header,
            nodes: parent.nodes.push(NodeModel::List(frames.last().header, nodes)),
        },
    )
}

/// The frames with one more node in the innermost.
spec fn grow(frames: Seq<FrameModel>, node: NodeModel) -> Seq<FrameModel>
    recommends
        frames.len() >= 1,
{
    frames.drop_last().push(
        FrameModel { header: frames.last().header, nodes: frames.last().nodes.push(node) },
    )
}

/// The tree made of a header and the outcome of a walk.
spec fn tree_with(header: RiffHeader, nodes: Result<Seq<NodeModel>, ReadError>) -> Result<
    TreeModel,
    ReadError,
> {
    match nodes {
        Err(e) => Err(e),
        Ok(childs) => Ok(TreeModel { header, childs }),
    }
}

/// What `resume` says, one step unfolded.
proof fn lemma_resume_unfold(data: Seq<u8>, frames: Seq<FrameModel>, cursor: int)
    requires
        frames.len() >= 1,
    ensures
        resume(data, frames, cursor) == match region_nodes(
            data,
            cursor,
            frames.last().header.data_pos as int,
            frames.last().header.end(),
        ) {
            Err(e) => Err::<Seq<NodeModel>, ReadError>(e),
            Ok(walk) => close(
                data,
                frames,
                frames.last().nodes + walk.nodes,
                cursor + walk.advance,
            ),
        },
{
    reveal(resume);
}

/// A walk that stands at or behind the end of the innermost frame goes on
/// in the frame that holds it.
proof fn lemma_resume_at_end(data: Seq<u8>, frames: Seq<FrameModel>, cursor: int)
    requires
        frames.len() >= 1,
        cursor >= frames.last().header.end(),
    ensures
        frames.len() == 1 ==> resume(data, frames, cursor) == Ok::<Seq<NodeModel>, ReadError>(
            frames.last().nodes,
        ),
        frames.len() > 1 ==> resume(data, frames, cursor) == resume(
            data,
            attach(frames, frames.last().nodes),
            cursor,
        ),
{
    reveal(resume);
    let top = frames.last();
    assert(top.nodes + Seq::<NodeModel>::empty() =~= top.nodes);
}

/// A walk that needs a node header where the source has none fails.
proof fn lemma_resume_at_eof(data: Seq<u8>, frames: Seq<FrameModel>, cursor: int)
    requires
        frames.len() >= 1,
        cursor < frames.last().header.end(),
        cursor + 8 > data.len(),
    ensures
        resume(data, frames, cursor) == Err::<Seq<NodeModel>, ReadError>(ReadError::UnexpectedEof),
{
    reveal(resume);
}

/// A walk that steps over a chunk goes on behind it, with the chunk among
/// the nodes of the innermost frame.
proof fn lemma_resume_over_chunk(data: Seq<u8>, frames: Seq<FrameModel>, cursor: int)
    requires
        frames.len() >= 1,
        cursor < frames.last().header.end(),
        cursor + 8 <= data.len(),
        tag_at(data, cursor).0 != LIST_TYPE,
        frames.last().header.data_pos + 8 + size_at(data, cursor + 4) < data.len(),
    ensures
        resume(data, frames, cursor) == resume(
            data,
            grow(
                frames,
                NodeModel::Chunk(
                    RiffChunkHeader {
                        ck_id: tag_at(data, cursor),
                        ck_size: size_at(data, cursor + 4),
                        data_pos: (cursor + 8) as u64,
                    },
                ),
            ),
            cursor + 8 + size_at(data, cursor + 4) + padding_of(size_at(data, cursor + 4)),
        ),
{
    reveal(resume);
    let top = frames.last();
    let size = size_at(data, cursor + 4);
    let node = NodeModel::Chunk(
        RiffChunkHeader { ck_id: tag_at(data, cursor), ck_size: size, data_pos: (cursor + 8) as u64 },
    );
    let next = cursor + 8 + size + padding_of(size);
    let grown = grow(frames, node);
    assert(grown.last().header == top.header);
    assert(grown.len() == frames.len());
    match region_nodes(data, next, top.header.data_pos as int, top.header.end()) {
        Err(e) => {},
        Ok(rest) => {
            assert(top.nodes + (seq![node] + rest.nodes) =~= top.nodes.push(node) + rest.nodes);
            if frames.len() > 1 {
                assert(attach(frames, top.nodes.push(node) + rest.nodes) =~= attach(
                    grown,
                    top.nodes.push(node) + rest.nodes,
                )) by {
                    assert(grown.drop_last() =~= frames.drop_last());
                }
            }
        },
    }
}

/// A walk that enters a list goes on at the list's first child, with the
/// list as the innermost frame.
proof fn lemma_resume_into_list(data: Seq<u8>, frames: Seq<FrameModel>, cursor: int)
    requires
        frames.len() >= 1,
        cursor < frames.last().header.end(),
        cursor + 12 <= data.len(),
        tag_at(data, cursor).0 == LIST_TYPE,
        size_at(data, cursor + 4) >= 4,
        frames.last().header.data_pos + 8 + size_at(data, cursor + 4) < data.len(),
        0 <= cursor,
        cursor + 12 <= u64::MAX,
    ensures
        resume(data, frames, cursor) == resume(
            data,
            frames.push(
                FrameModel {
                    header: RiffListHeader {
                        list_type: tag_at(data, cursor + 8),
                        list_size: size_at(data, cursor + 4),
                        data_pos: (cursor + 12) as u64,
                    },
                    nodes: Seq::empty(),
                },
            ),
            cursor + 12,
        ),
{
    reveal(resume);
    let top = frames.last();
    let size = size_at(data, cursor + 4);
    let header = RiffListHeader {
        list_type: tag_at(data, cursor + 8),
        list_size: size,
        data_pos: (cursor + 12) as u64,
    };
    let opened = frames.push(FrameModel { header, nodes: Seq::empty() });
    assert(header.end() == cursor + 12 + (size - 4));
    match region_nodes(data, cursor + 12, cursor + 12, cursor + 12 + (size - 4)) {
        Err(e) => {},
        Ok(inner) => {
            assert(Seq::<NodeModel>::empty() + inner.nodes =~= inner.nodes);
            let node = NodeModel::List(header, inner.nodes);
            let after = cursor + 12 + inner.advance;
            assert(opened.drop_last() =~= frames);
            assert(attach(opened, inner.nodes) =~= grow(frames, node));
            let grown = grow(frames, node);
            assert(grown.last().header == top.header);
            lemma_resume_unfold(data, grown, after);
            match region_nodes(data, after, top.header.data_pos as int, top.header.end()) {
                Err(e) => {},
                Ok(rest) => {
                    assert(top.nodes + (seq![node] + rest.nodes) =~= top.nodes.push(node)
                        + rest.nodes);
                    if frames.len() > 1 {
                        assert(attach(frames, top.nodes.push(node) + rest.nodes) =~= attach(
                            grown,
                            top.nodes.push(node) + rest.nodes,
                        )) by {
                            assert(grown.drop_last() =~= frames.drop_last());
                        }
                    }
                },
            }
        },
    }
}

/// The models of a vector of nodes with one more node.
proof fn lemma_models_push(nodes: Seq<RiffNode>, node: RiffNode)
    ensures
        models_of(nodes.push(node)) == models_of(nodes).push(node@),
{
    assert(models_of(nodes.push(node)) =~= models_of(nodes).push(node@));
}

/// The frames after a node has been pushed onto the innermost.
proof fn lemma_frames_grown(old_frames: Seq<Frame>, new_frames: Seq<Frame>, node: RiffNode)
    requires
        old_frames.len() >= 1,
        new_frames.len() == old_frames.len(),
        new_frames.drop_last() == old_frames.drop_last(),
        new_frames.last().header == old_frames.last().header,
        new_frames.last().nodes@ == old_frames.last().nodes@.push(node),
    ensures
        frames_of(new_frames) == grow(frames_of(old_frames), node@),
{
    lemma_models_push(old_frames.last().nodes@, node);
    assert(forall|i: int|
        0 <= i < old_frames.len() - 1 ==> new_frames[i] == new_frames.drop_last()[i]
            && old_frames[i] == old_frames.drop_last()[i]);
    assert(frames_of(new_frames) =~= grow(frames_of(old_frames), node@));
}

/// A walk of the top-level region alone ends with that region's nodes.
proof fn lemma_resume_root(data: Seq<u8>, header: RiffListHeader, cursor: int)
    ensures
        resume(data, seq![FrameModel { header, nodes: Seq::empty() }], cursor) == match region_nodes(
            data,
            cursor,
            header.data_pos as int,
            header.end(),
        ) {
            Err(e) => Err::<Seq<NodeModel>, ReadError>(e),
            Ok(walk) => Ok(walk.nodes),
        },
{
    reveal(resume);
    match region_nodes(data, cursor, header.data_pos as int, header.end()) {
        Err(e) => {},
        Ok(walk) => {
            assert(Seq::<NodeModel>::empty() + walk.nodes =~= walk.nodes);
        },
    }
}

/// The words of a window are the words of the source at the window's place.
proof fn lemma_window(data: Seq<u8>, bytes: Seq<u8>, offset: int, k: int)
    requires
        0 <= offset,
        offset + bytes.len() <= data.len(),
        bytes == data.subrange(offset, offset + bytes.len()),
        0 <= k,
        k + 4 <= bytes.len(),
    ensures
        BigEndian::word32_at(bytes, k) == BigEndian::word32_at(data, offset + k),
        LittleEndian::word32_at(bytes, k) == LittleEndian::word32_at(data, offset + k),
        0 <= BigEndian::word32_at(bytes, k) <= u32::MAX,
        0 <= LittleEndian::word32_at(bytes, k) <= u32::MAX,
{
    assert(bytes[k] == data[offset + k]);
    assert(bytes[k + 1] == data[offset + k + 1]);
    assert(bytes[k + 2] == data[offset + k + 2]);
    assert(bytes[k + 3] == data[offset + k + 3]);
}

/// The frames after the innermost has been closed and pushed, as a list,
/// onto the one that held it.
proof fn lemma_frames_attached(before: Seq<Frame>, after: Seq<Frame>, node: RiffNode)
    requires
        before.len() >= 2,
        after.len() == before.len() - 1,
        forall|i: int| 0 <= i < after.len() - 1 ==> after[i] == before[i],
        after.last().header == before[before.len() - 2].header,
        after.last().nodes@ == before[before.len() - 2].nodes@.push(node),
        node == RiffNode::List(
            RiffList { header: before.last().header, childs: before.last().nodes },
        ),
    ensures
        frames_of(after) == attach(frames_of(before), frames_of(before).last().nodes),
        forall|i: int| 0 <= i < after.len() ==> (#[trigger] after[i]).header == before[i].header,
{
    lemma_models_push(before[before.len() - 2].nodes@, node);
    assert(frames_of(after) =~= attach(frames_of(before), frames_of(before).last().nodes));
}

/// The list can hold its own type tag, and so can every list among the
/// nodes that it has so far.
spec fn frame_wf(f: Frame) -> bool {
    &&& f.header.wf()
    &&& forall|k: int| 0 <= k < f.nodes@.len() ==> (#[trigger] f.nodes@[k])@.wf()
}

impl RiffWalker {
    /// The length of the source that the walker was made for.
    pub closed spec fn source_len(&self) -> nat {
        self.file_len as nat
    }

    /// Every open list can hold its own type tag.
    spec fn frames_wf(&self) -> bool {
        forall|i: int| 0 <= i < self.frames@.len() ==> frame_wf(#[trigger] self.frames@[i])
    }

    /// The state is one that a walk can reach.
    pub closed spec fn wf(&self) -> bool {
        match self.phase {
            WalkPhase::Header => self.file_len >= 12 && self.frames@.len() == 0,
            WalkPhase::Node => {
                &&& self.frames@.len() >= 1
                &&& self.frames_wf()
                &&& self.cursor >= 12
                &&& self.cursor + 8 <= self.file_len
                &&& self.cursor < self.frames@.last().header.end()
            },
            WalkPhase::Done => self.frames@.len() == 1 && self.frames_wf(),
            WalkPhase::Failed(_) => true,
        }
    }

    /// The bytes that the walker waits for; `None` when the walk is over.
    pub closed spec fn wanted(&self) -> Option<ReadRequest> {
        match self.phase {
            WalkPhase::Header => Some(ReadRequest { offset: 0, len: 12 }),
            WalkPhase::Node => Some(
                ReadRequest {
                    offset: self.cursor,
                    len: if self.file_len - self.cursor < 12 {
                        (self.file_len - self.cursor) as u64
                    } else {
                        12
                    },
                },
            ),
            _ => None,
        }
    }

    /// The error that ended the walk, if one did.
    pub closed spec fn failure(&self) -> Option<ReadError> {
        match self.phase {
            WalkPhase::Failed(e) => Some(e),
            _ => None,
        }
    }

    /// What the walk ends with when every request is answered from `data`.
    pub closed spec fn outcome(&self, data: Seq<u8>) -> Result<TreeModel, ReadError> {
        match self.phase {
            WalkPhase::Header => riff_tree_of(data),
            WalkPhase::Node => tree_with(
                header_of(self.frames@[0].header),
                resume(data, frames_of(self.frames@), self.cursor as int),
            ),
            WalkPhase::Done => Ok(
                TreeModel {
                    header: header_of(self.frames@[0].header),
                    childs: models_of(self.frames@[0].nodes@),
                },
            ),
            WalkPhase::Failed(e) => Err(e),
        }
    }

    /// `bytes` is what a source that holds `data` gives for the pending
    /// request.
    pub open spec fn answered(&self, data: Seq<u8>, bytes: Seq<u8>) -> bool {
        &&& data.len() == self.source_len()
        &&& self.wanted() matches Some(q)
        &&& q.of(data) == bytes
    }

    /// A walker for a source of `file_len` bytes. A walk of any source of
    /// that length ends with the tree that the source holds.
    pub fn new(file_len: u64) -> (w: RiffWalker)
        ensures
            w.wf(),
            w.source_len() == file_len,
            w.wanted() == if file_len < 12 {
                None
            } else {
                Some(ReadRequest { offset: 0, len: 12 })
            },
            forall|data: Seq<u8>|
                data.len() == file_len ==> #[trigger] w.outcome(data) == riff_tree_of(data),
    {
        let phase = if file_len < 12 {
            WalkPhase::Failed(ReadError::UnexpectedEof)
        } else {
            WalkPhase::Header
        };
        RiffWalker { file_len, phase, cursor: 0, frames: Vec::new() }
    }

    /// The bytes to read next, or `None` when the walk is over. A request
    /// never reaches past the end of the source.
    pub fn pending(&self) -> (r: Option<ReadRequest>)
        requires
            self.wf(),
        ensures
            r == self.wanted(),
            r matches Some(q) ==> 8 <= q.len <= 12 && q.offset + q.len <= self.source_len() && (
            q.len < 12 ==> q.offset + q.len == self.source_len()),
    {
        match self.phase {
            WalkPhase::Header => Some(ReadRequest { offset: 0, len: 12 }),
            WalkPhase::Node => {
                let left: u64 = self.file_len - self.cursor;
                Some(ReadRequest { offset: self.cursor, len: if left < 12 { left } else { 12 } })
            },
            _ => None,
        }
    }

    /// Closes the lists that end at or before `next`, then waits for the
    /// node header at `next`, or ends the walk.
    fn settle(&mut self, next: u128) -> (r: Result<(), ReadError>)
        requires
            old(self).frames@.len() >= 1,
            old(self).frames_wf(),
            next >= 12,
        ensures
            final(self).wf(),
            final(self).file_len == old(self).file_len,
            forall|data: Seq<u8>|
                data.len() == old(self).file_len ==> #[trigger] final(self).outcome(data)
                    == tree_with(
                    header_of(old(self).frames@[0].header),
                    resume(data, frames_of(old(self).frames@), next as int),
                ),
            r matches Err(e) ==> final(self).failure() == Some(e),
            r is Ok ==> final(self).failure() is None && (final(self).wanted() matches Some(q)
                ==> q.offset == next),
    {
        let ghost start = frames_of(self.frames@);
        let ghost root = self.frames@[0].header;
        loop
            invariant
                self.frames@.len() >= 1,
                self.frames_wf(),
                self.file_len == old(self).file_len,
                self.frames@[0].header == root,
                root == old(self).frames@[0].header,
                start == frames_of(old(self).frames@),
                next >= 12,
                forall|data: Seq<u8>|
                    data.len() == self.file_len ==> #[trigger] resume(
                        data,
                        frames_of(self.frames@),
                        next as int,
                    ) == resume(data, start, next as int),
            decreases self.frames@.len(),
        {
            let n = self.frames.len();
            let ghost before = self.frames@;
            let ghost here = frames_of(before);
            let top_header = self.frames[n - 1].header;
            assert(frame_wf(self.frames@[n - 1]));
            assert(here.last().header == top_header);
            let end: u128 = (top_header.data_pos as u128) + (top_header.list_size as u128) - 4;
            if next < end {
                if next + 8 > self.file_len as u128 {
                    self.phase = WalkPhase::Failed(ReadError::UnexpectedEof);
                    proof {
                        assert forall|data: Seq<u8>|
                            data.len() == self.file_len implies #[trigger] self.outcome(data)
                            == tree_with(header_of(root), resume(data, start, next as int)) by {
                            assert(resume(data, here, next as int) == resume(
                                data,
                                start,
                                next as int,
                            ));
                            lemma_resume_at_eof(data, here, next as int);
                        }
                    }
                    return Err(ReadError::UnexpectedEof);
                }
                self.cursor = next as u64;
                self.phase = WalkPhase::Node;
                proof {
                    assert forall|data: Seq<u8>|
                        data.len() == self.file_len implies #[trigger] self.outcome(data)
                        == tree_with(header_of(root), resume(data, start, next as int)) by {
                        assert(resume(data, here, next as int) == resume(
                            data,
                            start,
                            next as int,
                        ));
                    }
                }
                return Ok(());
            }
            if n == 1 {
                self.phase = WalkPhase::Done;
                proof {
                    assert forall|data: Seq<u8>|
                        data.len() == self.file_len implies #[trigger] self.outcome(data)
                        == tree_with(header_of(root), resume(data, start, next as int)) by {
                        assert(resume(data, here, next as int) == resume(
                            data,
                            start,
                            next as int,
                        ));
                        lemma_resume_at_end(data, here, next as int);
                        assert(here.last().nodes == models_of(before[0].nodes@));
                    }
                }
                return Ok(());
            }
            self.close_top();
            proof {
                assert forall|data: Seq<u8>| data.len() == self.file_len implies #[trigger] resume(
                    data,
                    frames_of(self.frames@),
                    next as int,
                ) == resume(data, start, next as int) by {
                    assert(resume(data, here, next as int) == resume(data, start, next as int));
                    lemma_resume_at_end(data, here, next as int);
                }
            }
        }
    }

    /// Makes the innermost frame a list in the frame that holds it.
    fn close_top(&mut self)
        requires
            old(self).frames@.len() >= 2,
            old(self).frames_wf(),
        ensures
            final(self).frames@.len() == old(self).frames@.len() - 1,
            final(self).frames_wf(),
            final(self).frames@[0].header == old(self).frames@[0].header,
            final(self).file_len == old(self).file_len,
            frames_of(final(self).frames@) == attach(
                frames_of(old(self).frames@),
                frames_of(old(self).frames@).last().nodes,
            ),
    {
        let ghost before = self.frames@;
        let top = self.frames.pop().unwrap();
        let mut parent = self.frames.pop().unwrap();
        let node = RiffNode::List(RiffList { header: top.header, childs: top.nodes });
        parent.nodes.push(node);
        self.frames.push(parent);
        proof {
            lemma_frames_attached(before, self.frames@, node);
            assert forall|i: int| 0 <= i < self.frames@.len() implies frame_wf(
                #[trigger] self.frames@[i],
            ) by {
                assert(frame_wf(before[i]));
                assert(frame_wf(before.last()));
                if i == self.frames@.len() - 1 {
                    let f = self.frames@[i];
                    assert forall|k: int| 0 <= k < f.nodes@.len() implies (
                    #[trigger] f.nodes@[k])@.wf() by {
                        if k < before[i].nodes@.len() {
                            assert(f.nodes@[k] == before[i].nodes@[k]);
                        } else {
                            assert(f.nodes@[k] == node);
                            assert forall|j: int|
                                0 <= j < node@.childs().len() implies (
                            #[trigger] node@.childs()[j]).wf() by {
                                assert(node@.childs()[j] == before.last().nodes@[j]@);
                            }
                        }
                    }
                } else {
                    assert(self.frames@[i] == before[i]);
                }
            }
        }
    }

    /// A walk that has failed ends with the error, whatever the source.
    pub proof fn lemma_failure_is_outcome(&self, data: Seq<u8>)
        ensures
            self.failure() matches Some(e) ==> self.outcome(data) == Err::<TreeModel, ReadError>(e),
    {
    }

    /// A walk that needs no more bytes has its outcome, whatever the source
    /// holds elsewhere: two drivers that fed the same bytes end alike.
    pub proof fn lemma_finished_outcome_is_fixed(&self, data: Seq<u8>, other: Seq<u8>)
        requires
            self.wanted() is None,
        ensures
            self.outcome(data) == self.outcome(other),
    {
    }

    /// Takes the first twelve bytes of the source.
    fn feed_header(&mut self, bytes: &[u8]) -> (r: Result<(), ReadError>)
        requires
            old(self).wf(),
            old(self).phase is Header,
            bytes@.len() == 12,
        ensures
            final(self).wf(),
            final(self).file_len == old(self).file_len,
            forall|data: Seq<u8>|
                old(self).answered(data, bytes@) ==> #[trigger] final(self).outcome(data) == old(
                    self,
                ).outcome(data),
            r matches Err(e) ==> final(self).failure() == Some(e),
            r is Ok ==> final(self).failure() is None,
            final(self).wanted() matches Some(q) ==> q.offset > 0,
    {
        let riff = BigEndian::read_u32(bytes, 0);
        let size = LittleEndian::read_u32(bytes, 4);
        let file_type = BigEndian::read_u32(bytes, 8);
        proof {
            assert forall|data: Seq<u8>| old(self).answered(data, bytes@) implies tag_at(data, 0).0
                == riff && size_at(data, 4) == size && tag_at(data, 8).0 == file_type by {
                lemma_window(data, bytes@, 0, 0);
                lemma_window(data, bytes@, 0, 4);
                lemma_window(data, bytes@, 0, 8);
            }
        }
        if riff != RIFF_TYPE || size < 4 || size as u64 + 8 > self.file_len {
            let e = ReadError::Riff(RiffError::InvalidRiffHeader);
            self.phase = WalkPhase::Failed(e);
            return Err(e);
        }
        let header = RiffListHeader { list_type: FourCC(file_type), list_size: size, data_pos: 12 };
        self.frames.push(Frame { header, nodes: Vec::new() });
        proof {
            assert(models_of(Seq::<RiffNode>::empty()) =~= Seq::<NodeModel>::empty());
            assert(frames_of(self.frames@) =~= seq![
                FrameModel { header, nodes: Seq::empty() },
            ]);
        }
        let r = self.settle(12);
        proof {
            assert forall|data: Seq<u8>| old(self).answered(data, bytes@) implies #[trigger] self.outcome(
                data,
            ) == old(self).outcome(data) by {
                assert(tag_at(data, 0).0 == riff && size_at(data, 4) == size && tag_at(data, 8).0
                    == file_type);
                lemma_resume_root(data, header, 12);
            }
        }
        r
    }

    /// Takes the header of the node at the cursor.
    fn feed_node(&mut self, bytes: &[u8]) -> (r: Result<(), ReadError>)
        requires
            old(self).wf(),
            old(self).phase is Node,
            old(self).wanted() matches Some(q) && bytes@.len() == q.len,
        ensures
            final(self).wf(),
            final(self).file_len == old(self).file_len,
            forall|data: Seq<u8>|
                old(self).answered(data, bytes@) ==> #[trigger] final(self).outcome(data) == old(
                    self,
                ).outcome(data),
            r matches Err(e) ==> final(self).failure() == Some(e),
            r is Ok ==> final(self).failure() is None,
            final(self).wanted() matches Some(q) ==> q.offset > old(self).cursor,
    {
        let cursor = self.cursor;
        let id = BigEndian::read_u32(bytes, 0);
        let size = LittleEndian::read_u32(bytes, 4);
        let n = self.frames.len();
        let ghost before = self.frames@;
        let ghost here = frames_of(before);
        let ghost root = before[0].header;
        let pos = self.frames[n - 1].header.data_pos;
        assert(here.last().header == before[n - 1].header);
        let reach: u128 = pos as u128 + 8 + size as u128;
        proof {
            assert forall|data: Seq<u8>| old(self).answered(data, bytes@) implies tag_at(
                data,
                cursor as int,
            ).0 == id && size_at(data, cursor + 4) == size by {
                lemma_window(data, bytes@, cursor as int, 0);
                lemma_window(data, bytes@, cursor as int, 4);
            }
        }
        if id == LIST_TYPE {
            if bytes.len() < 12 {
                let e = ReadError::UnexpectedEof;
                self.phase = WalkPhase::Failed(e);
                proof {
                    assert forall|data: Seq<u8>|
                        old(self).answered(data, bytes@) implies #[trigger] self.outcome(data)
                        == old(self).outcome(data) by {
                        assert(tag_at(data, cursor as int).0 == id);
                        reveal(resume);
                    }
                }
                return Err(e);
            }
            if size < 4 || reach >= self.file_len as u128 {
                let e = ReadError::Riff(RiffError::InvalidListHeader);
                self.phase = WalkPhase::Failed(e);
                proof {
                    assert forall|data: Seq<u8>|
                        old(self).answered(data, bytes@) implies #[trigger] self.outcome(data)
                        == old(self).outcome(data) by {
                        assert(tag_at(data, cursor as int).0 == id && size_at(data, cursor + 4)
                            == size);
                        reveal(resume);
                    }
                }
                return Err(e);
            }
            let list_type = BigEndian::read_u32(bytes, 8);
            let header = RiffListHeader {
                list_type: FourCC(list_type),
                list_size: size,
                data_pos: cursor + 12,
            };
            self.frames.push(Frame { header, nodes: Vec::new() });
            proof {
                assert(models_of(Seq::<RiffNode>::empty()) =~= Seq::<NodeModel>::empty());
                assert(frames_of(self.frames@) =~= here.push(
                    FrameModel { header, nodes: Seq::empty() },
                ));
                assert forall|i: int| 0 <= i < self.frames@.len() implies frame_wf(
                    #[trigger] self.frames@[i],
                ) by {
                    if i < n {
                        assert(frame_wf(before[i]));
                        assert(self.frames@[i] == before[i]);
                    }
                }
            }
            let r = self.settle(cursor as u128 + 12);
            proof {
                assert forall|data: Seq<u8>|
                    old(self).answered(data, bytes@) implies #[trigger] self.outcome(data) == old(
                    self,
                ).outcome(data) by {
                    assert(tag_at(data, cursor as int).0 == id && size_at(data, cursor + 4)
                        == size);
                    lemma_window(data, bytes@, cursor as int, 8);
                    lemma_resume_into_list(data, here, cursor as int);
                }
            }
            r
        } else {
            if reach >= self.file_len as u128 {
                let e = ReadError::Riff(RiffError::InvalidChunkHeader);
                self.phase = WalkPhase::Failed(e);
                proof {
                    assert forall|data: Seq<u8>|
                        old(self).answered(data, bytes@) implies #[trigger] self.outcome(data)
                        == old(self).outcome(data) by {
                        assert(tag_at(data, cursor as int).0 == id && size_at(data, cursor + 4)
                            == size);
                        reveal(resume);
                    }
                }
                return Err(e);
            }
            let header = RiffChunkHeader { ck_id: FourCC(id), ck_size: size, data_pos: cursor + 8 };
            let node = RiffNode::Chunk(RiffChunk { header });
            let mut top = self.frames.pop().unwrap();
            top.nodes.push(node);
            self.frames.push(top);
            proof {
                assert(self.frames@.drop_last() =~= before.drop_last());
                lemma_frames_grown(before, self.frames@, node);
                assert forall|i: int| 0 <= i < self.frames@.len() implies frame_wf(
                    #[trigger] self.frames@[i],
                ) by {
                    assert(frame_wf(before[i]));
                    if i == n - 1 {
                        let f = self.frames@[i];
                        assert forall|k: int| 0 <= k < f.nodes@.len() implies (
                        #[trigger] f.nodes@[k])@.wf() by {
                            if k < before[i].nodes@.len() {
                                assert(f.nodes@[k] == before[i].nodes@[k]);
                            }
                        }
                    } else {
                        assert(self.frames@[i] == self.frames@.drop_last()[i]);
                        assert(before[i] == before.drop_last()[i]);
                    }
                }
            }
            let next: u128 = cursor as u128 + 8 + size as u128 + RiffChunk::padding(size) as u128;
            let r = self.settle(next);
            proof {
                assert forall|data: Seq<u8>|
                    old(self).answered(data, bytes@) implies #[trigger] self.outcome(data) == old(
                    self,
                ).outcome(data) by {
                    assert(tag_at(data, cursor as int).0 == id && size_at(data, cursor + 4)
                        == size);
                    lemma_resume_over_chunk(data, here, cursor as int);
                }
            }
            r
        }
    }

    /// Takes the bytes of the pending request and moves on. Where the
    /// bytes are those of a source, the walk still ends with what it would
    /// have ended with; an error ends it at once.
    pub fn feed(&mut self, bytes: &[u8]) -> (r: Result<(), ReadError>)
        requires
            old(self).wf(),
            old(self).wanted() matches Some(q) && bytes@.len() == q.len,
        ensures
            final(self).wf(),
            final(self).source_len() == old(self).source_len(),
            forall|data: Seq<u8>|
                old(self).answered(data, bytes@) ==> #[trigger] final(self).outcome(data) == old(
                    self,
                ).outcome(data),
            r matches Err(e) ==> final(self).failure() == Some(e) && final(self).wanted() is None,
            r is Ok ==> final(self).failure() is None,
            final(self).wanted() matches Some(q) ==> q.offset > old(self).wanted()->0.offset,
    {
        match self.phase {
            WalkPhase::Header => self.feed_header(bytes),
            WalkPhase::Node => self.feed_node(bytes),
            _ => Ok(()),
        }
    }

    /// The tree, once the walker needs no more bytes, or the error that
    /// ended the walk.
    pub fn finish(self) -> (r: Result<RiffTree, ReadError>)
        requires
            self.wf(),
            self.wanted() is None,
        ensures
            forall|data: Seq<u8>|
                #[trigger] self.outcome(data) == match r {
                    Ok(t) => Ok::<TreeModel, ReadError>(t@),
                    Err(e) => Err::<TreeModel, ReadError>(e),
                },
            r matches Err(e) ==> self.failure() == Some(e),
            r matches Ok(t) ==> self.failure() is None && t@.wf(),
    {
        match self.phase {
            WalkPhase::Failed(e) => Err(e),
            WalkPhase::Done => {
                let mut frames = self.frames;
                assert(frame_wf(frames@[0]));
                let root = frames.pop().unwrap();
                Ok(
                    RiffTree {
                        header: RiffHeader {
                            file_size: root.header.list_size,
                            file_type: root.header.list_type,
                        },
                        childs: root.nodes,
                    },
                )
            },
            _ => Err(ReadError::UnexpectedEof),
        }
    }
}

impl RiffTree {
    /// Reads the tree that `data` holds.
    pub fn read(data: &[u8]) -> (r: Result<RiffTree, ReadError>)
        ensures
            match r {
                Ok(t) => riff_tree_of(data@) == Ok::<TreeModel, ReadError>(t@),
                Err(e) => riff_tree_of(data@) == Err::<TreeModel, ReadError>(e),
            },
            r matches Ok(t) ==> t@.sound(data@.len() as int) && t@.wf(),
    {
        let total = data.len();
        proof {
            lemma_tree_sound(data@);
            if let Ok(t) = riff_tree_of(data@) {
                lemma_sound_tree_is_wf(t, data@.len() as int);
            }
        }
        let mut walker = RiffWalker::new(total as u64);
        loop
            invariant
                total == data@.len(),
                walker.wf(),
                walker.source_len() == data@.len(),
                walker.outcome(data@) == riff_tree_of(data@),
                riff_tree_of(data@) matches Ok(t) ==> t.sound(data@.len() as int) && t.wf(),
            decreases
                    (match walker.wanted() {
                        Some(q) => data@.len() - q.offset + 1,
                        None => 0,
                    }),
        {
            match walker.pending() {
                None => {
                    return walker.finish();
                },
                Some(q) => {
                    let bytes = slice_subrange(
                        data,
                        q.offset as usize,
                        (q.offset + q.len) as usize,
                    );
                    assert(walker.answered(data@, bytes@));
                    match walker.feed(bytes) {
                        Err(e) => {
                            return Err(e);
                        },
                        Ok(()) => {},
                    }
                },
            }
        }
    }
}

} // verus!
