//! The header of an AVI file: the main header and one entry per stream.
//!
//! [`header_from`] says which header a RIFF tree and a source of bytes
//! hold; [`AviHeader::read`] computes it. The first fault in file order
//! ends the reading, with the error that names it.

use crate::error::{AviError, ReadError};
use crate::format::{
    AviBitmapInfo, AviMainHeader, AviStreamFormat, AviStreamHeader, AviWaveInfoExt,
    BITMAP_INFO_LEN, MAIN_HEADER_LEN, STREAM_HEADER_LEN, WAVE_INFO_MAX_LEN, WAVE_INFO_MIN_LEN,
};
use crate::riff::{models_of, NodeModel, RiffNode, RiffTree, TreeModel};
use crate::source::{lemma_fetch_agrees, ByteSource, Fetch, SourceModel};
use vstd::prelude::*;
use vstd::slice::slice_to_vec;

verus! {

/// `"AVI "`, the file type of an AVI container.
pub const AVI_FILE_TYPE: u32 = 0x4156_4920;

/// `"hdrl"`, the list that holds the header.
pub const HDRL_TYPE: u32 = 0x6864_726C;

/// `"movi"`, the list that holds the media data.
pub const MOVI_TYPE: u32 = 0x6D6F_7669;

/// `"avih"`, the main header.
pub const AVIH_TYPE: u32 = 0x6176_6968;

/// `"strl"`, the list that describes one stream.
pub const STRL_TYPE: u32 = 0x7374_726C;

/// `"strh"`, a stream header.
pub const STRH_TYPE: u32 = 0x7374_7268;

/// `"strf"`, a stream format.
pub const STRF_TYPE: u32 = 0x7374_7266;

/// `"strd"`, data that belongs to a stream's codec.
pub const STRD_TYPE: u32 = 0x7374_7264;

/// `"strn"`, a stream's name.
pub const STRN_TYPE: u32 = 0x7374_726E;

/// `"idx1"`, the index that older files end with.
pub const IDX1_TYPE: u32 = 0x6964_7831;

/// `"auds"`, the type of an audio stream.
pub const AUDIO_STREAM_TYPE: u32 = 0x6175_6473;

/// `"mids"`, the type of a MIDI stream. Such streams are not read.
pub const MIDI_STREAM_TYPE: u32 = 0x6D69_6473;

/// `"txts"`, the type of a text stream. Such streams are not read.
pub const TXT_STREAM_TYPE: u32 = 0x7478_7473;

/// `"vids"`, the type of a video stream.
pub const VIDEO_STREAM_TYPE: u32 = 0x7669_6473;

/// The most streams that a file can hold: a media chunk names its stream by
/// two decimal digits.
pub const AVI_MAX_STREAMS: usize = 100;

/// One stream as the header describes it.
#[derive(Debug, PartialEq, Eq)]
pub struct AviStreamListItem {
    pub index: usize,
    pub strh: AviStreamHeader,
    pub strf: AviStreamFormat,
    /// The payload of `strd`, padding included.
    pub strd: Option<Vec<u8>>,
    /// The payload of `strn`, padding included.
    pub strn: Option<Vec<u8>>,
}

/// The header of a file.
#[derive(Debug, PartialEq, Eq)]
pub struct AviHeader {
    pub avih: AviMainHeader,
    pub strl: Vec<AviStreamListItem>,
}

/// A stream entry as a mathematical value.
pub struct StreamItemModel {
    pub index: usize,
    pub strh: AviStreamHeader,
    pub strf: AviStreamFormat,
    pub strd: Option<Seq<u8>>,
    pub strn: Option<Seq<u8>>,
}

/// A header as a mathematical value.
pub struct HeaderModel {
    pub avih: AviMainHeader,
    pub strl: Seq<StreamItemModel>,
}

/// The bytes of an optional buffer.
pub open spec fn bytes_of(v: Option<Vec<u8>>) -> Option<Seq<u8>> {
    match v {
        Some(b) => Some(b@),
        None => None,
    }
}

impl View for AviStreamListItem {
    type V = StreamItemModel;

    open spec fn view(&self) -> StreamItemModel {
        StreamItemModel {
            index: self.index,
            strh: self.strh,
            strf: self.strf,
            strd: bytes_of(self.strd),
            strn: bytes_of(self.strn),
        }
    }
}

/// The models of a sequence of stream entries.
pub open spec fn items_of(items: Seq<AviStreamListItem>) -> Seq<StreamItemModel> {
    Seq::new(items.len(), |i: int| items[i]@)
}

impl View for AviHeader {
    type V = HeaderModel;

    open spec fn view(&self) -> HeaderModel {
        HeaderModel { avih: self.avih, strl: items_of(self.strl@) }
    }
}

/// Where the three nodes that an AVI file is made of stand among the
/// top-level nodes.
#[derive(Clone, Copy, Debug, PartialEq, Eq)]
pub struct TopLevel {
    pub hdrl: Option<usize>,
    pub movi: Option<usize>,
    pub idx1: Option<usize>,
}

/// The places of `hdrl`, `movi` and `idx1` among the first `n` nodes, or the
/// error that names the first of them to come twice.
pub open spec fn top_level(childs: Seq<NodeModel>, n: int) -> Result<TopLevel, AviError>
    decreases n,
{
    if n <= 0 {
        Ok(TopLevel { hdrl: None, movi: None, idx1: None })
    } else {
        match top_level(childs, n - 1) {
            Err(e) => Err(e),
            Ok(t) => {
                let id = childs[n - 1].id().0;
                let at = Some((n - 1) as usize);
                if id == HDRL_TYPE {
                    if t.hdrl is Some {
                        Err(AviError::DuplicateHdrlList)
                    } else {
                        Ok(TopLevel { hdrl: at, movi: t.movi, idx1: t.idx1 })
                    }
                } else if id == MOVI_TYPE {
                    if t.movi is Some {
                        Err(AviError::DuplicateMoviList)
                    } else {
                        Ok(TopLevel { hdrl: t.hdrl, movi: at, idx1: t.idx1 })
                    }
                } else if id == IDX1_TYPE {
                    if t.idx1 is Some {
                        Err(AviError::DuplicateIdx1Chunk)
                    } else {
                        Ok(TopLevel { hdrl: t.hdrl, movi: t.movi, idx1: at })
                    }
                } else {
                    Ok(t)
                }
            },
        }
    }
}

/// An AVI fault as the reason why a fetching function stopped.
pub open spec fn fault<T>(e: AviError) -> Result<T, Fetch> {
    Err(Fetch::Failed(ReadError::Avi(e)))
}

/// The number of bytes that are read for a waveform description at `pos`:
/// as many as the longest description takes, or as many as the source has
/// left.
pub open spec fn wave_window(source_len: int, pos: int) -> int {
    if pos + WAVE_INFO_MAX_LEN <= source_len {
        WAVE_INFO_MAX_LEN as int
    } else if pos <= source_len {
        source_len - pos
    } else {
        0
    }
}

/// The payload of a node, padding included.
pub open spec fn payload_of(src: SourceModel, node: NodeModel) -> Result<Seq<u8>, Fetch> {
    src.fetch(node.data_pos() as int, node.data_size() + node.padding())
}

/// The format that the node `strf` holds for a stream with header `strh`.
pub open spec fn stream_format(src: SourceModel, strh: AviStreamHeader, strf: NodeModel) -> Result<
    AviStreamFormat,
    Fetch,
> {
    if strh.fcc_type.0 == VIDEO_STREAM_TYPE {
        if strf.data_size() != BITMAP_INFO_LEN {
            fault(AviError::InvalidStreamFormatHeader)
        } else {
            match src.fetch(strf.data_pos() as int, BITMAP_INFO_LEN as int) {
                Err(e) => Err(e),
                Ok(b) => match AviBitmapInfo::parsed(b) {
                    Err(e) => Err(Fetch::Failed(e)),
                    Ok(v) => Ok(AviStreamFormat::Video(v)),
                },
            }
        }
    } else if strh.fcc_type.0 == AUDIO_STREAM_TYPE {
        if strf.data_size() < WAVE_INFO_MIN_LEN {
            fault(AviError::InvalidStreamFormatHeader)
        } else {
            match src.fetch(
                strf.data_pos() as int,
                wave_window(src.len() as int, strf.data_pos() as int),
            ) {
                Err(e) => Err(e),
                Ok(b) => match AviWaveInfoExt::parsed(b) {
                    Err(e) => Err(Fetch::Failed(e)),
                    Ok(a) => Ok(AviStreamFormat::Audio(a)),
                },
            }
        }
    } else {
        fault(AviError::UnsupportedStreamType)
    }
}

/// `item` with what the nodes behind the format hold: nothing, one of
/// `strd` and `strn`, or `strd` and then `strn`.
pub open spec fn stream_extras(src: SourceModel, c: Seq<NodeModel>, item: StreamItemModel) -> Result<
    StreamItemModel,
    Fetch,
> {
    if c.len() <= 2 {
        Ok(item)
    } else if c.len() == 3 {
        let id = c[2].id().0;
        if id != STRN_TYPE && id != STRD_TYPE {
            fault(AviError::InvalidStreamAdditionalData)
        } else {
            match payload_of(src, c[2]) {
                Err(e) => Err(e),
                Ok(b) => if id == STRN_TYPE {
                    Ok(StreamItemModel { strn: Some(b), ..item })
                } else {
                    Ok(StreamItemModel { strd: Some(b), ..item })
                },
            }
        }
    } else {
        if c[2].id().0 != STRD_TYPE || c[3].id().0 != STRN_TYPE {
            fault(AviError::InvalidStreamAdditionalData)
        } else {
            match payload_of(src, c[2]) {
                Err(e) => Err(e),
                Ok(d) => match payload_of(src, c[3]) {
                    Err(e) => Err(e),
                    Ok(n) => Ok(StreamItemModel { strd: Some(d), strn: Some(n), ..item }),
                },
            }
        }
    }
}

/// The entry of the stream that `node` describes.
#[verifier::opaque]
pub open spec fn stream_item(src: SourceModel, node: NodeModel, index: usize) -> Result<
    StreamItemModel,
    Fetch,
> {
    let c = node.childs();
    if c.len() < 2 || c.len() > 4 {
        fault(AviError::InvalidStreamList)
    } else if c[0].data_size() != STREAM_HEADER_LEN {
        fault(AviError::InvalidStreamHeader)
    } else {
        match src.fetch(c[0].data_pos() as int, STREAM_HEADER_LEN as int) {
            Err(e) => Err(e),
            Ok(b) => match AviStreamHeader::parsed(b) {
                Err(e) => Err(Fetch::Failed(e)),
                Ok(strh) => match stream_format(src, strh, c[1]) {
                    Err(e) => Err(e),
                    Ok(strf) => stream_extras(
                        src,
                        c,
                        StreamItemModel { index, strh, strf, strd: None, strn: None },
                    ),
                },
            },
        }
    }
}

/// The entries of the streams that `kids[1]` to `kids[n - 1]` describe.
pub open spec fn stream_items(src: SourceModel, kids: Seq<NodeModel>, n: int) -> Result<
    Seq<StreamItemModel>,
    Fetch,
>
    decreases n,
{
    if n <= 1 {
        Ok(Seq::empty())
    } else {
        match stream_items(src, kids, n - 1) {
            Err(e) => Err(e),
            Ok(items) => match stream_item(src, kids[n - 1], (n - 2) as usize) {
                Err(e) => Err(e),
                Ok(item) => Ok(items.push(item)),
            },
        }
    }
}

/// The header that the nodes of `hdrl` hold: the main header first, then
/// one list per stream.
pub open spec fn header_of_list(src: SourceModel, kids: Seq<NodeModel>) -> Result<
    HeaderModel,
    Fetch,
> {
    if kids.len() > AVI_MAX_STREAMS + 1 {
        fault(AviError::InvalidHdrlList)
    } else if kids.len() == 0 || kids[0].id().0 != AVIH_TYPE || kids[0].data_size()
        != MAIN_HEADER_LEN {
        fault(AviError::InvalidMainHeader)
    } else {
        match src.fetch(kids[0].data_pos() as int, MAIN_HEADER_LEN as int) {
            Err(e) => Err(e),
            Ok(b) => match AviMainHeader::parsed(b) {
                Err(e) => Err(Fetch::Failed(e)),
                Ok(avih) => match stream_items(src, kids, kids.len() as int) {
                    Err(e) => Err(e),
                    Ok(strl) => Ok(HeaderModel { avih, strl }),
                },
            },
        }
    }
}

/// The header of the file that `tree` and `src` hold.
pub open spec fn header_from(src: SourceModel, tree: TreeModel) -> Result<HeaderModel, Fetch> {
    if tree.header.file_type.0 != AVI_FILE_TYPE {
        fault(AviError::InvalidRiffFileType)
    } else {
        match top_level(tree.childs, tree.childs.len() as int) {
            Err(e) => fault(e),
            Ok(t) => match t.hdrl {
                None => fault(AviError::HdrlNotFound),
                Some(h) => header_of_list(src, tree.childs[h as int].childs()),
            },
        }
    }
}

impl TopLevel {
    /// Finds `hdrl`, `movi` and `idx1` among the top-level nodes.
    pub fn find(childs: &Vec<RiffNode>) -> (r: Result<TopLevel, AviError>)
        ensures
            r == top_level(models_of(childs@), childs@.len() as int),
    {
        let mut t = TopLevel { hdrl: None, movi: None, idx1: None };
        let mut i: usize = 0;
        while i < childs.len()
            invariant
                i <= childs@.len(),
                top_level(models_of(childs@), i as int) == Ok::<TopLevel, AviError>(t),
            decreases childs@.len() - i,
        {
            let id = childs[i].id().0;
            assert(models_of(childs@)[i as int] == childs@[i as int]@);
            if id == HDRL_TYPE {
                if t.hdrl.is_some() {
                    proof {
                        lemma_top_level_error_stays(models_of(childs@), i + 1, childs@.len() as int);
                    }
                    return Err(AviError::DuplicateHdrlList);
                }
                t = TopLevel { hdrl: Some(i), movi: t.movi, idx1: t.idx1 };
            } else if id == MOVI_TYPE {
                if t.movi.is_some() {
                    proof {
                        lemma_top_level_error_stays(models_of(childs@), i + 1, childs@.len() as int);
                    }
                    return Err(AviError::DuplicateMoviList);
                }
                t = TopLevel { hdrl: t.hdrl, movi: Some(i), idx1: t.idx1 };
            } else if id == IDX1_TYPE {
                if t.idx1.is_some() {
                    proof {
                        lemma_top_level_error_stays(models_of(childs@), i + 1, childs@.len() as int);
                    }
                    return Err(AviError::DuplicateIdx1Chunk);
                }
                t = TopLevel { hdrl: t.hdrl, movi: t.movi, idx1: Some(i) };
            }
            i += 1;
        }
        Ok(t)
    }
}

/// Once a node has come twice, more nodes change nothing.
pub proof fn lemma_top_level_error_stays(childs: Seq<NodeModel>, n: int, m: int)
    requires
        n <= m,
        top_level(childs, n) is Err,
    ensures
        top_level(childs, m) == top_level(childs, n),
    decreases m - n,
{
    if n < m {
        lemma_top_level_error_stays(childs, n, m - 1);
    }
}

/// Reads the payload of a node, padding included.
fn read_payload(source: &ByteSource, node: &RiffNode) -> (r: Result<Vec<u8>, Fetch>)
    requires
        node@.wf(),
    ensures
        match r {
            Ok(b) => payload_of(source@, node@) == Ok::<Seq<u8>, Fetch>(b@),
            Err(e) => payload_of(source@, node@) == Err::<Seq<u8>, Fetch>(e),
        },
{
    let len: u64 = node.data_size() as u64 + node.padding() as u64;
    match source.fetch(node.data_pos(), len) {
        Err(e) => Err(e),
        Ok(bytes) => Ok(slice_to_vec(bytes)),
    }
}

/// Reads the format of a stream from the node behind its header.
fn read_format(source: &ByteSource, strh: &AviStreamHeader, strf: &RiffNode) -> (r: Result<
    AviStreamFormat,
    Fetch,
>)
    requires
        strf@.wf(),
    ensures
        r == stream_format(source@, *strh, strf@),
{
    if strh.fcc_type.0 == VIDEO_STREAM_TYPE {
        if strf.data_size() != BITMAP_INFO_LEN {
            return Err(Fetch::Failed(ReadError::Avi(AviError::InvalidStreamFormatHeader)));
        }
        match source.fetch(strf.data_pos(), BITMAP_INFO_LEN as u64) {
            Err(e) => Err(e),
            Ok(bytes) => match AviBitmapInfo::parse(bytes) {
                Err(e) => Err(Fetch::Failed(e)),
                Ok(v) => Ok(AviStreamFormat::Video(v)),
            },
        }
    } else if strh.fcc_type.0 == AUDIO_STREAM_TYPE {
        if strf.data_size() < WAVE_INFO_MIN_LEN {
            return Err(Fetch::Failed(ReadError::Avi(AviError::InvalidStreamFormatHeader)));
        }
        let pos = strf.data_pos();
        let total = source.len();
        let len: u64 = if pos <= total && total - pos >= WAVE_INFO_MAX_LEN as u64 {
            WAVE_INFO_MAX_LEN as u64
        } else if pos <= total {
            total - pos
        } else {
            0
        };
        match source.fetch(pos, len) {
            Err(e) => Err(e),
            Ok(bytes) => match AviWaveInfoExt::parse(bytes) {
                Err(e) => Err(Fetch::Failed(e)),
                Ok(a) => Ok(AviStreamFormat::Audio(a)),
            },
        }
    } else {
        Err(Fetch::Failed(ReadError::Avi(AviError::UnsupportedStreamType)))
    }
}

impl AviStreamListItem {
    /// Reads the entry of the stream that `node` describes.
    pub fn read(source: &ByteSource, node: &RiffNode, index: usize) -> (r: Result<
        AviStreamListItem,
        Fetch,
    >)
        requires
            node@.wf(),
        ensures
            match r {
                Ok(item) => stream_item(source@, node@, index) == Ok::<StreamItemModel, Fetch>(
                    item@,
                ),
                Err(e) => stream_item(source@, node@, index) == Err::<StreamItemModel, Fetch>(e),
            },
    {
        reveal(stream_item);
        let c = node.childs();
        let ghost cm = node@.childs();
        assert(forall|i: int| 0 <= i < c@.len() ==> c@[i]@ == #[trigger] cm[i]);
        assert(forall|i: int| 0 <= i < cm.len() ==> (#[trigger] cm[i]).wf());
        let n = c.len();
        if n < 2 || n > 4 {
            return Err(Fetch::Failed(ReadError::Avi(AviError::InvalidStreamList)));
        }
        assert(cm[0].wf() && cm[1].wf());
        if c[0].data_size() != STREAM_HEADER_LEN {
            return Err(Fetch::Failed(ReadError::Avi(AviError::InvalidStreamHeader)));
        }
        let strh = match source.fetch(c[0].data_pos(), STREAM_HEADER_LEN as u64) {
            Err(e) => {
                return Err(e);
            },
            Ok(bytes) => match AviStreamHeader::parse(bytes) {
                Err(e) => {
                    return Err(Fetch::Failed(e));
                },
                Ok(h) => h,
            },
        };
        let strf = match read_format(source, &strh, &c[1]) {
            Err(e) => {
                return Err(e);
            },
            Ok(f) => f,
        };
        if n == 2 {
            return Ok(AviStreamListItem { index, strh, strf, strd: None, strn: None });
        }
        assert(cm[2].wf());
        if n == 3 {
            let id = c[2].id().0;
            if id != STRN_TYPE && id != STRD_TYPE {
                return Err(Fetch::Failed(ReadError::Avi(AviError::InvalidStreamAdditionalData)));
            }
            let bytes = match read_payload(source, &c[2]) {
                Err(e) => {
                    return Err(e);
                },
                Ok(b) => b,
            };
            if id == STRN_TYPE {
                return Ok(AviStreamListItem { index, strh, strf, strd: None, strn: Some(bytes) });
            }
            return Ok(AviStreamListItem { index, strh, strf, strd: Some(bytes), strn: None });
        }
        assert(cm[3].wf());
        if c[2].id().0 != STRD_TYPE || c[3].id().0 != STRN_TYPE {
            return Err(Fetch::Failed(ReadError::Avi(AviError::InvalidStreamAdditionalData)));
        }
        let strd = match read_payload(source, &c[2]) {
            Err(e) => {
                return Err(e);
            },
            Ok(b) => b,
        };
        let strn = match read_payload(source, &c[3]) {
            Err(e) => {
                return Err(e);
            },
            Ok(b) => b,
        };
        Ok(AviStreamListItem { index, strh, strf, strd: Some(strd), strn: Some(strn) })
    }
}

impl AviHeader {
    /// Reads the header that the nodes of `hdrl` hold.
    fn read_list(source: &ByteSource, kids: &[RiffNode]) -> (r: Result<AviHeader, Fetch>)
        requires
            forall|i: int| 0 <= i < kids@.len() ==> (#[trigger] kids@[i])@.wf(),
        ensures
            match r {
                Ok(h) => header_of_list(source@, models_of(kids@)) == Ok::<HeaderModel, Fetch>(h@),
                Err(e) => header_of_list(source@, models_of(kids@)) == Err::<HeaderModel, Fetch>(
                    e,
                ),
            },
    {
        let ghost km = models_of(kids@);
        let n = kids.len();
        if n > AVI_MAX_STREAMS + 1 {
            return Err(Fetch::Failed(ReadError::Avi(AviError::InvalidHdrlList)));
        }
        if n == 0 {
            return Err(Fetch::Failed(ReadError::Avi(AviError::InvalidMainHeader)));
        }
        assert(km[0] == kids@[0]@);
        if kids[0].id().0 != AVIH_TYPE || kids[0].data_size() != MAIN_HEADER_LEN {
            return Err(Fetch::Failed(ReadError::Avi(AviError::InvalidMainHeader)));
        }
        let avih = match source.fetch(kids[0].data_pos(), MAIN_HEADER_LEN as u64) {
            Err(e) => {
                return Err(e);
            },
            Ok(bytes) => match AviMainHeader::parse(bytes) {
                Err(e) => {
                    return Err(Fetch::Failed(e));
                },
                Ok(h) => h,
            },
        };
        let mut strl: Vec<AviStreamListItem> = Vec::new();
        let mut i: usize = 1;
        assert(items_of(strl@) =~= Seq::empty());
        while i < n
            invariant
                1 <= i <= n,
                n == kids@.len(),
                km == models_of(kids@),
                header_of_list(source@, km) == match stream_items(source@, km, n as int) {
                    Err(e) => Err::<HeaderModel, Fetch>(e),
                    Ok(strl) => Ok(HeaderModel { avih, strl }),
                },
                forall|j: int| 0 <= j < kids@.len() ==> (#[trigger] kids@[j])@.wf(),
                stream_items(source@, km, i as int) == Ok::<Seq<StreamItemModel>, Fetch>(
                    items_of(strl@),
                ),
            decreases n - i,
        {
            assert(km[i as int] == kids@[i as int]@);
            let ghost before = strl@;
            match AviStreamListItem::read(source, &kids[i], i - 1) {
                Err(e) => {
                    proof {
                        lemma_stream_items_error_stays(source@, km, i + 1, n as int);
                    }
                    return Err(e);
                },
                Ok(item) => {
                    strl.push(item);
                    assert(items_of(strl@) =~= items_of(before).push(item@));
                },
            }
            i += 1;
        }
        Ok(AviHeader { avih, strl })
    }

    /// Reads the header of the file whose tree is `tree`, with the bytes
    /// that `source` holds.
    pub fn read(tree: &RiffTree, source: &ByteSource) -> (r: Result<AviHeader, Fetch>)
        requires
            tree@.wf(),
        ensures
            match r {
                Ok(h) => header_from(source@, tree@) == Ok::<HeaderModel, Fetch>(h@),
                Err(e) => header_from(source@, tree@) == Err::<HeaderModel, Fetch>(e),
            },
    {
        if tree.header.file_type.0 != AVI_FILE_TYPE {
            return Err(Fetch::Failed(ReadError::Avi(AviError::InvalidRiffFileType)));
        }
        let count = tree.childs.len();
        let t = match TopLevel::find(&tree.childs) {
            Err(e) => {
                return Err(Fetch::Failed(ReadError::Avi(e)));
            },
            Ok(t) => t,
        };
        match t.hdrl {
            None => Err(Fetch::Failed(ReadError::Avi(AviError::HdrlNotFound))),
            Some(h) => {
                proof {
                    lemma_top_level_in_range(tree@.childs, tree@.childs.len() as int);
                }
                let node = &tree.childs[h];
                assert(tree@.childs[h as int] == node@);
                let kids = node.childs();
                assert forall|i: int| 0 <= i < kids@.len() implies (#[trigger] kids@[i])@.wf() by {
                    assert(models_of(kids@)[i] == kids@[i]@);
                }
                Self::read_list(source, kids)
            },
        }
    }
}

/// Once a stream entry has failed, more streams change nothing.
pub proof fn lemma_stream_items_error_stays(src: SourceModel, kids: Seq<NodeModel>, n: int, m: int)
    requires
        n <= m,
        stream_items(src, kids, n) is Err,
    ensures
        stream_items(src, kids, m) == stream_items(src, kids, n),
    decreases m - n,
{
    if n < m {
        lemma_stream_items_error_stays(src, kids, n, m - 1);
    }
}

/// The places that `top_level` gives are places of nodes with those ids.
pub proof fn lemma_top_level_in_range(childs: Seq<NodeModel>, n: int)
    requires
        n <= childs.len(),
        n <= usize::MAX,
    ensures
        top_level(childs, n) matches Ok(t) ==> {
            &&& t.hdrl matches Some(h) ==> h < n && childs[h as int].id().0 == HDRL_TYPE
            &&& t.movi matches Some(m) ==> m < n && childs[m as int].id().0 == MOVI_TYPE
            &&& t.idx1 matches Some(x) ==> x < n && childs[x as int].id().0 == IDX1_TYPE
        },
    decreases n,
{
    if n > 0 {
        lemma_top_level_in_range(childs, n - 1);
    }
}

/// One of the three ids of which a file may hold one node each.
pub open spec fn is_single(id: u32) -> bool {
    id == HDRL_TYPE || id == MOVI_TYPE || id == IDX1_TYPE
}

/// The place that `t` gives for `id`.
pub open spec fn place_of(t: TopLevel, id: u32) -> Option<usize> {
    if id == HDRL_TYPE {
        t.hdrl
    } else if id == MOVI_TYPE {
        t.movi
    } else {
        t.idx1
    }
}

/// The error that names a second node with `id`.
pub open spec fn duplicate_of(id: u32) -> AviError {
    if id == HDRL_TYPE {
        AviError::DuplicateHdrlList
    } else if id == MOVI_TYPE {
        AviError::DuplicateMoviList
    } else {
        AviError::DuplicateIdx1Chunk
    }
}

/// Node `i` has the id `id` exactly where `t` gives `i` as the place of
/// that id.
pub open spec fn placed(childs: Seq<NodeModel>, t: TopLevel, i: int) -> bool {
    &&& childs[i].id().0 == HDRL_TYPE <==> t.hdrl == Some(i as usize)
    &&& childs[i].id().0 == MOVI_TYPE <==> t.movi == Some(i as usize)
    &&& childs[i].id().0 == IDX1_TYPE <==> t.idx1 == Some(i as usize)
}

/// Where the top-level nodes are accepted, each of `hdrl`, `movi` and
/// `idx1` names at most one of them: the one whose place is given.
pub proof fn lemma_top_level_unique(childs: Seq<NodeModel>, n: int)
    requires
        0 <= n <= childs.len(),
        n <= usize::MAX,
    ensures
        top_level(childs, n) matches Ok(t) ==> forall|i: int|
            0 <= i < n ==> #[trigger] placed(childs, t, i),
    decreases n,
{
    if n > 0 {
        lemma_top_level_unique(childs, n - 1);
        lemma_top_level_in_range(childs, n - 1);
        if let Ok(t) = top_level(childs, n) {
            let prev = top_level(childs, n - 1)->Ok_0;
            assert forall|i: int| 0 <= i < n implies #[trigger] placed(childs, t, i) by {
                if i < n - 1 {
                    assert(placed(childs, prev, i));
                }
            }
        }
    }
}

/// Where one of `hdrl`, `movi` and `idx1` names two of the top-level
/// nodes, the nodes are refused, with the error of the first id to come
/// twice.
pub proof fn lemma_top_level_duplicate(childs: Seq<NodeModel>, n: int, i: int, j: int)
    requires
        0 <= i < j < n <= childs.len(),
        n <= usize::MAX,
        childs[i].id() == childs[j].id(),
        is_single(childs[i].id().0),
    ensures
        top_level(childs, n) matches Err(e) && (e == AviError::DuplicateHdrlList || e
            == AviError::DuplicateMoviList || e == AviError::DuplicateIdx1Chunk),
    decreases n,
{
    lemma_top_level_errors(childs, n);
    if j < n - 1 {
        lemma_top_level_duplicate(childs, n - 1, i, j);
    } else {
        lemma_top_level_unique(childs, n - 1);
        if let Ok(t) = top_level(childs, n - 1) {
            assert(placed(childs, t, i));
        }
    }
}

/// The top-level nodes are refused for no other reason than a second
/// `hdrl`, `movi` or `idx1`, and the error names an id that comes twice.
pub proof fn lemma_top_level_errors(childs: Seq<NodeModel>, n: int)
    requires
        n <= childs.len(),
        n <= usize::MAX,
    ensures
        top_level(childs, n) matches Err(e) ==> exists|i: int, j: int|
            0 <= i < j < n && #[trigger] childs[i].id() == #[trigger] childs[j].id() && is_single(
                childs[i].id().0,
            ) && e == duplicate_of(childs[i].id().0),
    decreases n,
{
    if n > 0 {
        lemma_top_level_errors(childs, n - 1);
        lemma_top_level_in_range(childs, n - 1);
        match top_level(childs, n - 1) {
            Err(e) => {},
            Ok(t) => {
                let id = childs[n - 1].id().0;
                if top_level(childs, n) is Err {
                    let i = place_of(t, id)->0 as int;
                    assert(childs[i].id() == childs[n - 1].id());
                }
            },
        }
    }
}

/// The source held every run that was asked for.
pub open spec fn settled<T>(r: Result<T, Fetch>) -> bool {
    !(r matches Err(Fetch::Need(_)))
}

/// What a source that agrees with `data` gives for the entry of a stream is
/// what `data` itself gives, once no run is missing.
pub proof fn lemma_stream_item_agrees(src: SourceModel, data: Seq<u8>, node: NodeModel, index: usize)
    requires
        src.agrees(data),
        node.wf(),
        settled(stream_item(src, node, index)),
    ensures
        stream_item(src, node, index) == stream_item(SourceModel::Whole(data), node, index),
{
    reveal(stream_item);
    let whole = SourceModel::Whole(data);
    let c = node.childs();
    if 2 <= c.len() <= 4 {
        assert(c[0].wf() && c[1].wf());
        lemma_fetch_agrees(src, data, c[0].data_pos() as int, STREAM_HEADER_LEN as int);
        lemma_fetch_agrees(src, data, c[1].data_pos() as int, BITMAP_INFO_LEN as int);
        lemma_fetch_agrees(
            src,
            data,
            c[1].data_pos() as int,
            wave_window(data.len() as int, c[1].data_pos() as int),
        );
        if c.len() >= 3 {
            assert(c[2].wf());
            lemma_fetch_agrees(src, data, c[2].data_pos() as int, c[2].data_size() + c[2].padding());
        }
        if c.len() == 4 {
            assert(c[3].wf());
            lemma_fetch_agrees(src, data, c[3].data_pos() as int, c[3].data_size() + c[3].padding());
        }
    }
}

/// The same for the entries of all streams.
pub proof fn lemma_stream_items_agree(src: SourceModel, data: Seq<u8>, kids: Seq<NodeModel>, n: int)
    requires
        src.agrees(data),
        n <= kids.len(),
        forall|i: int| 0 <= i < kids.len() ==> (#[trigger] kids[i]).wf(),
        settled(stream_items(src, kids, n)),
    ensures
        stream_items(src, kids, n) == stream_items(SourceModel::Whole(data), kids, n),
    decreases n,
{
    if n > 1 {
        lemma_stream_items_agree(src, data, kids, n - 1);
        if stream_items(src, kids, n - 1) is Ok {
            lemma_stream_item_agrees(src, data, kids[n - 1], (n - 2) as usize);
        }
    }
}

/// The header that is read from runs of a file is the header that is read
/// from the whole file: what was read, and in which order and by what
/// means, makes no difference once no run is missing.
pub proof fn lemma_header_agrees(src: SourceModel, data: Seq<u8>, tree: TreeModel)
    requires
        src.agrees(data),
        tree.wf(),
        tree.childs.len() <= usize::MAX,
        settled(header_from(src, tree)),
    ensures
        header_from(src, tree) == header_from(SourceModel::Whole(data), tree),
{
    if tree.header.file_type.0 == AVI_FILE_TYPE {
        lemma_top_level_in_range(tree.childs, tree.childs.len() as int);
        if let Ok(t) = top_level(tree.childs, tree.childs.len() as int) {
            if let Some(h) = t.hdrl {
                let kids = tree.childs[h as int].childs();
                assert(tree.childs[h as int].wf());
                if 0 < kids.len() <= AVI_MAX_STREAMS + 1 && kids[0].id().0 == AVIH_TYPE
                    && kids[0].data_size() == MAIN_HEADER_LEN {
                    assert(kids[0].wf());
                    lemma_fetch_agrees(src, data, kids[0].data_pos() as int, MAIN_HEADER_LEN as int);
                    if src.fetch(kids[0].data_pos() as int, MAIN_HEADER_LEN as int) matches Ok(b)
                        && AviMainHeader::parsed(b) is Ok {
                        lemma_stream_items_agree(src, data, kids, kids.len() as int);
                    }
                }
            }
        }
    }
}

/// A whole file has every run: reading the entries of its streams never
/// stops for a missing one.
pub proof fn lemma_whole_stream_items_settled(data: Seq<u8>, kids: Seq<NodeModel>, n: int)
    ensures
        settled(stream_items(SourceModel::Whole(data), kids, n)),
    decreases n,
{
    reveal(stream_item);
    if n > 1 {
        lemma_whole_stream_items_settled(data, kids, n - 1);
    }
}

/// A whole file has every run: reading its header never stops for a
/// missing one.
pub proof fn lemma_whole_header_settled(data: Seq<u8>, tree: TreeModel)
    ensures
        settled(header_from(SourceModel::Whole(data), tree)),
{
    if tree.header.file_type.0 == AVI_FILE_TYPE {
        if let Ok(t) = top_level(tree.childs, tree.childs.len() as int) {
            if let Some(h) = t.hdrl {
                let kids = tree.childs[h as int].childs();
                lemma_whole_stream_items_settled(data, kids, kids.len() as int);
            }
        }
    }
}

} // verus!
