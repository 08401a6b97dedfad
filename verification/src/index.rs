//! The catalog of media chunks: which chunk of `movi` belongs to which
//! stream, and which chunks stand together in a record list.
//!
//! A media chunk names its stream by the two decimal digits that its id
//! begins with. A child of `movi` is either such a chunk or a `rec ` list of
//! such chunks. [`movi_catalog`] says what the catalog of a list of nodes
//! is; [`build_catalog`] computes it.

use crate::error::AviError;
use crate::format::AviStreamFormat;
use crate::fourcc::FourCC;
use crate::riff::{models_of, NodeModel, RiffChunkHeader, RiffListHeader, RiffNode};
use vstd::prelude::*;

verus! {

/// `"rec "`, the type of a record list.
pub const REC_TYPE: u32 = 0x7265_6320;

/// A media chunk in the catalog of its stream.
#[derive(Clone, Copy, Debug, PartialEq, Eq)]
pub struct AviStreamChunk {
    /// The record list that holds the chunk; `None` for a chunk that stands
    /// in `movi` itself.
    pub rec_index: Option<usize>,
    /// The chunk's place in its record list or, for a chunk that stands in
    /// `movi` itself, in the catalog of its stream.
    pub chunk_index: usize,
    pub stream_index: usize,
    pub chunk: RiffChunkHeader,
}

/// A stream and its media chunks, in file order.
#[derive(Debug, PartialEq, Eq)]
pub struct AviStream {
    pub index: usize,
    pub format: AviStreamFormat,
    pub chunks: Vec<AviStreamChunk>,
}

/// A record list and the chunks in it, in file order.
#[derive(Debug, PartialEq, Eq)]
pub struct RiffChunkList {
    pub header: RiffListHeader,
    pub childs: Vec<RiffChunkHeader>,
}

/// A record list as a mathematical value.
pub struct RecordModel {
    pub header: RiffListHeader,
    pub childs: Seq<RiffChunkHeader>,
}

impl View for RiffChunkList {
    type V = RecordModel;

    open spec fn view(&self) -> RecordModel {
        RecordModel { header: self.header, childs: self.childs@ }
    }
}

/// The chunks of every stream, and the record lists.
pub struct Catalog {
    pub streams: Seq<Seq<AviStreamChunk>>,
    pub recs: Seq<RecordModel>,
}

/// The value of an ASCII digit.
pub open spec fn digit_value(b: u8) -> Option<int> {
    if 0x30 <= b <= 0x39 {
        Some(b - 0x30)
    } else {
        None
    }
}

/// The stream that a chunk with this id belongs to: the number that the
/// first two bytes spell in decimal digits, if they are digits.
pub open spec fn stream_index_of(id: FourCC) -> Option<usize> {
    match (digit_value(id.bytes()[0]), digit_value(id.bytes()[1])) {
        (Some(tens), Some(ones)) => Some((10 * tens + ones) as usize),
        _ => None,
    }
}

/// The catalog of `n` streams without chunks.
pub open spec fn empty_catalog(n: nat) -> Catalog {
    Catalog { streams: Seq::new(n, |i: int| Seq::empty()), recs: Seq::empty() }
}

/// The entry that a chunk gets behind the `count` chunks that its stream
/// has so far: it stands in record list `rec` at place `ord`, or in `movi`
/// itself.
pub open spec fn entry_for(
    header: RiffChunkHeader,
    stream: usize,
    rec: Option<usize>,
    ord: usize,
    count: nat,
) -> AviStreamChunk {
    AviStreamChunk {
        rec_index: rec,
        chunk_index: if rec is Some {
            ord
        } else {
            count as usize
        },
        stream_index: stream,
        chunk: header,
    }
}

/// The catalog with one more chunk at the end of its stream.
#[verifier::opaque]
pub open spec fn with_chunk(cat: Catalog, header: RiffChunkHeader, rec: Option<usize>, ord: usize)
    -> Result<Catalog, AviError> {
    match stream_index_of(header.ck_id) {
        None => Err(AviError::InvalidMoviList),
        Some(s) => if s >= cat.streams.len() {
            Err(AviError::InvalidMoviList)
        } else {
            Ok(
                Catalog {
                    streams: cat.streams.update(
                        s as int,
                        cat.streams[s as int].push(
                            entry_for(header, s, rec, ord, cat.streams[s as int].len()),
                        ),
                    ),
                    recs: cat.recs,
                },
            )
        },
    }
}

/// The catalog with one more chunk at the end of record list `rec`.
pub open spec fn with_record_chunk(cat: Catalog, rec: usize, header: RiffChunkHeader) -> Catalog {
    Catalog {
        streams: cat.streams,
        recs: cat.recs.update(
            rec as int,
            RecordModel {
                header: cat.recs[rec as int].header,
                childs: cat.recs[rec as int].childs.push(header),
            },
        ),
    }
}

/// The catalog with the first `n` nodes of record list `rec` added. Every
/// node of a record list is a chunk.
pub open spec fn with_record(cat: Catalog, kids: Seq<NodeModel>, rec: usize, n: int) -> Result<
    Catalog,
    AviError,
>
    decreases n,
{
    if n <= 0 {
        Ok(cat)
    } else {
        match with_record(cat, kids, rec, n - 1) {
            Err(e) => Err(e),
            Ok(c) => match kids[n - 1] {
                NodeModel::List(_, _) => Err(AviError::InvalidMoviList),
                NodeModel::Chunk(h) => match with_chunk(c, h, Some(rec), (n - 1) as usize) {
                    Err(e) => Err(e),
                    Ok(c1) => Ok(with_record_chunk(c1, rec, h)),
                },
            },
        }
    }
}

/// The catalog with a new, empty record list.
pub open spec fn with_new_record(cat: Catalog, header: RiffListHeader) -> Catalog {
    Catalog {
        streams: cat.streams,
        recs: cat.recs.push(RecordModel { header, childs: Seq::empty() }),
    }
}

/// The catalog of the first `n` children of `movi`, for a file of
/// `streams` streams. A chunk whose id does not begin with two digits, or
/// names a stream that the file does not have, and a list that is no record
/// list, make the whole list invalid.
pub open spec fn movi_catalog(children: Seq<NodeModel>, streams: nat, n: int) -> Result<
    Catalog,
    AviError,
>
    decreases n,
{
    if n <= 0 {
        Ok(empty_catalog(streams))
    } else {
        match movi_catalog(children, streams, n - 1) {
            Err(e) => Err(e),
            Ok(cat) => match children[n - 1] {
                NodeModel::Chunk(h) => with_chunk(cat, h, None, 0),
                NodeModel::List(h, kids) => if h.list_type.0 != REC_TYPE {
                    Err(AviError::InvalidMoviList)
                } else {
                    with_record(
                        with_new_record(cat, h),
                        kids,
                        cat.recs.len() as usize,
                        kids.len() as int,
                    )
                },
            },
        }
    }
}

/// The chunks of the streams of a file.
pub open spec fn chunk_lists(lists: Seq<AviStream>) -> Seq<Seq<AviStreamChunk>> {
    Seq::new(lists.len(), |i: int| lists[i].chunks@)
}

/// Two sequences of streams describe the same streams: they differ at most
/// in the chunks.
pub open spec fn same_streams(a: Seq<AviStream>, b: Seq<AviStream>) -> bool {
    &&& a.len() == b.len()
    &&& forall|i: int|
        0 <= i < a.len() ==> (#[trigger] a[i]).index == b[i].index && a[i].format == b[i].format
}

/// The record lists of a file as mathematical values.
pub open spec fn records_of(recs: Seq<RiffChunkList>) -> Seq<RecordModel> {
    Seq::new(recs.len(), |i: int| recs[i]@)
}

/// The entry at place `k` of stream `s` says where it stands: in that
/// stream, and either at place `k` of the stream's catalog or, for a chunk
/// of a record list, at its place in that list.
pub open spec fn entry_indexed(cat: Catalog, s: int, k: int) -> bool {
    let e = cat.streams[s][k];
    &&& e.stream_index == s
    &&& match e.rec_index {
        None => e.chunk_index == k,
        Some(r) => {
            &&& r < cat.recs.len()
            &&& e.chunk_index < cat.recs[r as int].childs.len()
            &&& cat.recs[r as int].childs[e.chunk_index as int] == e.chunk
        },
    }
}

/// Every entry of the catalog says where it stands.
pub open spec fn indexed(cat: Catalog) -> bool {
    forall|s: int, k: int|
        0 <= s < cat.streams.len() && 0 <= k < cat.streams[s].len() ==> #[trigger] entry_indexed(
            cat,
            s,
            k,
        )
}

/// Stands with `AviUtil::parse_stream_index`.
pub struct AviUtil;

impl AviUtil {
    /// The stream that a chunk with the id `fourcc` belongs to.
    pub fn parse_stream_index(fourcc: &FourCC) -> (r: Result<usize, AviError>)
        ensures
            r == match stream_index_of(*fourcc) {
                Some(i) => Ok::<usize, AviError>(i),
                None => Err::<usize, AviError>(AviError::InvalidMoviList),
            },
            r matches Ok(i) ==> i < 100,
    {
        let buf = fourcc.as_bytes();
        let b0: u8 = buf[0];
        let b1: u8 = buf[1];
        if b0 < 0x30 || b0 > 0x39 || b1 < 0x30 || b1 > 0x39 {
            return Err(AviError::InvalidMoviList);
        }
        let tens: usize = (b0 - 0x30) as usize;
        let ones: usize = (b1 - 0x30) as usize;
        Ok(10 * tens + ones)
    }
}

/// Adds a chunk to the catalog of its stream.
fn add_chunk(
    lists: &mut Vec<AviStream>,
    recs: Ghost<Seq<RecordModel>>,
    header: RiffChunkHeader,
    rec: Option<usize>,
    ord: usize,
) -> (r: Result<(), AviError>)
    ensures
        same_streams(final(lists)@, old(lists)@),
        match with_chunk(Catalog { streams: chunk_lists(old(lists)@), recs: recs@ }, header, rec, ord) {
            Ok(cat) => r is Ok && cat == (Catalog { streams: chunk_lists(final(lists)@), recs: recs@ }),
            Err(e) => r == Err::<(), AviError>(e),
        },
        r is Ok && indexed(Catalog { streams: chunk_lists(old(lists)@), recs: recs@ }) && (
        rec matches Some(at) ==> at < recs@.len() && ord < recs@[at as int].childs.len()
            && recs@[at as int].childs[ord as int] == header) ==> indexed(
            Catalog { streams: chunk_lists(final(lists)@), recs: recs@ },
        ),
{
    reveal(with_chunk);
    let s = match AviUtil::parse_stream_index(&header.ck_id) {
        Err(e) => {
            return Err(e);
        },
        Ok(s) => s,
    };
    if s >= lists.len() {
        return Err(AviError::InvalidMoviList);
    }
    let count = lists[s].chunks.len();
    let entry = AviStreamChunk {
        rec_index: rec,
        chunk_index: if rec.is_some() {
            ord
        } else {
            count
        },
        stream_index: s,
        chunk: header,
    };
    lists[s].chunks.push(entry);
    proof {
        let before = chunk_lists(old(lists)@);
        assert(chunk_lists(lists@) =~= before.update(s as int, before[s as int].push(entry)));
        let was = Catalog { streams: before, recs: recs@ };
        let now = Catalog { streams: chunk_lists(lists@), recs: recs@ };
        if indexed(was) && (rec matches Some(at) ==> at < recs@.len() && ord
            < recs@[at as int].childs.len() && recs@[at as int].childs[ord as int] == header) {
            assert forall|t: int, k: int|
                0 <= t < now.streams.len() && 0 <= k < now.streams[t].len() implies #[trigger] entry_indexed(
                now,
                t,
                k,
            ) by {
                if t != s || k < count {
                    assert(entry_indexed(was, t, k));
                }
            }
        }
    }
    Ok(())
}

/// The catalog that the two vectors stand for.
pub open spec fn catalog_of(lists: Seq<AviStream>, recs: Seq<RiffChunkList>) -> Catalog {
    Catalog { streams: chunk_lists(lists), recs: records_of(recs) }
}

/// Adds a chunk to the end of record list `rec`.
fn add_record_chunk(recs: &mut Vec<RiffChunkList>, lists: Ghost<Seq<AviStream>>, rec: usize, header: RiffChunkHeader)
    requires
        rec < old(recs)@.len(),
    ensures
        final(recs)@.len() == old(recs)@.len(),
        catalog_of(lists@, final(recs)@) == with_record_chunk(
            catalog_of(lists@, old(recs)@),
            rec,
            header,
        ),
        final(recs)@[rec as int].childs@ == old(recs)@[rec as int].childs@.push(header),
        indexed(catalog_of(lists@, old(recs)@)) ==> indexed(catalog_of(lists@, final(recs)@)),
{
    let ghost before = records_of(recs@);
    recs[rec].childs.push(header);
    proof {
        assert(records_of(recs@) =~= before.update(
            rec as int,
            RecordModel {
                header: before[rec as int].header,
                childs: before[rec as int].childs.push(header),
            },
        ));
        let was = catalog_of(lists@, old(recs)@);
        let now = catalog_of(lists@, recs@);
        if indexed(was) {
            assert forall|t: int, k: int|
                0 <= t < now.streams.len() && 0 <= k < now.streams[t].len() implies #[trigger] entry_indexed(
                now,
                t,
                k,
            ) by {
                assert(entry_indexed(was, t, k));
            }
        }
    }
}

/// Adds a record list and its chunks.
fn add_record(
    lists: &mut Vec<AviStream>,
    recs: &mut Vec<RiffChunkList>,
    header: RiffListHeader,
    kids: &Vec<RiffNode>,
) -> (r: Result<(), AviError>)
    ensures
        same_streams(final(lists)@, old(lists)@),
        match with_record(
            with_new_record(catalog_of(old(lists)@, old(recs)@), header),
            models_of(kids@),
            old(recs)@.len() as usize,
            kids@.len() as int,
        ) {
            Ok(cat) => r is Ok && cat == catalog_of(final(lists)@, final(recs)@),
            Err(e) => r == Err::<(), AviError>(e),
        },
        r is Ok && indexed(catalog_of(old(lists)@, old(recs)@)) ==> indexed(
            catalog_of(final(lists)@, final(recs)@),
        ),
{
    let rec = recs.len();
    let ghost km = models_of(kids@);
    let ghost opened = with_new_record(catalog_of(lists@, recs@), header);
    recs.push(RiffChunkList { header, childs: Vec::new() });
    assert(records_of(recs@) =~= opened.recs);
    proof {
        let was = catalog_of(old(lists)@, old(recs)@);
        let now = catalog_of(lists@, recs@);
        if indexed(was) {
            assert forall|t: int, k: int|
                0 <= t < now.streams.len() && 0 <= k < now.streams[t].len() implies #[trigger] entry_indexed(
                now,
                t,
                k,
            ) by {
                assert(entry_indexed(was, t, k));
            }
        }
    }
    let mut j: usize = 0;
    while j < kids.len()
        invariant
            j <= kids@.len(),
            recs@[rec as int].childs@.len() == j,
            indexed(catalog_of(old(lists)@, old(recs)@)) ==> indexed(catalog_of(lists@, recs@)),
            km == models_of(kids@),
            same_streams(lists@, old(lists)@),
            rec < recs@.len(),
            rec == old(recs)@.len(),
            opened == with_new_record(catalog_of(old(lists)@, old(recs)@), header),
            with_record(opened, km, rec, j as int) == Ok::<Catalog, AviError>(
                catalog_of(lists@, recs@),
            ),
        decreases kids@.len() - j,
    {
        assert(km[j as int] == kids@[j as int]@);
        let h = match &kids[j] {
            RiffNode::List(_) => {
                proof {
                    lemma_with_record_error_stays(opened, km, rec, j + 1, kids@.len() as int);
                }
                return Err(AviError::InvalidMoviList);
            },
            RiffNode::Chunk(c) => c.header,
        };
        let ghost was = catalog_of(lists@, recs@);
        add_record_chunk(recs, Ghost(lists@), rec, h);
        proof {
            lemma_record_chunk_first(was, rec, h, j);
        }
        match add_chunk(lists, Ghost(records_of(recs@)), h, Some(rec), j) {
            Err(e) => {
                proof {
                    lemma_with_record_error_stays(opened, km, rec, j + 1, kids@.len() as int);
                }
                return Err(e);
            },
            Ok(()) => {},
        }
        j += 1;
    }
    Ok(())
}

/// Computes the catalog of the children of `movi`: fills in the chunks of
/// each stream and gives the record lists.
pub fn build_catalog(children: &[RiffNode], movi: &mut Vec<AviStream>) -> (r: Result<
    Vec<RiffChunkList>,
    AviError,
>)
    requires
        forall|i: int| 0 <= i < old(movi)@.len() ==> (#[trigger] old(movi)@[i]).chunks@.len() == 0,
    ensures
        same_streams(final(movi)@, old(movi)@),
        match r {
            Ok(recs) => movi_catalog(
                models_of(children@),
                old(movi)@.len(),
                children@.len() as int,
            ) == Ok::<Catalog, AviError>(catalog_of(final(movi)@, recs@)),
            Err(e) => movi_catalog(models_of(children@), old(movi)@.len(), children@.len() as int)
                == Err::<Catalog, AviError>(e),
        },
        r matches Ok(recs) ==> indexed(catalog_of(final(movi)@, recs@)) && total_chunks(
            chunk_lists(final(movi)@),
        ) == leaf_count(models_of(children@), children@.len() as int),
{
    let ghost cm = models_of(children@);
    let ghost streams = movi@.len();
    proof {
        lemma_catalog_is_complete(cm, streams, children@.len() as int);
    }
    let mut recs: Vec<RiffChunkList> = Vec::new();
    assert forall|i: int| 0 <= i < streams implies chunk_lists(movi@)[i]
        == Seq::<AviStreamChunk>::empty() by {
        assert(movi@[i].chunks@ =~= Seq::empty());
    }
    assert(chunk_lists(movi@) =~= empty_catalog(streams).streams);
    assert(records_of(recs@) =~= Seq::empty());
    let mut i: usize = 0;
    while i < children.len()
        invariant
            i <= children@.len(),
            cm == models_of(children@),
            streams == old(movi)@.len(),
            same_streams(movi@, old(movi)@),
            indexed(catalog_of(movi@, recs@)),
            movi_catalog(cm, streams, children@.len() as int) matches Ok(cat) ==> total_chunks(
                cat.streams,
            ) == leaf_count(cm, children@.len() as int),
            movi_catalog(cm, streams, i as int) == Ok::<Catalog, AviError>(
                catalog_of(movi@, recs@),
            ),
        decreases children@.len() - i,
    {
        assert(cm[i as int] == children@[i as int]@);
        let added = match &children[i] {
            RiffNode::Chunk(c) => add_chunk(movi, Ghost(records_of(recs@)), c.header, None, 0),
            RiffNode::List(l) => {
                if l.header.list_type.0 != REC_TYPE {
                    Err(AviError::InvalidMoviList)
                } else {
                    add_record(movi, &mut recs, l.header, &l.childs)
                }
            },
        };
        match added {
            Err(e) => {
                proof {
                    lemma_movi_catalog_error_stays(cm, streams, i + 1, children@.len() as int);
                }
                return Err(e);
            },
            Ok(()) => {},
        }
        i += 1;
    }
    Ok(recs)
}

/// It makes no difference whether a chunk of a record list is added to
/// the list first or to its stream first.
proof fn lemma_record_chunk_first(cat: Catalog, rec: usize, header: RiffChunkHeader, ord: usize)
    ensures
        with_chunk(with_record_chunk(cat, rec, header), header, Some(rec), ord) == match with_chunk(
            cat,
            header,
            Some(rec),
            ord,
        ) {
            Err(e) => Err::<Catalog, AviError>(e),
            Ok(c) => Ok(with_record_chunk(c, rec, header)),
        },
{
    reveal(with_chunk);
}

/// Once a node has made the list invalid, more nodes change nothing.
pub proof fn lemma_movi_catalog_error_stays(children: Seq<NodeModel>, streams: nat, n: int, m: int)
    requires
        n <= m,
        movi_catalog(children, streams, n) is Err,
    ensures
        movi_catalog(children, streams, m) == movi_catalog(children, streams, n),
    decreases m - n,
{
    if n < m {
        lemma_movi_catalog_error_stays(children, streams, n, m - 1);
    }
}

/// Once a node has made a record list invalid, more nodes change nothing.
pub proof fn lemma_with_record_error_stays(
    cat: Catalog,
    kids: Seq<NodeModel>,
    rec: usize,
    n: int,
    m: int,
)
    requires
        n <= m,
        with_record(cat, kids, rec, n) is Err,
    ensures
        with_record(cat, kids, rec, m) == with_record(cat, kids, rec, n),
    decreases m - n,
{
    if n < m {
        lemma_with_record_error_stays(cat, kids, rec, n, m - 1);
    }
}

/// The number of chunks in the catalogs of all streams together.
pub open spec fn total_chunks(streams: Seq<Seq<AviStreamChunk>>) -> nat
    decreases streams.len(),
{
    if streams.len() == 0 {
        0
    } else {
        total_chunks(streams.drop_last()) + streams.last().len()
    }
}

/// The number of media chunks among the first `n` children of `movi`: the
/// chunks that stand in `movi` itself, and the nodes of its lists.
pub open spec fn leaf_count(children: Seq<NodeModel>, n: int) -> nat
    decreases n,
{
    if n <= 0 {
        0
    } else {
        leaf_count(children, n - 1) + match children[n - 1] {
            NodeModel::Chunk(_) => 1,
            NodeModel::List(_, kids) => kids.len(),
        }
    }
}

/// One more chunk in one stream is one more chunk in all.
pub proof fn lemma_total_chunks_push(streams: Seq<Seq<AviStreamChunk>>, s: int, c: AviStreamChunk)
    requires
        0 <= s < streams.len(),
    ensures
        total_chunks(streams.update(s, streams[s].push(c))) == total_chunks(streams) + 1,
    decreases streams.len(),
{
    let grown = streams.update(s, streams[s].push(c));
    if s == streams.len() - 1 {
        assert(grown.drop_last() =~= streams.drop_last());
    } else {
        lemma_total_chunks_push(streams.drop_last(), s, c);
        assert(grown.drop_last() =~= streams.drop_last().update(s, streams[s].push(c)));
    }
}

/// Streams without chunks have no chunks.
pub proof fn lemma_total_chunks_empty(n: nat)
    ensures
        total_chunks(empty_catalog(n).streams) == 0,
    decreases n,
{
    if n > 0 {
        lemma_total_chunks_empty((n - 1) as nat);
        assert(empty_catalog(n).streams.drop_last() =~= empty_catalog((n - 1) as nat).streams);
    }
}

/// A chunk that is added is one more chunk, in a catalog of as many
/// streams and record lists.
pub proof fn lemma_with_chunk_counts(cat: Catalog, header: RiffChunkHeader, rec: Option<usize>, ord: usize)
    ensures
        with_chunk(cat, header, rec, ord) matches Ok(c) ==> {
            &&& total_chunks(c.streams) == total_chunks(cat.streams) + 1
            &&& c.streams.len() == cat.streams.len()
            &&& c.recs == cat.recs
        },
{
    reveal(with_chunk);
    if let Some(s) = stream_index_of(header.ck_id) {
        if s < cat.streams.len() {
            lemma_total_chunks_push(
                cat.streams,
                s as int,
                entry_for(header, s, rec, ord, cat.streams[s as int].len()),
            );
        }
    }
}

/// The first `n` nodes of a record list that was added are `n` more
/// chunks.
pub proof fn lemma_with_record_counts(cat: Catalog, kids: Seq<NodeModel>, rec: usize, n: int)
    requires
        0 <= n,
        rec < cat.recs.len(),
    ensures
        with_record(cat, kids, rec, n) matches Ok(c) ==> {
            &&& total_chunks(c.streams) == total_chunks(cat.streams) + n
            &&& c.streams.len() == cat.streams.len()
            &&& c.recs.len() == cat.recs.len()
        },
    decreases n,
{
    if n > 0 {
        lemma_with_record_counts(cat, kids, rec, n - 1);
        if let Ok(c) = with_record(cat, kids, rec, n - 1) {
            if let NodeModel::Chunk(h) = kids[n - 1] {
                lemma_with_chunk_counts(c, h, Some(rec), (n - 1) as usize);
            }
        }
    }
}

/// Every media chunk of `movi` stands in the catalog of one stream: the
/// catalogs hold as many chunks as `movi` holds in itself and in its record
/// lists.
pub proof fn lemma_catalog_is_complete(children: Seq<NodeModel>, streams: nat, n: int)
    requires
        0 <= n,
    ensures
        movi_catalog(children, streams, n) matches Ok(cat) ==> {
            &&& total_chunks(cat.streams) == leaf_count(children, n)
            &&& cat.streams.len() == streams
        },
    decreases n,
{
    if n == 0 {
        lemma_total_chunks_empty(streams);
    } else {
        lemma_catalog_is_complete(children, streams, n - 1);
        if let Ok(cat) = movi_catalog(children, streams, n - 1) {
            match children[n - 1] {
                NodeModel::Chunk(h) => {
                    lemma_with_chunk_counts(cat, h, None, 0);
                },
                NodeModel::List(h, kids) => {
                    lemma_with_record_counts(
                        with_new_record(cat, h),
                        kids,
                        cat.recs.len() as usize,
                        kids.len() as int,
                    );
                },
            }
        }
    }
}

} // verus!
