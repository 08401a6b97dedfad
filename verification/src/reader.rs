//! A parsed AVI file: its header, its RIFF tree and the catalog of its media
//! chunks, and the reading of chunks by their place in the file.
//!
//! Nothing here reads a file. [`AviAsyncReader::read_header`] takes the
//! bytes of a whole file. A caller that reads on demand, blocking or not,
//! walks the tree with a [`crate::walk::RiffWalker`], calls
//! [`AviHeader::read`] with the runs it has read until no run is missing,
//! and then [`AviAsyncReader::assemble`].

use crate::error::{AviError, ReadError};
use crate::header::{header_from, top_level, AviHeader, HeaderModel, TopLevel};
use crate::header::{lemma_header_agrees, lemma_top_level_in_range, settled};
use crate::index::{
    build_catalog, catalog_of, indexed, leaf_count, movi_catalog, total_chunks, AviStream,
    AviStreamChunk, Catalog, RecordModel, RiffChunkList,
};
use crate::riff::{riff_tree_of, RiffTree, TreeModel};
use crate::source::{ByteSource, Fetch, SourceModel};
use crate::walk::ReadRequest;
use vstd::prelude::*;
use vstd::slice::slice_subrange;

verus! {

/// A parsed file. The fields are set once, by [`AviAsyncReader::assemble`].
#[derive(Debug, PartialEq, Eq)]
pub struct AviAsyncReader {
    pub header: AviHeader,
    pub riff_tree: RiffTree,
    /// One entry per stream, with the stream's chunks in file order.
    pub movi: Vec<AviStream>,
    /// The record lists of `movi`, in file order.
    pub recs: Vec<RiffChunkList>,
}

/// A parsed file as a mathematical value.
pub struct ReaderModel {
    pub header: HeaderModel,
    pub tree: TreeModel,
    pub catalog: Catalog,
}

impl View for AviAsyncReader {
    type V = ReaderModel;

    open spec fn view(&self) -> ReaderModel {
        ReaderModel {
            header: self.header@,
            tree: self.riff_tree@,
            catalog: catalog_of(self.movi@, self.recs@),
        }
    }
}

/// The catalog of the media chunks of a file of `streams` streams. A file
/// without `movi` has none.
pub open spec fn catalog_from(tree: TreeModel, streams: nat) -> Result<Catalog, AviError> {
    match top_level(tree.childs, tree.childs.len() as int) {
        Err(e) => Err(e),
        Ok(t) => match t.movi {
            None => Err(AviError::MoviNotFound),
            Some(m) => {
                let children = tree.childs[m as int].childs();
                movi_catalog(children, streams, children.len() as int)
            },
        },
    }
}

/// The number of media chunks in `movi`, those of its record lists
/// included; 0 for a file without `movi`.
pub open spec fn media_chunk_count(tree: TreeModel) -> nat {
    match top_level(tree.childs, tree.childs.len() as int) {
        Ok(t) => match t.movi {
            Some(m) => {
                let children = tree.childs[m as int].childs();
                leaf_count(children, children.len() as int)
            },
            None => 0,
        },
        Err(_) => 0,
    }
}

/// The file that `tree` and `src` hold: the header first, then the catalog.
pub open spec fn reader_from(src: SourceModel, tree: TreeModel) -> Result<ReaderModel, Fetch> {
    match header_from(src, tree) {
        Err(e) => Err(e),
        Ok(header) => match catalog_from(tree, header.strl.len()) {
            Err(e) => Err(Fetch::Failed(ReadError::Avi(e))),
            Ok(catalog) => Ok(ReaderModel { header, tree, catalog }),
        },
    }
}

/// Why reading from a whole file stopped. A whole file has every run, so
/// the first case does not occur.
pub open spec fn whole_file_error(e: Fetch) -> ReadError {
    match e {
        Fetch::Need(_) => ReadError::UnexpectedEof,
        Fetch::Failed(e) => e,
    }
}

/// The file that `data` holds.
pub open spec fn avi_file_of(data: Seq<u8>) -> Result<ReaderModel, ReadError> {
    match riff_tree_of(data) {
        Err(e) => Err(e),
        Ok(tree) => match reader_from(SourceModel::Whole(data), tree) {
            Err(e) => Err(whole_file_error(e)),
            Ok(m) => Ok(m),
        },
    }
}

/// Where a chunk of a record list lies in a buffer that holds the list from
/// its first child on: the offsets of its first byte and behind its last.
pub open spec fn slice_span(rec: RecordModel, k: int) -> (int, int) {
    let start = rec.childs[k].data_pos - rec.header.data_pos;
    (start, start + rec.childs[k].ck_size)
}

/// A buffer of `buf_len` bytes holds every chunk of the record list.
pub open spec fn record_fits(rec: RecordModel, buf_len: int) -> bool {
    forall|k: int|
        0 <= k < rec.childs.len() ==> 0 <= (#[trigger] slice_span(rec, k)).0 && slice_span(
            rec,
            k,
        ).1 <= buf_len
}

/// Copies `bytes` to the front of `buf` and leaves the rest of `buf`.
fn copy_to_front(buf: &mut [u8], bytes: &[u8])
    requires
        bytes@.len() <= old(buf)@.len(),
    ensures
        final(buf)@.len() == old(buf)@.len(),
        final(buf)@.subrange(0, bytes@.len() as int) == bytes@,
        final(buf)@.subrange(bytes@.len() as int, old(buf)@.len() as int) == old(buf)@.subrange(
            bytes@.len() as int,
            old(buf)@.len() as int,
        ),
{
    let n = bytes.len();
    let mut k: usize = 0;
    while k < n
        invariant
            k <= n,
            n == bytes@.len(),
            n <= buf@.len(),
            buf@.len() == old(buf)@.len(),
            buf@.subrange(0, k as int) == bytes@.subrange(0, k as int),
            buf@.subrange(n as int, buf@.len() as int) == old(buf)@.subrange(
                n as int,
                buf@.len() as int,
            ),
        decreases n - k,
    {
        let ghost prev = buf@;
        buf[k] = bytes[k];
        proof {
            assert(buf@.subrange(0, k + 1) =~= prev.subrange(0, k as int).push(bytes@[k as int]));
            assert(bytes@.subrange(0, k + 1) =~= bytes@.subrange(0, k as int).push(
                bytes@[k as int],
            ));
            assert(buf@.subrange(n as int, buf@.len() as int) =~= prev.subrange(
                n as int,
                buf@.len() as int,
            ));
        }
        k += 1;
    }
    assert(bytes@.subrange(0, n as int) =~= bytes@);
}

impl AviAsyncReader {
    /// The streams of the catalog are those of the header, in order.
    pub open spec fn wf(&self) -> bool {
        &&& self.movi@.len() == self.header.strl@.len()
        &&& forall|i: int|
            0 <= i < self.movi@.len() ==> (#[trigger] self.movi@[i]).index == i
                && self.movi@[i].format == self.header.strl@[i].strf
    }

    /// Puts a file together from its tree and its header: finds `movi` and
    /// catalogs its chunks.
    pub fn assemble(riff_tree: RiffTree, header: AviHeader) -> (r: Result<AviAsyncReader, AviError>)
        ensures
            match r {
                Ok(a) => {
                    &&& catalog_from(riff_tree@, header.strl@.len()) == Ok::<Catalog, AviError>(
                        a@.catalog,
                    )
                    &&& a.header == header
                    &&& a.riff_tree == riff_tree
                    &&& a.wf()
                    &&& indexed(a@.catalog)
                    &&& total_chunks(a@.catalog.streams) == media_chunk_count(riff_tree@)
                },
                Err(e) => catalog_from(riff_tree@, header.strl@.len()) == Err::<Catalog, AviError>(
                    e,
                ),
            },
    {
        let mut movi: Vec<AviStream> = Vec::new();
        let mut i: usize = 0;
        while i < header.strl.len()
            invariant
                i <= header.strl@.len(),
                movi@.len() == i,
                forall|k: int|
                    0 <= k < i ==> (#[trigger] movi@[k]).index == k && movi@[k].format
                        == header.strl@[k].strf && movi@[k].chunks@.len() == 0,
            decreases header.strl@.len() - i,
        {
            movi.push(AviStream { index: i, format: header.strl[i].strf, chunks: Vec::new() });
            i += 1;
        }
        let count = riff_tree.childs.len();
        let t = match TopLevel::find(&riff_tree.childs) {
            Err(e) => {
                return Err(e);
            },
            Ok(t) => t,
        };
        let m = match t.movi {
            None => {
                return Err(AviError::MoviNotFound);
            },
            Some(m) => m,
        };
        proof {
            lemma_top_level_in_range(riff_tree@.childs, count as int);
        }
        let ghost start = movi@;
        let built = {
            let node = &riff_tree.childs[m];
            assert(riff_tree@.childs[m as int] == node@);
            build_catalog(node.childs(), &mut movi)
        };
        match built {
            Err(e) => Err(e),
            Ok(recs) => {
                assert forall|k: int| 0 <= k < movi@.len() implies (#[trigger] movi@[k]).index == k
                    && movi@[k].format == header.strl@[k].strf by {
                    assert(start[k].index == k);
                }
                Ok(AviAsyncReader { header, riff_tree, movi, recs })
            },
        }
    }

    /// Parses the file that `data` holds.
    pub fn read_header(data: &[u8]) -> (r: Result<AviAsyncReader, ReadError>)
        ensures
            match r {
                Ok(a) => avi_file_of(data@) == Ok::<ReaderModel, ReadError>(a@) && a.wf(),
                Err(e) => avi_file_of(data@) == Err::<ReaderModel, ReadError>(e),
            },
            r matches Ok(a) ==> indexed(a@.catalog) && total_chunks(a@.catalog.streams)
                == media_chunk_count(a@.tree),
    {
        let tree = match RiffTree::read(data) {
            Err(e) => {
                return Err(e);
            },
            Ok(t) => t,
        };
        let source = ByteSource::Memory(data);
        let header = match AviHeader::read(&tree, &source) {
            Err(Fetch::Need(_)) => {
                return Err(ReadError::UnexpectedEof);
            },
            Err(Fetch::Failed(e)) => {
                return Err(e);
            },
            Ok(h) => h,
        };
        match Self::assemble(tree, header) {
            Err(e) => Err(ReadError::Avi(e)),
            Ok(a) => Ok(a),
        }
    }

    pub fn header(&self) -> (r: &AviHeader)
        ensures
            *r == self.header,
    {
        &self.header
    }

    /// The streams, each with its chunks in file order.
    pub fn streams(&self) -> (r: &Vec<AviStream>)
        ensures
            r@ == self.movi@,
    {
        &self.movi
    }

    /// The bytes to read for a chunk that stands in `movi` itself: its
    /// payload. A chunk of a record list is read with its list.
    pub fn standalone_chunk_request(chunk: &AviStreamChunk) -> (r: Result<ReadRequest, AviError>)
        ensures
            r == if chunk.rec_index is Some {
                Err::<ReadRequest, AviError>(AviError::ChunkInRecordList)
            } else {
                Ok::<ReadRequest, AviError>(
                    ReadRequest { offset: chunk.chunk.data_pos, len: chunk.chunk.ck_size as u64 },
                )
            },
    {
        if chunk.rec_index.is_some() {
            return Err(AviError::ChunkInRecordList);
        }
        Ok(ReadRequest { offset: chunk.chunk.data_pos(), len: chunk.chunk.data_size() as u64 })
    }

    /// Reads the payload of a chunk that stands in `movi` itself into the
    /// front of `buf`. A chunk of a record list is refused before the
    /// source is touched.
    pub fn read_standalone_chunk(
        &self,
        chunk: &AviStreamChunk,
        source: &ByteSource,
        buf: &mut [u8],
    ) -> (r: Result<(), Fetch>)
        requires
            old(buf)@.len() >= chunk.chunk.ck_size,
        ensures
            final(buf)@.len() == old(buf)@.len(),
            match r {
                Ok(()) => {
                    &&& chunk.rec_index is None
                    &&& source@.fetch(chunk.chunk.data_pos as int, chunk.chunk.ck_size as int)
                        == Ok::<Seq<u8>, Fetch>(final(buf)@.subrange(0, chunk.chunk.ck_size as int))
                    &&& final(buf)@.subrange(chunk.chunk.ck_size as int, old(buf)@.len() as int)
                        == old(buf)@.subrange(chunk.chunk.ck_size as int, old(buf)@.len() as int)
                },
                Err(e) => {
                    &&& final(buf)@ == old(buf)@
                    &&& e == if chunk.rec_index is Some {
                        Fetch::Failed(ReadError::Avi(AviError::ChunkInRecordList))
                    } else {
                        source@.fetch(
                            chunk.chunk.data_pos as int,
                            chunk.chunk.ck_size as int,
                        )->Err_0
                    }
                    &&& chunk.rec_index is None ==> source@.fetch(
                        chunk.chunk.data_pos as int,
                        chunk.chunk.ck_size as int,
                    ) is Err
                },
            },
    {
        let q = match Self::standalone_chunk_request(chunk) {
            Err(e) => {
                return Err(Fetch::Failed(ReadError::Avi(e)));
            },
            Ok(q) => q,
        };
        let bytes = match source.fetch(q.offset, q.len) {
            Err(e) => {
                return Err(e);
            },
            Ok(b) => b,
        };
        copy_to_front(buf, bytes);
        Ok(())
    }

    /// The bytes to read for a record list into a buffer of `buf_len`
    /// bytes: as many as the buffer takes, from the list's first child on.
    pub fn record_list_request(&self, record_list_index: usize, buf_len: u64) -> (r: Result<
        ReadRequest,
        AviError,
    >)
        ensures
            r == if record_list_index < self.recs@.len() {
                Ok::<ReadRequest, AviError>(
                    ReadRequest {
                        offset: self.recs@[record_list_index as int].header.data_pos,
                        len: buf_len,
                    },
                )
            } else {
                Err::<ReadRequest, AviError>(AviError::InvalidRecordList)
            },
    {
        if record_list_index >= self.recs.len() {
            return Err(AviError::InvalidRecordList);
        }
        Ok(ReadRequest { offset: self.recs[record_list_index].header.data_pos(), len: buf_len })
    }

    /// The least length of a buffer that holds every chunk of a record
    /// list; `None` where there is no such list, or where a chunk lies
    /// before the list's first child or ends beyond what `usize` can index.
    pub fn record_list_len(&self, record_list_index: usize) -> (r: Option<usize>)
        ensures
            r matches Some(n) ==> record_list_index < self.recs@.len() && record_fits(
                self.recs@[record_list_index as int]@,
                n as int,
            ) && forall|m: int|
                record_fits(self.recs@[record_list_index as int]@, m) && 0 <= m ==> n <= m,
            r is None && record_list_index < self.recs@.len() ==> forall|n: usize|
                !record_fits(self.recs@[record_list_index as int]@, n as int),
    {
        if record_list_index >= self.recs.len() {
            return None;
        }
        let rec = &self.recs[record_list_index];
        let base = rec.header.data_pos;
        let mut need: usize = 0;
        let mut k: usize = 0;
        while k < rec.childs.len()
            invariant
                k <= rec.childs@.len(),
                base == rec.header.data_pos,
                record_list_index < self.recs@.len(),
                *rec == self.recs@[record_list_index as int],
                need == 0 || exists|j: int| 0 <= j < k && (#[trigger] slice_span(rec@, j)).1 == need,
                forall|j: int|
                    0 <= j < k ==> 0 <= (#[trigger] slice_span(rec@, j)).0 && slice_span(rec@, j).1
                        <= need,
            decreases rec.childs@.len() - k,
        {
            let c = rec.childs[k];
            if c.data_pos < base || c.data_pos - base > usize::MAX as u64 - c.ck_size as u64 {
                proof {
                    assert(rec@.childs[k as int] == c);
                    assert(*rec == self.recs@[record_list_index as int]);
                    assert forall|n: usize| !record_fits(rec@, n as int) by {
                        let span = slice_span(rec@, k as int);
                        assert(span.0 == c.data_pos - base);
                        assert(span.1 == c.data_pos - base + c.ck_size);
                        assert(!(0 <= span.0 && span.1 <= n));
                    }
                }
                return None;
            }
            let end: usize = (c.data_pos - base + c.ck_size as u64) as usize;
            assert(slice_span(rec@, k as int).1 == end);
            if end > need {
                need = end;
            }
            k += 1;
        }
        Some(need)
    }

    /// The chunks of a record list as slices of the buffer that the list
    /// was read into, in file order.
    pub fn record_list_slices<'a>(&self, record_list_index: usize, buf: &'a [u8]) -> (r: Result<
        Vec<&'a [u8]>,
        AviError,
    >)
        requires
            record_list_index < self.recs@.len() ==> record_fits(
                self.recs@[record_list_index as int]@,
                buf@.len() as int,
            ),
        ensures
            match r {
                Ok(slices) => {
                    &&& record_list_index < self.recs@.len()
                    &&& slices@.len() == self.recs@[record_list_index as int].childs@.len()
                    &&& forall|k: int|
                        0 <= k < slices@.len() ==> (#[trigger] slices@[k])@ == buf@.subrange(
                            slice_span(self.recs@[record_list_index as int]@, k).0,
                            slice_span(self.recs@[record_list_index as int]@, k).1,
                        )
                },
                Err(e) => e == AviError::InvalidRecordList && record_list_index
                    >= self.recs@.len(),
            },
    {
        if record_list_index >= self.recs.len() {
            return Err(AviError::InvalidRecordList);
        }
        let rec = &self.recs[record_list_index];
        let base = rec.header.data_pos;
        let total = buf.len();
        let mut slices: Vec<&'a [u8]> = Vec::new();
        let mut k: usize = 0;
        while k < rec.childs.len()
            invariant
                k <= rec.childs@.len(),
                base == rec.header.data_pos,
                total == buf@.len(),
                record_fits(rec@, buf@.len() as int),
                slices@.len() == k,
                forall|j: int|
                    0 <= j < k ==> (#[trigger] slices@[j])@ == buf@.subrange(
                        slice_span(rec@, j).0,
                        slice_span(rec@, j).1,
                    ),
            decreases rec.childs@.len() - k,
        {
            let c = rec.childs[k];
            let ghost span = slice_span(rec@, k as int);
            let start: usize = (c.data_pos - base) as usize;
            let end: usize = start + c.ck_size as usize;
            slices.push(slice_subrange(buf, start, end));
            k += 1;
        }
        Ok(slices)
    }

    /// Reads a record list into `buf`, from the list's first child on and
    /// as far as `buf` reaches, and gives its chunks as slices of `buf`.
    pub fn read_record_list<'a>(
        &self,
        record_list_index: usize,
        source: &ByteSource,
        buf: &'a mut [u8],
    ) -> (r: Result<Vec<&'a [u8]>, Fetch>)
        requires
            record_list_index < self.recs@.len() ==> record_fits(
                self.recs@[record_list_index as int]@,
                old(buf)@.len() as int,
            ),
        ensures
            final(buf)@.len() == old(buf)@.len(),
            record_list_index >= self.recs@.len() ==> r == Err::<Vec<&'a [u8]>, Fetch>(
                Fetch::Failed(ReadError::Avi(AviError::InvalidRecordList)),
            ) && final(buf)@ == old(buf)@,
            record_list_index < self.recs@.len() ==> match source@.fetch(
                self.recs@[record_list_index as int].header.data_pos as int,
                old(buf)@.len() as int,
            ) {
                Err(e) => r == Err::<Vec<&'a [u8]>, Fetch>(e) && final(buf)@ == old(buf)@,
                Ok(bytes) => {
                    &&& final(buf)@ == bytes
                    &&& r matches Ok(slices)
                    &&& slices@.len() == self.recs@[record_list_index as int].childs@.len()
                    &&& forall|k: int|
                        0 <= k < slices@.len() ==> (#[trigger] slices@[k])@ == bytes.subrange(
                            slice_span(self.recs@[record_list_index as int]@, k).0,
                            slice_span(self.recs@[record_list_index as int]@, k).1,
                        )
                },
            },
    {
        let len = buf.len();
        let q = match self.record_list_request(record_list_index, len as u64) {
            Err(e) => {
                return Err(Fetch::Failed(ReadError::Avi(e)));
            },
            Ok(q) => q,
        };
        let bytes = match source.fetch(q.offset, q.len) {
            Err(e) => {
                return Err(e);
            },
            Ok(b) => b,
        };
        copy_to_front(buf, bytes);
        assert(buf@ =~= bytes@) by {
            assert(buf@.subrange(0, bytes@.len() as int) =~= buf@);
        }
        let filled: &'a [u8] = buf;
        match self.record_list_slices(record_list_index, filled) {
            Err(e) => Err(Fetch::Failed(ReadError::Avi(e))),
            Ok(slices) => Ok(slices),
        }
    }
}

/// The file that is read from runs is the file that is read from the whole:
/// what was read, and in which order and by what means, makes no difference
/// once no run is missing.
pub proof fn lemma_reader_agrees(src: SourceModel, data: Seq<u8>, tree: TreeModel)
    requires
        src.agrees(data),
        tree.wf(),
        tree.childs.len() <= usize::MAX,
        settled(reader_from(src, tree)),
    ensures
        reader_from(src, tree) == reader_from(SourceModel::Whole(data), tree),
{
    lemma_header_agrees(src, data, tree);
}

} // verus!
