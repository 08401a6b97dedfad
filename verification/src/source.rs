//! Where the bytes of a header come from.
//!
//! The header of an AVI file is a few small records at places that the RIFF
//! tree names. The functions that decode it never read: they take a
//! [`ByteSource`], which is either the whole file in memory or the runs of
//! bytes that were read so far. Where a run is missing the function stops
//! with [`Fetch::Need`]; the caller reads the run, by whatever means, puts
//! it into its [`FetchCache`] and calls again.

use crate::error::ReadError;
use crate::walk::ReadRequest;
use vstd::prelude::*;
use vstd::slice::slice_subrange;

verus! {

/// Why a function that takes its bytes from a source stopped.
#[derive(Clone, Copy, Debug, PartialEq, Eq, Structural)]
pub enum Fetch {
    /// The source does not hold these bytes yet.
    Need(ReadRequest),
    Failed(ReadError),
}

/// A source as a mathematical value.
pub enum SourceModel {
    /// All the bytes.
    Whole(Seq<u8>),
    /// The length of the source and the runs that are known, oldest first.
    Parts(nat, Seq<(ReadRequest, Seq<u8>)>),
}

/// The first run from index `from` on that was read for `q` and has the
/// length that `q` asks for.
pub open spec fn find_run(parts: Seq<(ReadRequest, Seq<u8>)>, q: ReadRequest, from: int) -> Option<
    Seq<u8>,
>
    decreases parts.len() - from,
{
    if from < 0 || from >= parts.len() {
        None
    } else if parts[from].0 == q && parts[from].1.len() == q.len {
        Some(parts[from].1)
    } else {
        find_run(parts, q, from + 1)
    }
}

impl SourceModel {
    /// The length of the source.
    pub open spec fn len(self) -> nat {
        match self {
            SourceModel::Whole(data) => data.len(),
            SourceModel::Parts(len, _) => len,
        }
    }

    /// The `len` bytes at `offset`: an early end where the source is
    /// shorter, and a need where the run is not known.
    pub open spec fn fetch(self, offset: int, len: int) -> Result<Seq<u8>, Fetch> {
        if offset + len > self.len() {
            Err(Fetch::Failed(ReadError::UnexpectedEof))
        } else {
            match self {
                SourceModel::Whole(data) => Ok(data.subrange(offset, offset + len)),
                SourceModel::Parts(_, parts) => {
                    let q = ReadRequest { offset: offset as u64, len: len as u64 };
                    match find_run(parts, q, 0) {
                        Some(bytes) => Ok(bytes),
                        None => Err(Fetch::Need(q)),
                    }
                },
            }
        }
    }

    /// What the source knows is what `data` holds.
    pub open spec fn agrees(self, data: Seq<u8>) -> bool {
        match self {
            SourceModel::Whole(d) => d == data,
            SourceModel::Parts(len, parts) => {
                &&& len == data.len()
                &&& forall|i: int|
                    #![trigger parts[i]]
                    0 <= i < parts.len() && parts[i].0.offset + parts[i].0.len <= data.len()
                        ==> parts[i].1 == parts[i].0.of(data)
            },
        }
    }
}

/// The runs of a source that were read so far.
pub struct FetchCache {
    pub file_len: u64,
    pub runs: Vec<(ReadRequest, Vec<u8>)>,
}

/// The runs of a cache as mathematical values.
pub open spec fn runs_of(runs: Seq<(ReadRequest, Vec<u8>)>) -> Seq<(ReadRequest, Seq<u8>)> {
    Seq::new(runs.len(), |i: int| (runs[i].0, runs[i].1@))
}

impl View for FetchCache {
    type V = SourceModel;

    open spec fn view(&self) -> SourceModel {
        SourceModel::Parts(self.file_len as nat, runs_of(self.runs@))
    }
}

impl FetchCache {
    /// A cache for a source of `file_len` bytes, with nothing read yet.
    pub fn new(file_len: u64) -> (r: FetchCache)
        ensures
            r@ == SourceModel::Parts(file_len as nat, Seq::empty()),
    {
        let r = FetchCache { file_len, runs: Vec::new() };
        assert(runs_of(r.runs@) =~= Seq::empty());
        r
    }

    /// Keeps the bytes that were read for `request`.
    pub fn insert(&mut self, request: ReadRequest, bytes: Vec<u8>)
        ensures
            final(self)@ == SourceModel::Parts(
                old(self).file_len as nat,
                runs_of(old(self).runs@).push((request, bytes@)),
            ),
    {
        self.runs.push((request, bytes));
        assert(runs_of(self.runs@) =~= runs_of(old(self).runs@).push((request, bytes@)));
    }

    /// The bytes that were read for `request`, if any were.
    pub fn get(&self, request: ReadRequest) -> (r: Option<&[u8]>)
        ensures
            match r {
                Some(bytes) => find_run(runs_of(self.runs@), request, 0) == Some(bytes@)
                    && bytes@.len() == request.len,
                None => find_run(runs_of(self.runs@), request, 0) is None,
            },
    {
        let mut i: usize = 0;
        while i < self.runs.len()
            invariant
                i <= self.runs@.len(),
                find_run(runs_of(self.runs@), request, 0) == find_run(
                    runs_of(self.runs@),
                    request,
                    i as int,
                ),
            decreases self.runs@.len() - i,
        {
            if self.runs[i].0.offset == request.offset && self.runs[i].0.len == request.len
                && self.runs[i].1.len() as u64 == request.len {
                return Some(self.runs[i].1.as_slice());
            }
            i += 1;
        }
        None
    }
}

/// A source of bytes: a whole file in memory, or the runs read so far.
pub enum ByteSource<'a> {
    Memory(&'a [u8]),
    Fetched(&'a FetchCache),
}

impl<'a> View for ByteSource<'a> {
    type V = SourceModel;

    open spec fn view(&self) -> SourceModel {
        match self {
            ByteSource::Memory(data) => SourceModel::Whole(data@),
            ByteSource::Fetched(cache) => cache@,
        }
    }
}

impl<'a> ByteSource<'a> {
    /// The length of the source.
    pub fn len(&self) -> (r: u64)
        ensures
            r == self@.len(),
    {
        match self {
            ByteSource::Memory(data) => data.len() as u64,
            ByteSource::Fetched(cache) => cache.file_len,
        }
    }

    /// The `len` bytes at `offset`.
    pub fn fetch(&self, offset: u64, len: u64) -> (r: Result<&'a [u8], Fetch>)
        ensures
            match r {
                Ok(bytes) => self@.fetch(offset as int, len as int) == Ok::<Seq<u8>, Fetch>(bytes@),
                Err(e) => self@.fetch(offset as int, len as int) == Err::<Seq<u8>, Fetch>(e),
            },
            r matches Ok(bytes) ==> bytes@.len() == len,
    {
        match self {
            ByteSource::Memory(data) => {
                let total = data.len();
                if len > total as u64 || offset > total as u64 - len {
                    return Err(Fetch::Failed(ReadError::UnexpectedEof));
                }
                Ok(slice_subrange(*data, offset as usize, (offset + len) as usize))
            },
            ByteSource::Fetched(cache) => {
                if len > cache.file_len || offset > cache.file_len - len {
                    return Err(Fetch::Failed(ReadError::UnexpectedEof));
                }
                let q = ReadRequest { offset, len };
                match cache.get(q) {
                    Some(bytes) => Ok(bytes),
                    None => Err(Fetch::Need(q)),
                }
            },
        }
    }
}

/// A run that a source which agrees with `data` knows is a run of `data`.
pub proof fn lemma_find_run_agrees(
    parts: Seq<(ReadRequest, Seq<u8>)>,
    q: ReadRequest,
    from: int,
    data: Seq<u8>,
)
    requires
        SourceModel::Parts(data.len(), parts).agrees(data),
        q.offset + q.len <= data.len(),
    ensures
        find_run(parts, q, from) matches Some(b) ==> b == q.of(data),
    decreases parts.len() - from,
{
    if 0 <= from < parts.len() {
        if parts[from].0 == q && parts[from].1.len() == q.len {
            assert(SourceModel::Parts(data.len(), parts) matches SourceModel::Parts(_, p) && p
                == parts);
        } else {
            lemma_find_run_agrees(parts, q, from + 1, data);
        }
    }
}

/// What a source that agrees with `data` gives for a run is what `data`
/// itself gives, unless the source does not know the run.
pub proof fn lemma_fetch_agrees(src: SourceModel, data: Seq<u8>, offset: int, len: int)
    requires
        src.agrees(data),
        0 <= offset <= u64::MAX,
        0 <= len <= u64::MAX,
    ensures
        !(src.fetch(offset, len) matches Err(Fetch::Need(_))) ==> src.fetch(offset, len)
            == SourceModel::Whole(data).fetch(offset, len),
{
    match src {
        SourceModel::Whole(_) => {},
        SourceModel::Parts(_, parts) => {
            if offset + len <= data.len() {
                let q = ReadRequest { offset: offset as u64, len: len as u64 };
                lemma_find_run_agrees(parts, q, 0, data);
            }
        },
    }
}

} // verus!
