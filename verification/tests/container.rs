use avi_rs::fourcc::FourCC;
use avi_rs::header::TopLevel;
use avi_rs::index::RiffChunkList;
use avi_rs::riff::{
    RiffChunk, RiffChunkHeader, RiffError, RiffHeader, RiffList, RiffListHeader, RiffNode,
    RiffTree, RiffUtil,
};
use avi_rs::source::{ByteSource, Fetch, FetchCache};
use avi_rs::walk::{ReadRequest, RiffWalker};
use avi_rs::{
    AviAsyncReader, AviBitmapInfo, AviError, AviHeader, AviMainHeader, AviStreamChunk,
    AviStreamFormat, AviStreamHeader, AviWaveExtraInfo, AviWaveInfo, AviWaveInfoExt, Guid,
    ReadError, Rect,
};

fn le32(n: u32) -> [u8; 4] {
    n.to_le_bytes()
}

fn le16(n: u16) -> [u8; 2] {
    n.to_le_bytes()
}

fn chunk(id: &[u8; 4], payload: &[u8]) -> Vec<u8> {
    let mut v = id.to_vec();
    v.extend_from_slice(&le32(payload.len() as u32));
    v.extend_from_slice(payload);
    if payload.len() % 2 == 1 {
        v.push(0);
    }
    v
}

fn list(kind: &[u8; 4], children: &[Vec<u8>]) -> Vec<u8> {
    let body: Vec<u8> = children.concat();
    let mut v = b"LIST".to_vec();
    v.extend_from_slice(&le32(body.len() as u32 + 4));
    v.extend_from_slice(kind);
    v.extend_from_slice(&body);
    v
}

fn riff(kind: &[u8; 4], children: &[Vec<u8>]) -> Vec<u8> {
    let body: Vec<u8> = children.concat();
    let mut v = b"RIFF".to_vec();
    v.extend_from_slice(&le32(body.len() as u32 + 4));
    v.extend_from_slice(kind);
    v.extend_from_slice(&body);
    v
}

fn avih() -> Vec<u8> {
    let mut v = Vec::new();
    for n in [33_367u32, 1_000_000, 2, 0x10, 250, 0, 1, 65_536, 640, 480, 0, 0, 0, 0] {
        v.extend_from_slice(&le32(n));
    }
    v
}

fn strh(kind: &[u8; 4], handler: &[u8; 4]) -> Vec<u8> {
    let mut v = kind.to_vec();
    v.extend_from_slice(handler);
    v.extend_from_slice(&le32(1));
    v.extend_from_slice(&le16(2));
    v.extend_from_slice(&le16(3));
    for n in [4u32, 5, 6, 7, 8, 9, 10, 11] {
        v.extend_from_slice(&le32(n));
    }
    for n in [-1i16, 2, 320, 240] {
        v.extend_from_slice(&n.to_le_bytes());
    }
    v
}

fn bitmap() -> Vec<u8> {
    let mut v = Vec::new();
    v.extend_from_slice(&le32(40));
    v.extend_from_slice(&640i32.to_le_bytes());
    v.extend_from_slice(&(-480i32).to_le_bytes());
    v.extend_from_slice(&le16(1));
    v.extend_from_slice(&le16(24));
    v.extend_from_slice(b"MJPG");
    v.extend_from_slice(&le32(921_600));
    v.extend_from_slice(&2835i32.to_le_bytes());
    v.extend_from_slice(&(-2835i32).to_le_bytes());
    v.extend_from_slice(&le32(0));
    v.extend_from_slice(&le32(7));
    v
}

fn wave(tag: u16) -> Vec<u8> {
    let mut v = Vec::new();
    v.extend_from_slice(&le16(tag));
    v.extend_from_slice(&le16(2));
    v.extend_from_slice(&le32(44_100));
    v.extend_from_slice(&le32(176_400));
    v.extend_from_slice(&le16(4));
    v.extend_from_slice(&le16(16));
    v
}

fn wave_extensible() -> Vec<u8> {
    let mut v = wave(0xFFFE);
    v.extend_from_slice(&le16(22));
    v.extend_from_slice(&le16(24));
    v.extend_from_slice(&le32(0x3F));
    v.extend_from_slice(&le32(0x0000_0001));
    v.extend_from_slice(&le16(0x0000));
    v.extend_from_slice(&le16(0x0010));
    v.extend_from_slice(&[0x80, 0x00, 0x00, 0xAA, 0x00, 0x38, 0x9B, 0x71]);
    v
}

fn audio_strl() -> Vec<u8> {
    list(b"strl", &[chunk(b"strh", &strh(b"auds", b"\0\0\0\0")), chunk(b"strf", &wave(1))])
}

fn video_strl() -> Vec<u8> {
    list(b"strl", &[chunk(b"strh", &strh(b"vids", b"MJPG")), chunk(b"strf", &bitmap())])
}

fn hdrl(streams: &[Vec<u8>]) -> Vec<u8> {
    let mut children = vec![chunk(b"avih", &avih())];
    children.extend_from_slice(streams);
    list(b"hdrl", &children)
}

fn idx1() -> Vec<u8> {
    chunk(b"idx1", &[0u8; 16])
}

/// One audio stream, two chunks in `movi`, no record lists.
fn sound_file() -> Vec<u8> {
    riff(
        b"AVI ",
        &[
            hdrl(&[audio_strl()]),
            list(b"movi", &[chunk(b"00wb", &[1, 2, 3, 4]), chunk(b"00wb", &[5, 6, 7])]),
            idx1(),
        ],
    )
}

/// A video and an audio stream; `movi` holds a chunk, a record list of two
/// chunks, and another chunk.
fn movie_file() -> Vec<u8> {
    riff(
        b"AVI ",
        &[
            hdrl(&[video_strl(), audio_strl()]),
            list(
                b"movi",
                &[
                    chunk(b"01wb", &[9, 9]),
                    list(b"rec ", &[chunk(b"00dc", &[1, 2, 3]), chunk(b"01wb", &[4, 5])]),
                    chunk(b"00dc", &[6]),
                ],
            ),
            idx1(),
        ],
    )
}

fn avi_with(children: &[Vec<u8>]) -> Vec<u8> {
    riff(b"AVI ", children)
}

fn movi_of(children: &[Vec<u8>]) -> Vec<u8> {
    list(b"movi", children)
}

fn tag(id: &[u8; 4]) -> FourCC {
    FourCC::from_bytes(id)
}

fn leaf(id: &[u8; 4], size: u32, data_pos: u64) -> RiffNode {
    RiffNode::Chunk(RiffChunk { header: RiffChunkHeader { ck_id: tag(id), ck_size: size, data_pos } })
}

fn header_error(data: &[u8]) -> ReadError {
    AviAsyncReader::read_header(data).unwrap_err()
}

/// Reads a tree the way a caller with a file would: run by run.
fn walk(data: &[u8]) -> Result<RiffTree, ReadError> {
    let mut walker = RiffWalker::new(data.len() as u64);
    while let Some(q) = walker.pending() {
        let bytes = &data[q.offset as usize..(q.offset + q.len) as usize];
        walker.feed(bytes)?;
    }
    walker.finish()
}

/// Reads a file the way a caller with a file would: run by run.
fn read_by_runs(data: &[u8]) -> Result<AviAsyncReader, ReadError> {
    let tree = walk(data)?;
    let mut cache = FetchCache::new(data.len() as u64);
    let header = loop {
        match AviHeader::read(&tree, &ByteSource::Fetched(&cache)) {
            Ok(h) => break h,
            Err(Fetch::Failed(e)) => return Err(e),
            Err(Fetch::Need(q)) => {
                let bytes = data[q.offset as usize..(q.offset + q.len) as usize].to_vec();
                cache.insert(q, bytes);
            }
        }
    };
    AviAsyncReader::assemble(tree, header).map_err(ReadError::Avi)
}

#[test]
fn tree_of_a_sound_file() {
    let data = sound_file();
    assert_eq!(data.len(), 248);
    let tree = RiffTree::read(&data).unwrap();
    assert_eq!(*tree.header(), RiffHeader { file_size: 240, file_type: tag(b"AVI ") });
    assert_eq!(tree.header().file_size(), 240);
    assert_eq!(tree.header().file_type(), tag(b"AVI "));
    assert_eq!(tree.childs().len(), 3);
    let expected = RiffTree {
        header: RiffHeader { file_size: 240, file_type: tag(b"AVI ") },
        childs: vec![
            RiffNode::List(RiffList {
                header: RiffListHeader { list_type: tag(b"hdrl"), list_size: 168, data_pos: 24 },
                childs: vec![
                    leaf(b"avih", 56, 32),
                    RiffNode::List(RiffList {
                        header: RiffListHeader {
                            list_type: tag(b"strl"),
                            list_size: 92,
                            data_pos: 100,
                        },
                        childs: vec![leaf(b"strh", 56, 108), leaf(b"strf", 16, 172)],
                    }),
                ],
            }),
            RiffNode::List(RiffList {
                header: RiffListHeader { list_type: tag(b"movi"), list_size: 28, data_pos: 200 },
                childs: vec![leaf(b"00wb", 4, 208), leaf(b"00wb", 3, 220)],
            }),
            leaf(b"idx1", 16, 232),
        ],
    };
    assert_eq!(tree, expected);
}

#[test]
fn nodes_answer_for_chunks_and_lists() {
    let data = sound_file();
    let tree = RiffTree::read(&data).unwrap();
    let movi = &tree.childs()[1];
    assert_eq!(movi.id(), tag(b"movi"));
    assert_eq!(movi.data_pos(), 200);
    assert_eq!(movi.data_size(), 24);
    assert_eq!(movi.padding(), 0);
    assert_eq!(movi.childs().len(), 2);
    assert_eq!(movi.as_chunk(), Err(RiffError::InvalidChunkCast));
    let as_list = movi.as_list().unwrap();
    assert_eq!(
        as_list.header(),
        RiffListHeader { list_type: tag(b"movi"), list_size: 28, data_pos: 200 }
    );
    assert_eq!(as_list.header().data_size(), 24);
    assert_eq!(as_list.header().data_pos(), 200);

    let odd = &movi.childs()[1];
    assert_eq!(odd.id(), tag(b"00wb"));
    assert_eq!(odd.data_pos(), 220);
    assert_eq!(odd.data_size(), 3);
    assert_eq!(odd.padding(), 1);
    assert!(odd.childs().is_empty());
    assert_eq!(odd.as_list(), Err(RiffError::InvalidListCast));
    let as_chunk = odd.as_chunk().unwrap();
    assert_eq!(
        as_chunk.header(),
        RiffChunkHeader { ck_id: tag(b"00wb"), ck_size: 3, data_pos: 220 }
    );
    assert_eq!(as_chunk.header().data_size(), 3);
    assert_eq!(as_chunk.header().data_pos(), 220);
    assert_eq!(movi.childs()[0].padding(), 0);
}

#[test]
fn padding_is_one_for_odd_sizes() {
    assert_eq!(RiffChunk::padding(0), 0);
    assert_eq!(RiffChunk::padding(1), 1);
    assert_eq!(RiffChunk::padding(2), 0);
    assert_eq!(RiffChunk::padding(u32::MAX), 1);
    assert_eq!(RiffChunk::padding(u32::MAX - 1), 0);
}

#[test]
fn every_node_of_a_sound_file_ends_inside_it() {
    fn check(node: &RiffNode, len: u64) {
        match node {
            RiffNode::Chunk(c) => {
                let h = c.header();
                assert!(h.data_pos() + h.data_size() as u64 <= len);
                assert!(h.data_pos() + h.data_size() as u64 + node.padding() as u64 <= len);
            }
            RiffNode::List(l) => {
                let h = l.header();
                assert!(h.data_pos() + h.data_size() as u64 <= len);
                for child in node.childs() {
                    check(child, len);
                }
            }
        }
    }
    for data in [sound_file(), movie_file()] {
        let tree = RiffTree::read(&data).unwrap();
        for node in tree.childs() {
            check(node, data.len() as u64);
        }
    }
}

#[test]
fn a_chunk_may_run_past_the_source_behind_the_first_of_its_region() {
    // The second chunk declares 16 bytes where 8 are left; measured from
    // the start of the region it still ends inside the source.
    let mut data = b"RIFF".to_vec();
    data.extend_from_slice(&le32(32));
    data.extend_from_slice(b"TEST");
    data.extend_from_slice(&chunk(b"one ", &[0; 4]));
    data.extend_from_slice(b"two ");
    data.extend_from_slice(&le32(16));
    data.extend_from_slice(&[0; 8]);
    assert_eq!(data.len(), 40);
    let tree = RiffTree::read(&data).unwrap();
    assert_eq!(tree.childs()[1], leaf(b"two ", 16, 32));
}

#[test]
fn riff_header_is_checked() {
    let good = riff(b"TEST", &[chunk(b"data", &[1, 2]), chunk(b"more", &[3, 4])]);
    assert!(RiffTree::read(&good).is_ok());

    let mut rifx = good.clone();
    rifx[3] = b'X';
    assert_eq!(RiffTree::read(&rifx), Err(ReadError::Riff(RiffError::InvalidRiffHeader)));

    let mut small = good.clone();
    small[4..8].copy_from_slice(&le32(3));
    assert_eq!(RiffTree::read(&small), Err(ReadError::Riff(RiffError::InvalidRiffHeader)));

    let mut long = good.clone();
    long[4..8].copy_from_slice(&le32(good.len() as u32 - 7));
    assert_eq!(RiffTree::read(&long), Err(ReadError::Riff(RiffError::InvalidRiffHeader)));

    assert_eq!(RiffTree::read(&good[..11]), Err(ReadError::UnexpectedEof));
    assert_eq!(RiffTree::read(&[]), Err(ReadError::UnexpectedEof));
}

#[test]
fn a_container_of_its_type_alone_is_empty() {
    let data = riff(b"TEST", &[]);
    assert_eq!(data.len(), 12);
    let tree = RiffTree::read(&data).unwrap();
    assert_eq!(tree.header().file_size(), 4);
    assert!(tree.childs().is_empty());
}

#[test]
fn chunk_bounds_are_measured_from_the_region() {
    // A single chunk that ends with the source: 12 + 8 + 4 == 24.
    let tight = riff(b"TEST", &[chunk(b"data", &[0; 4])]);
    assert_eq!(tight.len(), 24);
    assert_eq!(RiffTree::read(&tight), Err(ReadError::Riff(RiffError::InvalidChunkHeader)));

    // One more byte behind it and the chunk is accepted.
    let mut loose = tight.clone();
    loose.push(0);
    let tree = RiffTree::read(&loose).unwrap();
    assert_eq!(tree.childs(), &vec![leaf(b"data", 4, 20)]);

    let mut huge = riff(b"TEST", &[chunk(b"data", &[0; 4]), chunk(b"more", &[0; 4])]);
    huge[16..20].copy_from_slice(&le32(1000));
    assert_eq!(RiffTree::read(&huge), Err(ReadError::Riff(RiffError::InvalidChunkHeader)));
}

#[test]
fn list_headers_are_checked() {
    let good = riff(b"TEST", &[list(b"sub ", &[chunk(b"data", &[1, 2])]), chunk(b"tail", &[0; 4])]);
    assert!(RiffTree::read(&good).is_ok());

    let mut tiny = good.clone();
    tiny[16..20].copy_from_slice(&le32(3));
    assert_eq!(RiffTree::read(&tiny), Err(ReadError::Riff(RiffError::InvalidListHeader)));

    let mut huge = good.clone();
    huge[16..20].copy_from_slice(&le32(good.len() as u32 - 20));
    assert_eq!(RiffTree::read(&huge), Err(ReadError::Riff(RiffError::InvalidListHeader)));

    let mut fits = good.clone();
    fits[16..20].copy_from_slice(&le32(good.len() as u32 - 21));
    assert!(RiffTree::read(&fits).is_ok());
}

#[test]
fn an_empty_list_is_a_list_without_children() {
    let data = riff(b"TEST", &[list(b"none", &[]), chunk(b"tail", &[0; 4])]);
    let tree = RiffTree::read(&data).unwrap();
    assert_eq!(
        tree.childs()[0],
        RiffNode::List(RiffList {
            header: RiffListHeader { list_type: tag(b"none"), list_size: 4, data_pos: 24 },
            childs: vec![],
        })
    );
    assert_eq!(tree.childs()[0].data_size(), 0);
    assert_eq!(tree.childs()[1], leaf(b"tail", 4, 32));
}

#[test]
fn a_source_that_ends_in_a_header_ends_early() {
    // 26 bytes: the region ends at 26, the second header starts at 22.
    let mut declared = riff(b"TEST", &[chunk(b"data", &[1, 2]), chunk(b"more", &[3, 4])]);
    declared.truncate(26);
    declared[4..8].copy_from_slice(&le32(18));
    assert_eq!(RiffTree::read(&declared), Err(ReadError::UnexpectedEof));

    // A list whose type is cut off.
    let mut data = b"RIFF".to_vec();
    data.extend_from_slice(&le32(20));
    data.extend_from_slice(b"TEST");
    data.extend_from_slice(b"LIST");
    data.extend_from_slice(&le32(4));
    data.extend_from_slice(b"ab");
    data.extend_from_slice(&[0; 6]);
    data.truncate(22);
    data[4..8].copy_from_slice(&le32(14));
    assert_eq!(RiffTree::read(&data), Err(ReadError::UnexpectedEof));
}

#[test]
fn read_fourcc_reads_at_an_offset() {
    let data = sound_file();
    assert_eq!(RiffUtil::read_fourcc(&data, 0), Ok(tag(b"RIFF")));
    assert_eq!(RiffUtil::read_fourcc(&data, 8), Ok(tag(b"AVI ")));
    assert_eq!(RiffUtil::read_fourcc(&data, 244), Ok(FourCC::from(0)));
    assert_eq!(RiffUtil::read_fourcc(&data, 245), Err(ReadError::UnexpectedEof));
    assert_eq!(RiffUtil::read_fourcc(&data[..3], 0), Err(ReadError::UnexpectedEof));
    assert_eq!(RiffUtil::read_fourcc(&data, usize::MAX), Err(ReadError::UnexpectedEof));
}

#[test]
fn a_walker_asks_for_headers_only() {
    let data = sound_file();
    let mut walker = RiffWalker::new(data.len() as u64);
    let mut asked = Vec::new();
    while let Some(q) = walker.pending() {
        asked.push((q.offset, q.len));
        walker.feed(&data[q.offset as usize..(q.offset + q.len) as usize]).unwrap();
    }
    assert_eq!(
        asked,
        vec![
            (0, 12),
            (12, 12),
            (24, 12),
            (88, 12),
            (100, 12),
            (164, 12),
            (188, 12),
            (200, 12),
            (212, 12),
            (224, 12),
        ]
    );
    assert_eq!(walker.finish(), RiffTree::read(&data));
}

#[test]
fn a_walker_asks_for_what_is_left_near_the_end() {
    let mut data = riff(b"TEST", &[chunk(b"data", &[1, 2]), chunk(b"more", &[3])]);
    data.pop();
    assert_eq!(data.len(), 31);
    data[4..8].copy_from_slice(&le32(23));
    let mut walker = RiffWalker::new(data.len() as u64);
    assert_eq!(walker.pending(), Some(ReadRequest { offset: 0, len: 12 }));
    walker.feed(&data[0..12]).unwrap();
    assert_eq!(walker.pending(), Some(ReadRequest { offset: 12, len: 12 }));
    walker.feed(&data[12..24]).unwrap();
    assert_eq!(walker.pending(), Some(ReadRequest { offset: 22, len: 9 }));
    walker.feed(&data[22..31]).unwrap();
    assert_eq!(walker.pending(), None);
    let tree = walker.finish().unwrap();
    assert_eq!(tree.childs(), &vec![leaf(b"data", 2, 20), leaf(b"more", 1, 30)]);
}

#[test]
fn a_walker_fails_as_a_whole_read_does() {
    let mut rifx = sound_file();
    rifx[3] = b'X';
    let mut walker = RiffWalker::new(rifx.len() as u64);
    assert_eq!(
        walker.feed(&rifx[0..12]),
        Err(ReadError::Riff(RiffError::InvalidRiffHeader))
    );
    assert_eq!(walker.pending(), None);
    assert_eq!(walker.finish(), Err(ReadError::Riff(RiffError::InvalidRiffHeader)));

    let walker = RiffWalker::new(5);
    assert_eq!(walker.pending(), None);
    assert_eq!(walker.finish(), Err(ReadError::UnexpectedEof));
}

#[test]
fn walking_by_runs_gives_the_tree_of_the_whole() {
    let mut broken = sound_file();
    broken[192..196].copy_from_slice(&le32(2));
    for data in [sound_file(), movie_file(), broken, riff(b"TEST", &[]), vec![1, 2, 3]] {
        assert_eq!(walk(&data), RiffTree::read(&data));
    }
}

#[test]
fn main_header_is_decoded() {
    let parsed = AviMainHeader::parse(&avih()).unwrap();
    assert_eq!(
        parsed,
        AviMainHeader {
            dw_micro_sec_per_frame: 33_367,
            dw_max_bytes_per_sec: 1_000_000,
            dw_padding_granularity: 2,
            dw_flags: 0x10,
            dw_total_frames: 250,
            dw_initial_frames: 0,
            dw_streams: 1,
            dw_suggested_buffer_size: 65_536,
            dw_width: 640,
            dw_height: 480,
            dw_reserved: [0, 0, 0, 0],
        }
    );
    for word in 10..14 {
        let mut bytes = avih();
        bytes[4 * word + 3] = 1;
        assert_eq!(
            AviMainHeader::parse(&bytes),
            Err(ReadError::Avi(AviError::InvalidMainHeader))
        );
    }
    assert_eq!(AviMainHeader::parse(&avih()[..55]), Err(ReadError::UnexpectedEof));
}

#[test]
fn stream_header_is_decoded() {
    assert_eq!(
        AviStreamHeader::parse(&strh(b"vids", b"MJPG")),
        Ok(AviStreamHeader {
            fcc_type: tag(b"vids"),
            fcc_handler: tag(b"MJPG"),
            dw_flags: 1,
            w_priority: 2,
            w_language: 3,
            dw_initial_frames: 4,
            dw_scale: 5,
            dw_rate: 6,
            dw_start: 7,
            dw_length: 8,
            dw_suggested_buffer_size: 9,
            dw_quality: 10,
            dw_sample_size: 11,
            rc_frame: Rect { left: -1, top: 2, right: 320, bottom: 240 },
        })
    );
    assert_eq!(
        AviStreamHeader::parse(&strh(b"vids", b"MJPG")[..55]),
        Err(ReadError::UnexpectedEof)
    );
}

#[test]
fn bitmap_info_is_decoded() {
    assert_eq!(
        AviBitmapInfo::parse(&bitmap()),
        Ok(AviBitmapInfo {
            bi_size: 40,
            bi_width: 640,
            bi_height: -480,
            bi_planes: 1,
            bi_bit_count: 24,
            bi_compression: u32::from_le_bytes(*b"MJPG"),
            bi_size_image: 921_600,
            bi_x_pels_per_meter: 2835,
            bi_y_pels_per_meter: -2835,
            bi_clr_used: 0,
            bi_clr_important: 7,
        })
    );
    assert_eq!(AviBitmapInfo::parse(&bitmap()[..39]), Err(ReadError::UnexpectedEof));
}

#[test]
fn wave_info_depends_on_the_format_tag() {
    let common = |tag: u16, cb_size: Option<u16>| AviWaveInfo {
        w_format_tag: tag,
        n_channels: 2,
        n_samples_per_sec: 44_100,
        n_avg_bytes_per_sec: 176_400,
        n_block_align: 4,
        w_bits_per_sample: 16,
        cb_size,
    };
    // PCM: sixteen bytes, whatever follows.
    let mut pcm = wave(1);
    assert_eq!(
        AviWaveInfoExt::parse(&pcm),
        Ok(AviWaveInfoExt { format: common(1, None), extra: None })
    );
    pcm.extend_from_slice(&[7; 30]);
    assert_eq!(
        AviWaveInfoExt::parse(&pcm),
        Ok(AviWaveInfoExt { format: common(1, None), extra: None })
    );
    assert_eq!(AviWaveInfoExt::parse(&pcm[..15]), Err(ReadError::UnexpectedEof));

    // Any other format stores the size of what follows.
    let mut mp3 = wave(0x55);
    assert_eq!(AviWaveInfoExt::parse(&mp3), Err(ReadError::UnexpectedEof));
    assert_eq!(AviWaveInfo::parse(&mp3), Err(ReadError::UnexpectedEof));
    mp3.extend_from_slice(&le16(12));
    assert_eq!(AviWaveInfo::parse(&mp3), Ok(common(0x55, Some(12))));
    assert_eq!(
        AviWaveInfoExt::parse(&mp3),
        Ok(AviWaveInfoExt { format: common(0x55, Some(12)), extra: None })
    );

    // The extensible format has its extension.
    let ext = wave_extensible();
    assert_eq!(ext.len(), 40);
    let extra = AviWaveExtraInfo {
        samples: 24,
        dw_channel_mask: 0x3F,
        sub_format: Guid {
            data1: 1,
            data2: 0,
            data3: 0x10,
            data4: [0x80, 0x00, 0x00, 0xAA, 0x00, 0x38, 0x9B, 0x71],
        },
    };
    assert_eq!(AviWaveExtraInfo::parse(&ext), Ok(extra));
    assert_eq!(
        AviWaveInfoExt::parse(&ext),
        Ok(AviWaveInfoExt { format: common(0xFFFE, Some(22)), extra: Some(extra) })
    );
    assert_eq!(AviWaveInfoExt::parse(&ext[..39]), Err(ReadError::UnexpectedEof));
}

#[test]
fn sound_file_has_one_audio_stream() {
    let data = sound_file();
    let reader = AviAsyncReader::read_header(&data).unwrap();
    assert_eq!(reader.header().avih, AviMainHeader::parse(&avih()).unwrap());
    assert_eq!(reader.header().strl.len(), 1);
    let item = &reader.header().strl[0];
    assert_eq!(item.index, 0);
    assert_eq!(item.strh, AviStreamHeader::parse(&strh(b"auds", b"\0\0\0\0")).unwrap());
    assert_eq!(item.strf, AviStreamFormat::Audio(AviWaveInfoExt::parse(&wave(1)).unwrap()));
    assert_eq!(item.strd, None);
    assert_eq!(item.strn, None);

    let streams = reader.streams();
    assert_eq!(streams.len(), 1);
    assert_eq!(streams[0].index, 0);
    assert!(matches!(streams[0].format, AviStreamFormat::Audio(_)));
    assert_eq!(
        streams[0].chunks,
        vec![
            AviStreamChunk {
                rec_index: None,
                chunk_index: 0,
                stream_index: 0,
                chunk: RiffChunkHeader { ck_id: tag(b"00wb"), ck_size: 4, data_pos: 208 },
            },
            AviStreamChunk {
                rec_index: None,
                chunk_index: 1,
                stream_index: 0,
                chunk: RiffChunkHeader { ck_id: tag(b"00wb"), ck_size: 3, data_pos: 220 },
            },
        ]
    );
    for (position, c) in streams[0].chunks.iter().enumerate() {
        assert_eq!(c.rec_index, None);
        assert_eq!(c.chunk_index, position);
    }
    assert!(reader.recs.is_empty());
    assert_eq!(reader.riff_tree, RiffTree::read(&data).unwrap());
}

#[test]
fn movie_file_is_cataloged_by_stream_and_record() {
    let data = movie_file();
    let reader = AviAsyncReader::read_header(&data).unwrap();
    let streams = reader.streams();
    assert_eq!(streams.len(), 2);
    assert_eq!(streams[0].index, 0);
    assert_eq!(streams[1].index, 1);
    assert_eq!(streams[0].format, AviStreamFormat::Video(AviBitmapInfo::parse(&bitmap()).unwrap()));
    assert_eq!(
        streams[1].format,
        AviStreamFormat::Audio(AviWaveInfoExt::parse(&wave(1)).unwrap())
    );

    let movi = &reader.riff_tree.childs()[1];
    let base = movi.data_pos();
    let first = RiffChunkHeader { ck_id: tag(b"01wb"), ck_size: 2, data_pos: base + 8 };
    let rec_header =
        RiffListHeader { list_type: tag(b"rec "), list_size: 26, data_pos: base + 10 + 12 };
    let in_rec_0 = RiffChunkHeader { ck_id: tag(b"00dc"), ck_size: 3, data_pos: base + 30 };
    let in_rec_1 = RiffChunkHeader { ck_id: tag(b"01wb"), ck_size: 2, data_pos: base + 42 };
    let last = RiffChunkHeader { ck_id: tag(b"00dc"), ck_size: 1, data_pos: base + 52 };

    assert_eq!(
        reader.recs,
        vec![RiffChunkList { header: rec_header, childs: vec![in_rec_0, in_rec_1] }]
    );
    assert_eq!(
        streams[0].chunks,
        vec![
            AviStreamChunk { rec_index: Some(0), chunk_index: 0, stream_index: 0, chunk: in_rec_0 },
            AviStreamChunk { rec_index: None, chunk_index: 1, stream_index: 0, chunk: last },
        ]
    );
    assert_eq!(
        streams[1].chunks,
        vec![
            AviStreamChunk { rec_index: None, chunk_index: 0, stream_index: 1, chunk: first },
            AviStreamChunk { rec_index: Some(0), chunk_index: 1, stream_index: 1, chunk: in_rec_1 },
        ]
    );
    let total: usize = streams.iter().map(|s| s.chunks.len()).sum();
    assert_eq!(total, 4);
    for (s, stream) in streams.iter().enumerate() {
        for (k, c) in stream.chunks.iter().enumerate() {
            assert_eq!(c.stream_index, s);
            match c.rec_index {
                None => assert_eq!(c.chunk_index, k),
                Some(r) => assert_eq!(reader.recs[r].childs[c.chunk_index], c.chunk),
            }
        }
    }
}

#[test]
fn reading_by_runs_gives_what_reading_the_whole_gives() {
    let named = list(
        b"strl",
        &[
            chunk(b"strh", &strh(b"auds", b"\0\0\0\0")),
            chunk(b"strf", &wave_extensible()),
            chunk(b"strd", &[1, 2, 3]),
            chunk(b"strn", b"name\0"),
        ],
    );
    let with_names = avi_with(&[hdrl(&[video_strl(), named]), movi_of(&[]), idx1()]);
    let mut bad_reserved = sound_file();
    bad_reserved[32 + 43] = 1;
    let no_movi = avi_with(&[hdrl(&[audio_strl()]), idx1()]);
    for data in [sound_file(), movie_file(), with_names, bad_reserved, no_movi] {
        assert_eq!(read_by_runs(&data), AviAsyncReader::read_header(&data));
    }
}

#[test]
fn runs_are_asked_for_once_each() {
    let data = sound_file();
    let tree = RiffTree::read(&data).unwrap();
    let mut cache = FetchCache::new(data.len() as u64);
    let mut asked = Vec::new();
    let header = loop {
        match AviHeader::read(&tree, &ByteSource::Fetched(&cache)) {
            Ok(h) => break h,
            Err(Fetch::Need(q)) => {
                asked.push((q.offset, q.len));
                cache.insert(q, data[q.offset as usize..(q.offset + q.len) as usize].to_vec());
            }
            Err(Fetch::Failed(e)) => panic!("{:?}", e),
        }
    };
    assert_eq!(asked, vec![(32, 56), (108, 56), (172, 40)]);
    assert_eq!(header, AviAsyncReader::read_header(&data).unwrap().header);
}

#[test]
fn a_run_of_the_wrong_length_is_not_taken() {
    let data = sound_file();
    let tree = RiffTree::read(&data).unwrap();
    let mut cache = FetchCache::new(data.len() as u64);
    let q = ReadRequest { offset: 32, len: 56 };
    cache.insert(q, data[32..60].to_vec());
    assert_eq!(cache.get(q), None);
    assert_eq!(AviHeader::read(&tree, &ByteSource::Fetched(&cache)), Err(Fetch::Need(q)));
    cache.insert(q, data[32..88].to_vec());
    assert_eq!(cache.get(q), Some(&data[32..88]));
}

#[test]
fn sources_fetch_runs_inside_them() {
    let data = [1u8, 2, 3, 4, 5];
    let whole = ByteSource::Memory(&data);
    assert_eq!(whole.len(), 5);
    assert_eq!(whole.fetch(1, 3), Ok(&data[1..4]));
    assert_eq!(whole.fetch(5, 0), Ok(&data[5..5]));
    assert_eq!(whole.fetch(3, 3), Err(Fetch::Failed(ReadError::UnexpectedEof)));
    assert_eq!(whole.fetch(u64::MAX, 2), Err(Fetch::Failed(ReadError::UnexpectedEof)));

    let mut cache = FetchCache::new(5);
    let q = ReadRequest { offset: 1, len: 3 };
    {
        let parts = ByteSource::Fetched(&cache);
        assert_eq!(parts.len(), 5);
        assert_eq!(parts.fetch(1, 3), Err(Fetch::Need(q)));
        assert_eq!(parts.fetch(3, 3), Err(Fetch::Failed(ReadError::UnexpectedEof)));
    }
    cache.insert(q, vec![2, 3, 4]);
    let parts = ByteSource::Fetched(&cache);
    assert_eq!(parts.fetch(1, 3), Ok(&data[1..4]));
    assert_eq!(parts.fetch(1, 2), Err(Fetch::Need(ReadRequest { offset: 1, len: 2 })));
}

#[test]
fn wave_file_is_no_avi_file() {
    let data = riff(b"WAVE", &[chunk(b"fmt ", &wave(1)), chunk(b"data", &[0; 8])]);
    assert!(RiffTree::read(&data).is_ok());
    assert_eq!(header_error(&data), ReadError::Avi(AviError::InvalidRiffFileType));

    let mut rifx = sound_file();
    rifx[3] = b'X';
    assert_eq!(header_error(&rifx), ReadError::Riff(RiffError::InvalidRiffHeader));
}

#[test]
fn top_level_lists_come_once() {
    let h = hdrl(&[audio_strl()]);
    let m = movi_of(&[chunk(b"00wb", &[1, 2])]);
    let i = idx1();
    assert!(AviAsyncReader::read_header(&avi_with(&[h.clone(), m.clone(), i.clone()])).is_ok());
    assert_eq!(
        header_error(&avi_with(&[h.clone(), m.clone(), h.clone(), i.clone()])),
        ReadError::Avi(AviError::DuplicateHdrlList)
    );
    assert_eq!(
        header_error(&avi_with(&[h.clone(), m.clone(), m.clone(), i.clone()])),
        ReadError::Avi(AviError::DuplicateMoviList)
    );
    assert_eq!(
        header_error(&avi_with(&[h.clone(), m.clone(), i.clone(), i.clone()])),
        ReadError::Avi(AviError::DuplicateIdx1Chunk)
    );
    // The first id to come twice is named.
    assert_eq!(
        header_error(&avi_with(&[m.clone(), i.clone(), i.clone(), m.clone(), h.clone()])),
        ReadError::Avi(AviError::DuplicateIdx1Chunk)
    );
    assert_eq!(
        header_error(&avi_with(&[m.clone(), i.clone()])),
        ReadError::Avi(AviError::HdrlNotFound)
    );
    assert_eq!(
        header_error(&avi_with(&[h.clone(), i.clone()])),
        ReadError::Avi(AviError::MoviNotFound)
    );
    // Other nodes are passed over.
    let junk = chunk(b"JUNK", &[0; 5]);
    let info = list(b"INFO", &[chunk(b"ISFT", b"test")]);
    assert!(AviAsyncReader::read_header(&avi_with(&[junk, h, info, m, i])).is_ok());
}

#[test]
fn top_level_places_are_found() {
    let data = sound_file();
    let tree = RiffTree::read(&data).unwrap();
    assert_eq!(
        TopLevel::find(tree.childs()),
        Ok(TopLevel { hdrl: Some(0), movi: Some(1), idx1: Some(2) })
    );
    let bare = riff(b"AVI ", &[chunk(b"JUNK", &[0; 4]), idx1()]);
    let tree = RiffTree::read(&bare).unwrap();
    assert_eq!(
        TopLevel::find(tree.childs()),
        Ok(TopLevel { hdrl: None, movi: None, idx1: Some(1) })
    );
}

#[test]
fn header_list_is_checked() {
    let m = movi_of(&[]);
    let many: Vec<Vec<u8>> = (0..101).map(|_| audio_strl()).collect();
    assert_eq!(
        header_error(&avi_with(&[hdrl(&many), m.clone(), idx1()])),
        ReadError::Avi(AviError::InvalidHdrlList)
    );
    let full: Vec<Vec<u8>> = (0..100).map(|_| audio_strl()).collect();
    let reader = AviAsyncReader::read_header(&avi_with(&[hdrl(&full), m.clone(), idx1()])).unwrap();
    assert_eq!(reader.streams().len(), 100);
    assert_eq!(reader.header().strl[99].index, 99);

    let empty = list(b"hdrl", &[]);
    assert_eq!(
        header_error(&avi_with(&[empty, m.clone(), idx1()])),
        ReadError::Avi(AviError::InvalidMainHeader)
    );
    let short = list(b"hdrl", &[chunk(b"avih", &avih()[..52])]);
    assert_eq!(
        header_error(&avi_with(&[short, m.clone(), idx1()])),
        ReadError::Avi(AviError::InvalidMainHeader)
    );
    let misnamed = list(b"hdrl", &[chunk(b"avix", &avih())]);
    assert_eq!(
        header_error(&avi_with(&[misnamed, m.clone(), idx1()])),
        ReadError::Avi(AviError::InvalidMainHeader)
    );
    let mut reserved = sound_file();
    reserved[32 + 40] = 1;
    assert_eq!(header_error(&reserved), ReadError::Avi(AviError::InvalidMainHeader));
}

#[test]
fn stream_lists_are_checked() {
    let m = movi_of(&[]);
    let file = |strl: Vec<u8>| avi_with(&[hdrl(&[strl]), m.clone(), idx1()]);
    let h = chunk(b"strh", &strh(b"auds", b"\0\0\0\0"));
    let f = chunk(b"strf", &wave(1));

    assert_eq!(
        header_error(&file(list(b"strl", &[h.clone()]))),
        ReadError::Avi(AviError::InvalidStreamList)
    );
    assert_eq!(
        header_error(&file(chunk(b"JUNK", &[0; 8]))),
        ReadError::Avi(AviError::InvalidStreamList)
    );
    let five = [
        h.clone(),
        f.clone(),
        chunk(b"strd", &[1]),
        chunk(b"strn", &[2]),
        chunk(b"JUNK", &[3]),
    ];
    assert_eq!(
        header_error(&file(list(b"strl", &five))),
        ReadError::Avi(AviError::InvalidStreamList)
    );
    let short = chunk(b"strh", &strh(b"auds", b"\0\0\0\0")[..48]);
    assert_eq!(
        header_error(&file(list(b"strl", &[short, f.clone()]))),
        ReadError::Avi(AviError::InvalidStreamHeader)
    );
    let midi = chunk(b"strh", &strh(b"mids", b"\0\0\0\0"));
    assert_eq!(
        header_error(&file(list(b"strl", &[midi, f.clone()]))),
        ReadError::Avi(AviError::UnsupportedStreamType)
    );
    let text = chunk(b"strh", &strh(b"txts", b"\0\0\0\0"));
    assert_eq!(
        header_error(&file(list(b"strl", &[text, f.clone()]))),
        ReadError::Avi(AviError::UnsupportedStreamType)
    );
}

#[test]
fn stream_formats_are_checked() {
    let m = movi_of(&[]);
    let file = |strl: Vec<u8>| avi_with(&[hdrl(&[strl]), m.clone(), idx1()]);
    let audio = chunk(b"strh", &strh(b"auds", b"\0\0\0\0"));
    let video = chunk(b"strh", &strh(b"vids", b"MJPG"));

    let mut long = bitmap();
    long.extend_from_slice(&[0; 4]);
    assert_eq!(
        header_error(&file(list(b"strl", &[video.clone(), chunk(b"strf", &long)]))),
        ReadError::Avi(AviError::InvalidStreamFormatHeader)
    );
    assert_eq!(
        header_error(&file(list(b"strl", &[video.clone(), chunk(b"strf", &bitmap()[..36])]))),
        ReadError::Avi(AviError::InvalidStreamFormatHeader)
    );
    assert_eq!(
        header_error(&file(list(b"strl", &[audio.clone(), chunk(b"strf", &wave(1)[..12])]))),
        ReadError::Avi(AviError::InvalidStreamFormatHeader)
    );
    // A description that declares fourteen bytes is read as sixteen: the
    // last two are the bytes behind the chunk, here the start of `movi`.
    let declared = file(list(b"strl", &[audio.clone(), chunk(b"strf", &wave(1)[..14])]));
    let reader = AviAsyncReader::read_header(&declared).unwrap();
    let mut read_as = wave(1)[..14].to_vec();
    read_as.extend_from_slice(b"LI");
    assert_eq!(
        reader.header().strl[0].strf,
        AviStreamFormat::Audio(AviWaveInfoExt::parse(&read_as).unwrap())
    );
    // An extensible description takes forty bytes.
    let reader = AviAsyncReader::read_header(&file(list(
        b"strl",
        &[audio.clone(), chunk(b"strf", &wave_extensible())],
    )))
    .unwrap();
    assert_eq!(
        reader.header().strl[0].strf,
        AviStreamFormat::Audio(AviWaveInfoExt::parse(&wave_extensible()).unwrap())
    );
}

#[test]
fn stream_data_and_name_are_kept_with_their_padding() {
    let m = movi_of(&[]);
    let file = |extra: &[Vec<u8>]| {
        let mut children =
            vec![chunk(b"strh", &strh(b"auds", b"\0\0\0\0")), chunk(b"strf", &wave(1))];
        children.extend_from_slice(extra);
        avi_with(&[hdrl(&[list(b"strl", &children)]), m.clone(), idx1()])
    };
    let item = |data: &[u8]| {
        let reader = AviAsyncReader::read_header(data).unwrap();
        (reader.header().strl[0].strd.clone(), reader.header().strl[0].strn.clone())
    };
    assert_eq!(item(&file(&[])), (None, None));
    assert_eq!(item(&file(&[chunk(b"strd", &[1, 2, 3])])), (Some(vec![1, 2, 3, 0]), None));
    assert_eq!(item(&file(&[chunk(b"strn", b"ab")])), (None, Some(b"ab".to_vec())));
    assert_eq!(
        item(&file(&[chunk(b"strd", &[7]), chunk(b"strn", b"xyz\0")])),
        (Some(vec![7, 0]), Some(b"xyz\0".to_vec()))
    );
    assert_eq!(
        header_error(&file(&[chunk(b"JUNK", &[1, 2])])),
        ReadError::Avi(AviError::InvalidStreamAdditionalData)
    );
    assert_eq!(
        header_error(&file(&[chunk(b"strn", b"ab"), chunk(b"strd", &[1, 2])])),
        ReadError::Avi(AviError::InvalidStreamAdditionalData)
    );
    assert_eq!(
        header_error(&file(&[chunk(b"strd", &[1, 2]), chunk(b"strd", &[1, 2])])),
        ReadError::Avi(AviError::InvalidStreamAdditionalData)
    );
}

#[test]
fn faults_come_in_file_order() {
    let m = movi_of(&[chunk(b"05wb", &[1, 2])]);
    let midi = list(
        b"strl",
        &[chunk(b"strh", &strh(b"mids", b"\0\0\0\0")), chunk(b"strf", &wave(1))],
    );
    let lone = list(b"strl", &[chunk(b"strh", &strh(b"auds", b"\0\0\0\0"))]);
    assert_eq!(
        header_error(&avi_with(&[hdrl(&[midi.clone(), lone.clone()]), m.clone(), idx1()])),
        ReadError::Avi(AviError::UnsupportedStreamType)
    );
    assert_eq!(
        header_error(&avi_with(&[hdrl(&[lone.clone(), midi.clone()]), m.clone(), idx1()])),
        ReadError::Avi(AviError::InvalidStreamList)
    );
    // The header is read before `movi` is looked at.
    assert_eq!(
        header_error(&avi_with(&[hdrl(&[midi]), idx1()])),
        ReadError::Avi(AviError::UnsupportedStreamType)
    );
    assert_eq!(
        header_error(&avi_with(&[hdrl(&[audio_strl()]), m, idx1()])),
        ReadError::Avi(AviError::InvalidMoviList)
    );
}

#[test]
fn media_chunks_must_name_a_stream() {
    let file = |children: &[Vec<u8>]| avi_with(&[hdrl(&[audio_strl()]), movi_of(children), idx1()]);
    assert!(AviAsyncReader::read_header(&file(&[chunk(b"00wb", &[1, 2])])).is_ok());
    for bad in [
        chunk(b"Xxwb", &[1, 2]),
        chunk(b"01wb", &[1, 2]),
        chunk(b"JUNK", &[1, 2]),
        list(b"rec ", &[chunk(b"00wb", &[1, 2]), chunk(b"1 wb", &[1, 2])]),
        list(b"rec ", &[chunk(b"00wb", &[1, 2]), chunk(b"99wb", &[1, 2])]),
        list(b"rec ", &[list(b"rec ", &[chunk(b"00wb", &[1, 2])])]),
        list(b"odml", &[chunk(b"00wb", &[1, 2])]),
    ] {
        assert_eq!(
            header_error(&file(&[chunk(b"00wb", &[1, 2]), bad])),
            ReadError::Avi(AviError::InvalidMoviList)
        );
    }
}

#[test]
fn a_record_list_may_be_empty() {
    let data = avi_with(&[
        hdrl(&[audio_strl()]),
        movi_of(&[list(b"rec ", &[]), list(b"rec ", &[chunk(b"00wb", &[1, 2])])]),
        idx1(),
    ]);
    let reader = AviAsyncReader::read_header(&data).unwrap();
    assert_eq!(reader.recs.len(), 2);
    assert!(reader.recs[0].childs.is_empty());
    assert_eq!(reader.recs[1].childs.len(), 1);
    let c = reader.streams()[0].chunks[0];
    assert_eq!((c.rec_index, c.chunk_index, c.stream_index), (Some(1), 0, 0));
}

#[test]
fn standalone_chunks_are_read_into_the_front_of_a_buffer() {
    let data = sound_file();
    let reader = AviAsyncReader::read_header(&data).unwrap();
    let source = ByteSource::Memory(&data);
    let chunks = &reader.streams()[0].chunks;

    let mut buf = [0xEEu8; 6];
    assert_eq!(reader.read_standalone_chunk(&chunks[0], &source, &mut buf), Ok(()));
    assert_eq!(buf, [1, 2, 3, 4, 0xEE, 0xEE]);
    assert_eq!(reader.read_standalone_chunk(&chunks[1], &source, &mut buf), Ok(()));
    assert_eq!(buf, [5, 6, 7, 4, 0xEE, 0xEE]);

    assert_eq!(
        AviAsyncReader::standalone_chunk_request(&chunks[1]),
        Ok(ReadRequest { offset: 220, len: 3 })
    );
    let cut = ByteSource::Memory(&data[..222]);
    assert_eq!(
        reader.read_standalone_chunk(&chunks[1], &cut, &mut buf),
        Err(Fetch::Failed(ReadError::UnexpectedEof))
    );
    assert_eq!(buf, [5, 6, 7, 4, 0xEE, 0xEE]);

    let mut cache = FetchCache::new(data.len() as u64);
    let q = ReadRequest { offset: 208, len: 4 };
    assert_eq!(
        reader.read_standalone_chunk(&chunks[0], &ByteSource::Fetched(&cache), &mut buf),
        Err(Fetch::Need(q))
    );
    cache.insert(q, data[208..212].to_vec());
    assert_eq!(
        reader.read_standalone_chunk(&chunks[0], &ByteSource::Fetched(&cache), &mut buf),
        Ok(())
    );
    assert_eq!(buf, [1, 2, 3, 4, 0xEE, 0xEE]);
}

#[test]
fn a_chunk_of_a_record_list_is_not_read_alone() {
    let data = movie_file();
    let reader = AviAsyncReader::read_header(&data).unwrap();
    let in_rec = reader.streams()[0].chunks[0];
    assert_eq!(in_rec.rec_index, Some(0));
    assert_eq!(
        AviAsyncReader::standalone_chunk_request(&in_rec),
        Err(AviError::ChunkInRecordList)
    );
    // A source that holds nothing is not asked.
    let cache = FetchCache::new(0);
    let mut buf = [0x55u8; 8];
    assert_eq!(
        reader.read_standalone_chunk(&in_rec, &ByteSource::Fetched(&cache), &mut buf),
        Err(Fetch::Failed(ReadError::Avi(AviError::ChunkInRecordList)))
    );
    assert_eq!(buf, [0x55; 8]);
    let made_up = AviStreamChunk {
        rec_index: Some(7),
        chunk_index: 0,
        stream_index: 0,
        chunk: RiffChunkHeader { ck_id: tag(b"00dc"), ck_size: 4, data_pos: 0 },
    };
    assert_eq!(
        reader.read_standalone_chunk(&made_up, &ByteSource::Memory(&data), &mut buf),
        Err(Fetch::Failed(ReadError::Avi(AviError::ChunkInRecordList)))
    );
}

#[test]
fn record_lists_are_cut_into_their_chunks() {
    let data = movie_file();
    let reader = AviAsyncReader::read_header(&data).unwrap();
    let len = reader.record_list_len(0).unwrap();
    assert_eq!(len, 22);
    let q = reader.record_list_request(0, len as u64).unwrap();
    let base = reader.recs[0].header.data_pos();
    assert_eq!(q, ReadRequest { offset: base, len: 22 });
    let buf = &data[q.offset as usize..(q.offset + q.len) as usize];
    let slices = reader.record_list_slices(0, buf).unwrap();
    assert_eq!(slices, vec![&[1u8, 2, 3][..], &[4u8, 5][..]]);

    // A longer buffer gives the same slices.
    let buf = &data[base as usize..base as usize + 26];
    assert_eq!(reader.record_list_slices(0, buf).unwrap(), vec![&[1u8, 2, 3][..], &[4u8, 5][..]]);

    assert_eq!(reader.record_list_request(1, 22), Err(AviError::InvalidRecordList));
    assert_eq!(reader.record_list_slices(1, buf), Err(AviError::InvalidRecordList));
    assert_eq!(reader.record_list_len(1), None);
}

#[test]
fn a_record_list_is_read_into_a_buffer_and_cut() {
    let data = movie_file();
    let reader = AviAsyncReader::read_header(&data).unwrap();
    let source = ByteSource::Memory(&data);
    let mut buf = [0u8; 22];
    let slices = reader.read_record_list(0, &source, &mut buf).unwrap();
    assert_eq!(slices, vec![&[1u8, 2, 3][..], &[4u8, 5][..]]);
    let base = reader.recs[0].header.data_pos() as usize;
    assert_eq!(buf[..], data[base..base + 22]);

    let mut untouched = [7u8; 22];
    assert_eq!(
        reader.read_record_list(3, &source, &mut untouched),
        Err(Fetch::Failed(ReadError::Avi(AviError::InvalidRecordList)))
    );
    assert_eq!(untouched, [7u8; 22]);

    let mut long = vec![7u8; data.len()];
    assert_eq!(
        reader.read_record_list(0, &source, &mut long),
        Err(Fetch::Failed(ReadError::UnexpectedEof))
    );

    let cache = FetchCache::new(data.len() as u64);
    let mut buf = [0u8; 22];
    assert_eq!(
        reader.read_record_list(0, &ByteSource::Fetched(&cache), &mut buf),
        Err(Fetch::Need(ReadRequest { offset: base as u64, len: 22 }))
    );
}
