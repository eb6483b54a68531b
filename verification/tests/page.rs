use ogg_opus::error::Error;
use ogg_opus::ogg::{read_exact, HeaderType, OggPage, SegmentToLarge};

const HEAD_PAGE: [u8; 47] = [0x4f, 0x67, 0x67, 0x53, 0x00, 0x02, 0x00, 0x00, 0x00, 0x00, 0x00, 0x00, 0x00, 0x00, 0xcd, 0xab, 0x34, 0x12, 0x00, 0x00, 0x00, 0x00, 0xc3, 0x82, 0x7d, 0x1b, 0x01, 0x13, 0x4f, 0x70, 0x75, 0x73, 0x48, 0x65, 0x61, 0x64, 0x01, 0x02, 0x38, 0x01, 0x80, 0xbb, 0x00, 0x00, 0x00, 0x00, 0x00];
const TAGS_PAGE: [u8; 79] = [0x4f, 0x67, 0x67, 0x53, 0x00, 0x00, 0x00, 0x00, 0x00, 0x00, 0x00, 0x00, 0x00, 0x00, 0xcd, 0xab, 0x34, 0x12, 0x01, 0x00, 0x00, 0x00, 0xac, 0xf7, 0x5b, 0x0d, 0x01, 0x33, 0x4f, 0x70, 0x75, 0x73, 0x54, 0x61, 0x67, 0x73, 0x0c, 0x00, 0x00, 0x00, 0x4c, 0x61, 0x76, 0x66, 0x36, 0x30, 0x2e, 0x33, 0x2e, 0x31, 0x30, 0x30, 0x02, 0x00, 0x00, 0x00, 0x07, 0x00, 0x00, 0x00, 0x54, 0x49, 0x54, 0x4c, 0x45, 0x3d, 0x58, 0x08, 0x00, 0x00, 0x00, 0x41, 0x52, 0x54, 0x49, 0x53, 0x54, 0x3d, 0x59];
const AUDIO_PAGE: [u8; 42] = [0x4f, 0x67, 0x67, 0x53, 0x00, 0x00, 0xc0, 0x03, 0x00, 0x00, 0x00, 0x00, 0x00, 0x00, 0xcd, 0xab, 0x34, 0x12, 0x02, 0x00, 0x00, 0x00, 0x7e, 0xbb, 0x6b, 0xf5, 0x02, 0x03, 0x0a, 0xfc, 0xff, 0xfe, 0x00, 0x01, 0x02, 0x03, 0x04, 0x05, 0x06, 0x07, 0x08, 0x09];
const LAST_PAGE: [u8; 27] = [0x4f, 0x67, 0x67, 0x53, 0x00, 0x04, 0x80, 0x07, 0x00, 0x00, 0x00, 0x00, 0x00, 0x00, 0xcd, 0xab, 0x34, 0x12, 0x03, 0x00, 0x00, 0x00, 0x3d, 0xff, 0xd9, 0xc8, 0x00];
const ODD_TYPE_PAGE: [u8; 30] = [0x4f, 0x67, 0x67, 0x53, 0x00, 0x03, 0x00, 0x00, 0x00, 0x00, 0x00, 0x00, 0x00, 0x00, 0x01, 0x00, 0x00, 0x00, 0x00, 0x00, 0x00, 0x00, 0x79, 0xec, 0xf3, 0xc8, 0x01, 0x02, 0x61, 0x62];
const NEW_VERSION_PAGE: [u8; 30] = [0x4f, 0x67, 0x67, 0x53, 0x01, 0x00, 0x00, 0x00, 0x00, 0x00, 0x00, 0x00, 0x00, 0x00, 0x01, 0x00, 0x00, 0x00, 0x00, 0x00, 0x00, 0x00, 0x5b, 0xaf, 0xb5, 0x7a, 0x01, 0x02, 0x61, 0x62];
const MAX_FIELDS_PAGE: [u8; 30] = [0x4f, 0x67, 0x67, 0x53, 0x00, 0x01, 0x10, 0x32, 0x54, 0x76, 0x98, 0xba, 0xdc, 0xfe, 0xef, 0xcd, 0xab, 0x89, 0x67, 0x45, 0x23, 0x01, 0x40, 0x6f, 0x6b, 0x80, 0x02, 0x00, 0x01, 0x7a];

const END_PACKET_1: usize = 47;
const END_PACKET_2: usize = 47 + 79;
const END_PACKET_3: usize = 47 + 79 + 42;

const NUMBER_OGG_PACKETS: usize = 4660;

fn three_pages() -> Vec<u8> {
    let mut stream = Vec::new();
    stream.extend_from_slice(&HEAD_PAGE);
    stream.extend_from_slice(&TAGS_PAGE);
    stream.extend_from_slice(&AUDIO_PAGE);
    stream
}

fn audio_page() -> OggPage {
    OggPage::new(
        HeaderType::Simple,
        960,
        0x1234_abcd,
        2,
        vec![vec![0xfc, 0xff, 0xfe], (0..10).collect()],
    )
    .unwrap()
}

fn collect_pages(data: &[u8]) -> Result<Vec<OggPage>, Error> {
    let mut pages = OggPage::iterate_read(data);
    let mut found = Vec::new();
    while let Some(page) = pages.next() {
        found.push(page?);
    }
    Ok(found)
}

fn checksum_error() -> Error {
    Error::MalformedData("checksum wrong".to_owned())
}

#[test]
fn read_write_equals() {
    let buf = three_pages();

    let header_data = &buf[..END_PACKET_1];
    let tags_data = &buf[END_PACKET_1..END_PACKET_2];
    let first_audio = &buf[END_PACKET_2..];

    for data in [header_data, tags_data, first_audio] {
        let mut read_data = data;
        let head = OggPage::read_next_from(&mut read_data).unwrap();
        let mut out_data = Vec::new();
        head.write_to(&mut out_data);
        assert_eq!(data.len(), out_data.len());
        assert_eq!(data, out_data);
    }
}

#[test]
fn read_iter() {
    let data_src = three_pages();

    let oggs = collect_pages(&data_src[..END_PACKET_3]).unwrap();
    assert_eq!(3, oggs.len(), "failed to read all 3 packets in data");
}

#[test]
fn read_full_file() {
    let mut data_src = Vec::new();
    data_src.extend_from_slice(&HEAD_PAGE);
    data_src.extend_from_slice(&TAGS_PAGE);
    for sequence in 2..NUMBER_OGG_PACKETS {
        let page = OggPage::new(
            HeaderType::Simple,
            960 * (sequence as u64 - 1),
            0x1234_abcd,
            sequence as u32,
            vec![vec![sequence as u8; sequence % 256], vec![0x55; sequence % 7]],
        )
        .unwrap();
        page.write_to(&mut data_src);
    }

    let oggs = collect_pages(&data_src).unwrap();
    assert_eq!(
        NUMBER_OGG_PACKETS,
        oggs.len(),
        "failed to read all 1987 packets in data"
    );
    assert_eq!(oggs[4659].page_sequence_number, 4659);
    assert_eq!(oggs[4659].segment_table()[0].len(), 4659 % 256);
}

#[test]
fn write_gives_the_bytes_of_the_format() {
    let mut out = Vec::new();
    audio_page().write_to(&mut out);
    assert_eq!(out, AUDIO_PAGE);

    let mut out = Vec::new();
    OggPage::new(HeaderType::EoS, 1920, 0x1234_abcd, 3, Vec::new())
        .unwrap()
        .write_to(&mut out);
    assert_eq!(out, LAST_PAGE);

    let mut out = Vec::new();
    OggPage::new(
        HeaderType::Continuation,
        0xfedc_ba98_7654_3210,
        0x89ab_cdef,
        0x0123_4567,
        vec![Vec::new(), vec![b'z']],
    )
    .unwrap()
    .write_to(&mut out);
    assert_eq!(out, MAX_FIELDS_PAGE);
}

#[test]
fn write_appends_to_what_is_there() {
    let mut out = vec![1, 2, 3];
    audio_page().write_to(&mut out);
    assert_eq!(&out[..3], &[1, 2, 3]);
    assert_eq!(&out[3..], &AUDIO_PAGE);
}

#[test]
fn read_gives_the_fields_of_the_format() {
    let mut data: &[u8] = &HEAD_PAGE;
    let page = OggPage::read_next_from(&mut data).unwrap();
    assert_eq!(page.header_type, HeaderType::BoS);
    assert_eq!(page.granule_position, 0);
    assert_eq!(page.bitstream_serial_number, 0x1234_abcd);
    assert_eq!(page.page_sequence_number, 0);
    assert_eq!(page.segment_table().len(), 1);
    assert_eq!(page.segment_table()[0], &HEAD_PAGE[28..]);

    let mut data: &[u8] = &MAX_FIELDS_PAGE;
    let page = OggPage::read_next_from(&mut data).unwrap();
    assert_eq!(page.header_type, HeaderType::Continuation);
    assert_eq!(page.granule_position, 0xfedc_ba98_7654_3210);
    assert_eq!(page.bitstream_serial_number, 0x89ab_cdef);
    assert_eq!(page.page_sequence_number, 0x0123_4567);
    assert_eq!(page.segment_table(), &vec![Vec::new(), vec![b'z']]);

    let mut data: &[u8] = &LAST_PAGE;
    let page = OggPage::read_next_from(&mut data).unwrap();
    assert_eq!(page.header_type, HeaderType::EoS);
    assert_eq!(page.granule_position, 1920);
    assert!(page.segment_table().is_empty());
}

#[test]
fn read_takes_one_page_and_leaves_the_rest() {
    let stream = three_pages();
    let mut data: &[u8] = &stream;
    OggPage::read_next_from(&mut data).unwrap();
    assert_eq!(data, &stream[END_PACKET_1..]);
    OggPage::read_next_from(&mut data).unwrap();
    assert_eq!(data, &stream[END_PACKET_2..]);
    assert_eq!(OggPage::read_next_from(&mut data).unwrap(), audio_page());
    assert!(data.is_empty());
}

#[test]
fn page_survives_write_and_read() {
    let tables: Vec<Vec<Vec<u8>>> = vec![
        Vec::new(),
        vec![Vec::new()],
        vec![vec![0xff; 255]],
        vec![vec![1; 255], vec![2; 255], vec![3; 2]],
        vec![vec![7]; 255],
        vec![vec![9; 255]; 255],
    ];
    for (number, table) in tables.into_iter().enumerate() {
        for header_type in [
            HeaderType::Simple,
            HeaderType::Continuation,
            HeaderType::BoS,
            HeaderType::EoS,
        ] {
            let make = || {
                OggPage::new(
                    header_type,
                    u64::MAX - number as u64,
                    u32::MAX,
                    number as u32,
                    table.clone(),
                )
                .unwrap()
            };
            let mut written = Vec::new();
            make().write_to(&mut written);
            written.extend_from_slice(b"what follows");
            let mut data: &[u8] = &written;
            assert_eq!(OggPage::read_next_from(&mut data), Ok(make()));
            assert_eq!(data, b"what follows");
        }
    }
}

#[test]
fn table_of_too_many_segments_is_refused() {
    assert_eq!(
        OggPage::new(HeaderType::Simple, 0, 0, 0, vec![Vec::new(); 256]),
        Err(SegmentToLarge::TooManySegments { size: 256 })
    );
    assert!(OggPage::new(HeaderType::Simple, 0, 0, 0, vec![Vec::new(); 255]).is_ok());
}

#[test]
fn table_with_a_long_segment_is_refused() {
    let table = vec![vec![0; 255], vec![0; 256], vec![0; 300]];
    assert_eq!(
        OggPage::new(HeaderType::Simple, 0, 0, 0, table),
        Err(SegmentToLarge::SegmentToLong {
            size: 256,
            position: 1
        })
    );
}

#[test]
fn too_many_segments_are_named_before_a_long_one() {
    let mut table = vec![Vec::new(); 300];
    table[0] = vec![0; 1000];
    assert_eq!(
        SegmentToLarge::validate(&table),
        Err(SegmentToLarge::TooManySegments { size: 300 })
    );
}

#[test]
fn refused_table_leaves_the_page_as_it_was() {
    let mut page = audio_page();
    assert_eq!(
        page.set_segment_table(vec![vec![0; 256]]),
        Err(SegmentToLarge::SegmentToLong {
            size: 256,
            position: 0
        })
    );
    assert_eq!(page, audio_page());
    assert_eq!(
        page.set_segment_table(vec![Vec::new(); 256]),
        Err(SegmentToLarge::TooManySegments { size: 256 })
    );
    assert_eq!(page, audio_page());
}

#[test]
fn accepted_table_replaces_the_old_one() {
    let mut page = audio_page();
    assert_eq!(page.set_segment_table(vec![vec![1, 2], vec![3]]), Ok(()));
    assert_eq!(page.segment_table(), &vec![vec![1, 2], vec![3]]);
    assert_eq!(page.granule_position, 960);
    assert_eq!(page.page_sequence_number, 2);
}

#[test]
fn refused_segment_leaves_the_page_as_it_was() {
    let mut page = audio_page();
    assert_eq!(
        page.add_segment(vec![0; 256]),
        Err(SegmentToLarge::SegmentToLong {
            size: 256,
            position: 2
        })
    );
    assert_eq!(page, audio_page());

    let mut full = OggPage::new(HeaderType::Simple, 0, 0, 0, vec![vec![1]; 255]).unwrap();
    assert_eq!(
        full.add_segment(vec![2]),
        Err(SegmentToLarge::TooManySegments { size: 256 })
    );
    assert_eq!(full.segment_table().len(), 255);
    assert_eq!(
        full.add_segment(vec![0; 256]),
        Err(SegmentToLarge::TooManySegments { size: 256 })
    );
}

#[test]
fn accepted_segment_is_added_at_the_end() {
    let mut page = audio_page();
    assert_eq!(page.add_segment(vec![0xab; 255]), Ok(()));
    assert_eq!(page.segment_table().len(), 3);
    assert_eq!(page.segment_table()[2], vec![0xab; 255]);
    assert_eq!(page.segment_table()[0], vec![0xfc, 0xff, 0xfe]);

    let mut almost = OggPage::new(HeaderType::Simple, 0, 0, 0, vec![vec![1]; 254]).unwrap();
    assert_eq!(almost.add_segment(Vec::new()), Ok(()));
    assert_eq!(almost.segment_table().len(), 255);
}

#[test]
fn validate_new_names_the_place_of_the_new_segment() {
    let table = vec![vec![0u8; 3]; 4];
    assert_eq!(SegmentToLarge::validate_new(&table, &vec![0; 255]), Ok(()));
    assert_eq!(
        SegmentToLarge::validate_new(&table, &vec![0; 400]),
        Err(SegmentToLarge::SegmentToLong {
            size: 400,
            position: 4
        })
    );
}

#[test]
fn empty_stream_holds_no_more_data() {
    let mut data: &[u8] = &[];
    assert_eq!(OggPage::read_next_from(&mut data), Err(Error::NoMoreData));
}

#[test]
fn stream_that_ends_in_the_header_ends_unexpectedly() {
    for len in 1..27 {
        let mut data: &[u8] = &AUDIO_PAGE[..len];
        assert_eq!(
            OggPage::read_next_from(&mut data),
            Err(Error::UnexpectedEoF),
            "{len} bytes"
        );
        assert!(data.is_empty());
    }
}

#[test]
fn stream_that_ends_in_the_page_ends_unexpectedly() {
    for len in 27..AUDIO_PAGE.len() {
        let mut data: &[u8] = &AUDIO_PAGE[..len];
        assert_eq!(
            OggPage::read_next_from(&mut data),
            Err(Error::UnexpectedEoF),
            "{len} bytes"
        );
        assert!(data.is_empty());
    }
    let mut data: &[u8] = &AUDIO_PAGE;
    assert!(OggPage::read_next_from(&mut data).is_ok());
}

#[test]
fn read_exact_tells_a_clean_end_from_a_broken_one() {
    let mut buf = [0u8; 4];
    let mut data: &[u8] = &[];
    assert_eq!(read_exact(&mut data, &mut buf), Err(Error::NoMoreData));
    let mut data: &[u8] = &[1, 2, 3];
    assert_eq!(read_exact(&mut data, &mut buf), Err(Error::UnexpectedEoF));
    assert_eq!(buf, [1, 2, 3, 0]);
    let mut data: &[u8] = &[1, 2, 3, 4, 5];
    assert_eq!(read_exact(&mut data, &mut buf), Ok(()));
    assert_eq!(buf, [1, 2, 3, 4]);
    assert_eq!(data, &[5]);
    let mut nothing: [u8; 0] = [];
    let mut data: &[u8] = &[];
    assert_eq!(read_exact(&mut data, &mut nothing), Ok(()));
}

#[test]
fn changed_byte_fails_the_checksum() {
    for page in [&HEAD_PAGE[..], &TAGS_PAGE[..], &AUDIO_PAGE[..], &LAST_PAGE[..]] {
        let segments = page[26] as usize;
        for at in (4..26).chain(27 + segments..page.len()) {
            for flip in [0x01u8, 0x80, 0xff] {
                let mut changed = page.to_vec();
                changed[at] ^= flip;
                changed.extend_from_slice(&AUDIO_PAGE);
                let mut data: &[u8] = &changed;
                assert_eq!(
                    OggPage::read_next_from(&mut data),
                    Err(checksum_error()),
                    "byte {at} changed by {flip}"
                );
            }
        }
    }
}

#[test]
fn changed_start_is_no_page() {
    let mut changed = AUDIO_PAGE.to_vec();
    changed[3] = b's';
    let mut data: &[u8] = &changed;
    assert_eq!(
        OggPage::read_next_from(&mut data),
        Err(Error::MalformedData(
            "expected packet to start with [79, 103, 103, 83] but got [79, 103, 103, 115]"
                .to_owned()
        ))
    );
    assert_eq!(data, &changed[27..]);
}

#[test]
fn changed_lengths_are_never_read_as_a_page() {
    for at in 26..29 {
        for value in 0..=255u8 {
            if value == AUDIO_PAGE[at] {
                continue;
            }
            let mut changed = AUDIO_PAGE.to_vec();
            changed[at] = value;
            changed.extend_from_slice(&LAST_PAGE);
            let mut data: &[u8] = &changed;
            assert!(OggPage::read_next_from(&mut data).is_err());
        }
    }
}

#[test]
fn unknown_header_type_is_malformed() {
    let mut data: &[u8] = &ODD_TYPE_PAGE;
    assert_eq!(
        OggPage::read_next_from(&mut data),
        Err(Error::MalformedData("unknown header_type 3".to_owned()))
    );
}

#[test]
fn other_version_is_unsupported() {
    let mut data: &[u8] = &NEW_VERSION_PAGE;
    assert_eq!(
        OggPage::read_next_from(&mut data),
        Err(Error::UnsupportetVersion(1))
    );
}

#[test]
fn header_type_bytes() {
    assert_eq!(HeaderType::try_from(0), Ok(HeaderType::Simple));
    assert_eq!(HeaderType::try_from(1), Ok(HeaderType::Continuation));
    assert_eq!(HeaderType::try_from(2), Ok(HeaderType::BoS));
    assert_eq!(HeaderType::try_from(4), Ok(HeaderType::EoS));
    assert_eq!(HeaderType::try_from(3), Err(3));
    assert_eq!(HeaderType::try_from(0xff), Err(0xff));
    assert_eq!(u8::from(HeaderType::Simple), 0);
    assert_eq!(u8::from(HeaderType::Continuation), 1);
    assert_eq!(u8::from(HeaderType::BoS), 2);
    assert_eq!(u8::from(HeaderType::EoS), 4);
}

#[test]
fn checksum_field_is_checked_and_filled() {
    let mut buf = AUDIO_PAGE.to_vec();
    assert!(OggPage::validate_checksum(&mut buf));
    assert_eq!(&buf[22..26], &[0, 0, 0, 0]);
    assert_eq!(&buf[..22], &AUDIO_PAGE[..22]);
    assert_eq!(&buf[26..], &AUDIO_PAGE[26..]);
    OggPage::calculate_checksum(&mut buf);
    assert_eq!(buf, AUDIO_PAGE);

    let mut wrong = AUDIO_PAGE.to_vec();
    wrong[22] ^= 1;
    assert!(!OggPage::validate_checksum(&mut wrong));
    assert_eq!(&wrong[22..26], &[0, 0, 0, 0]);
}

#[test]
fn pages_end_cleanly_between_two_pages() {
    let stream = three_pages();
    let mut pages = OggPage::iterate_read(&stream[..]);
    assert!(pages.next().unwrap().is_ok());
    assert!(pages.next().unwrap().is_ok());
    assert_eq!(pages.next(), Some(Ok(audio_page())));
    assert_eq!(pages.next(), None);
    assert_eq!(pages.next(), None);
}

#[test]
fn pages_end_with_the_error_and_stay_ended() {
    let mut stream = three_pages();
    stream.extend_from_slice(&AUDIO_PAGE[..30]);
    stream.extend_from_slice(&LAST_PAGE);
    let mut pages = OggPage::iterate_read(&stream[..]);
    for _ in 0..3 {
        assert!(pages.next().unwrap().is_ok());
    }
    assert_eq!(pages.next(), Some(Err(checksum_error())));
    assert_eq!(pages.next(), None);
    assert_eq!(pages.next(), None);
}

#[test]
fn pages_hand_the_source_back_where_they_stopped() {
    let stream = three_pages();
    let mut pages = OggPage::iterate_read(&stream[..]);
    pages.next().unwrap().unwrap();
    assert_eq!(pages.into_inner(), &stream[END_PACKET_1..]);
}

#[test]
fn truncated_stream_ends_the_pages_with_an_error() {
    let stream = three_pages();
    let mut pages = OggPage::iterate_read(&stream[..END_PACKET_3 - 1]);
    assert!(pages.next().unwrap().is_ok());
    assert!(pages.next().unwrap().is_ok());
    assert_eq!(pages.next(), Some(Err(Error::UnexpectedEoF)));
    assert_eq!(pages.next(), None);
}

#[test]
fn refusal_says_what_was_too_much() {
    assert_eq!(
        SegmentToLarge::TooManySegments { size: 256 }.reason(),
        "256 segments are too many, only 255 allowed"
    );
    assert_eq!(
        SegmentToLarge::SegmentToLong {
            size: 1000,
            position: 0
        }
        .reason(),
        "1000 bytes in segment 0 are too many, only 255 allowed"
    );
}

#[test]
fn read_page_is_written_as_it_was_read() {
    for page in [
        &HEAD_PAGE[..],
        &TAGS_PAGE[..],
        &AUDIO_PAGE[..],
        &LAST_PAGE[..],
        &MAX_FIELDS_PAGE[..],
    ] {
        let mut stream = page.to_vec();
        stream.extend_from_slice(b"what follows");
        let mut data: &[u8] = &stream;
        let read = OggPage::read_next_from(&mut data).unwrap();
        let mut written = Vec::new();
        read.write_to(&mut written);
        assert_eq!(written, page);
    }
}
