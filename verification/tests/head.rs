use ogg_opus::error::Error;
use ogg_opus::ogg::{HeaderType, OggPage};
use ogg_opus::opus_tagger::{Gain, MappingFamily, OpusHead, SampleRate};

const HEAD_BYTES: [u8; 19] = [
    0x4f, 0x70, 0x75, 0x73, 0x48, 0x65, 0x61, 0x64, 0x01, 0x02, 0x38, 0x01, 0x80, 0xbb, 0x00, 0x00,
    0x00, 0x00, 0x00,
];

fn page_of(granule_position: u64, segments: Vec<Vec<u8>>) -> OggPage {
    OggPage::new(HeaderType::BoS, granule_position, 7, 0, segments).unwrap()
}

fn usual_head() -> OpusHead {
    OpusHead {
        version: 1,
        channel_count: 2,
        pre_skip: 312,
        sample_rate: SampleRate::KHz48,
        gain: Gain { m: 0, n: 0 },
        channel_map: MappingFamily::RTP,
    }
}

#[test]
fn head_is_read_from_its_nineteen_bytes() {
    assert_eq!(
        OpusHead::from(&page_of(0, vec![HEAD_BYTES.to_vec()])),
        Ok(usual_head())
    );
}

#[test]
fn head_is_written_as_its_nineteen_bytes() {
    assert_eq!(usual_head().to_bytes(), HEAD_BYTES);
}

#[test]
fn head_fields_stand_where_the_format_puts_them() {
    let bytes = vec![
        0x4f, 0x70, 0x75, 0x73, 0x48, 0x65, 0x61, 0x64, 0x0f, 0x06, 0xcd, 0xab, 0x40, 0x1f, 0x00,
        0x00, 0x85, 0xfe, 0x01,
    ];
    let head = OpusHead {
        version: 15,
        channel_count: 6,
        pre_skip: 0xabcd,
        sample_rate: SampleRate::KHz8,
        gain: Gain { m: -123, n: 254 },
        channel_map: MappingFamily::VorbisChannelOrder,
    };
    assert_eq!(OpusHead::from(&page_of(0, vec![bytes.clone()])), Ok(head));
    assert_eq!(head.to_bytes(), bytes);
}

#[test]
fn head_is_written_with_its_own_version() {
    for version in 0..=15u8 {
        let head = OpusHead {
            version,
            ..usual_head()
        };
        let bytes = head.to_bytes();
        assert_eq!(bytes.len(), 19);
        assert_eq!(&bytes[..8], b"OpusHead");
        assert_eq!(bytes[8], version);
        assert_eq!(OpusHead::from(&page_of(0, vec![bytes])), Ok(head));
    }
}

#[test]
fn head_of_an_unread_version_is_written_and_then_refused() {
    let head = OpusHead {
        version: 16,
        ..usual_head()
    };
    assert_eq!(head.to_bytes()[8], 16);
    assert_eq!(
        OpusHead::from(&page_of(0, vec![head.to_bytes()])),
        Err(Error::UnsupportetVersion(16))
    );
}

#[test]
fn head_survives_write_and_read() {
    for sample_rate in [
        SampleRate::KHz8,
        SampleRate::KHz12,
        SampleRate::KHz16,
        SampleRate::KHz24,
        SampleRate::KHz48,
    ] {
        for m in [i8::MIN, -1, 0, 1, i8::MAX] {
            for channel_map in [
                MappingFamily::RTP,
                MappingFamily::VorbisChannelOrder,
                MappingFamily::NotDefined(2),
                MappingFamily::NotDefined(255),
            ] {
                let head = OpusHead {
                    version: (m as u8) % 16,
                    channel_count: 255,
                    pre_skip: u16::MAX,
                    sample_rate,
                    gain: Gain { m, n: 128 },
                    channel_map,
                };
                assert_eq!(OpusHead::from(&page_of(0, vec![head.to_bytes()])), Ok(head));
            }
        }
    }
}

#[test]
fn head_on_a_page_that_moved_on_is_malformed() {
    assert_eq!(
        OpusHead::from(&page_of(960, vec![HEAD_BYTES.to_vec()])),
        Err(Error::MalformedData(
            "granule position needs to be zero, but was 960".to_owned()
        ))
    );
}

#[test]
fn head_in_other_than_one_segment_is_malformed() {
    assert_eq!(
        OpusHead::from(&page_of(0, vec![HEAD_BYTES[..8].to_vec(), HEAD_BYTES[8..].to_vec()])),
        Err(Error::MalformedData(
            "expected one segment, but got segments of sizes [8, 11]".to_owned()
        ))
    );
    assert_eq!(
        OpusHead::from(&page_of(0, Vec::new())),
        Err(Error::MalformedData(
            "expected one segment, but got segments of sizes []".to_owned()
        ))
    );
}

#[test]
fn head_of_another_length_is_malformed() {
    let mut long = HEAD_BYTES.to_vec();
    long.push(0);
    assert_eq!(
        OpusHead::from(&page_of(0, vec![long])),
        Err(Error::MalformedData(
            "OpusHead needs to be length 19, but was 20".to_owned()
        ))
    );
    assert_eq!(
        OpusHead::from(&page_of(0, vec![HEAD_BYTES[..18].to_vec()])),
        Err(Error::MalformedData(
            "OpusHead needs to be length 19, but was 18".to_owned()
        ))
    );
    assert_eq!(
        OpusHead::from(&page_of(0, vec![Vec::new()])),
        Err(Error::MalformedData(
            "OpusHead needs to be length 19, but was 0".to_owned()
        ))
    );
}

#[test]
fn head_under_another_name_is_malformed() {
    let mut bytes = HEAD_BYTES.to_vec();
    bytes[4] = b'T';
    assert_eq!(
        OpusHead::from(&page_of(0, vec![bytes])),
        Err(Error::MalformedData(
            "expected packet to start with [79, 112, 117, 115, 72, 101, 97, 100] \
             but got [79, 112, 117, 115, 84, 101, 97, 100]"
                .to_owned()
        ))
    );
}

#[test]
fn head_of_a_later_version_is_unsupported() {
    let mut bytes = HEAD_BYTES.to_vec();
    bytes[8] = 16;
    assert_eq!(
        OpusHead::from(&page_of(0, vec![bytes.clone()])),
        Err(Error::UnsupportetVersion(16))
    );
    bytes[8] = 15;
    assert!(OpusHead::from(&page_of(0, vec![bytes.clone()])).is_ok());
    bytes[8] = 0;
    assert_eq!(OpusHead::from(&page_of(0, vec![bytes])).unwrap().version, 0);
}

#[test]
fn head_with_another_sample_rate_is_malformed() {
    let mut bytes = HEAD_BYTES.to_vec();
    bytes[12..16].copy_from_slice(&44100u32.to_le_bytes());
    assert_eq!(
        OpusHead::from(&page_of(0, vec![bytes])),
        Err(Error::MalformedData("unsupported sample rate 44100".to_owned()))
    );
}

#[test]
fn version_is_judged_before_the_sample_rate() {
    let mut bytes = HEAD_BYTES.to_vec();
    bytes[8] = 200;
    bytes[12..16].copy_from_slice(&1u32.to_le_bytes());
    assert_eq!(
        OpusHead::from(&page_of(0, vec![bytes])),
        Err(Error::UnsupportetVersion(200))
    );
}

#[test]
fn sample_rates_in_hertz() {
    assert_eq!(u32::from(SampleRate::KHz8), 8000);
    assert_eq!(u32::from(SampleRate::KHz12), 12000);
    assert_eq!(u32::from(SampleRate::KHz16), 16000);
    assert_eq!(u32::from(SampleRate::KHz24), 24000);
    assert_eq!(u32::from(SampleRate::KHz48), 48000);
    assert_eq!(SampleRate::try_from(8000), Ok(SampleRate::KHz8));
    assert_eq!(SampleRate::try_from(12000), Ok(SampleRate::KHz12));
    assert_eq!(SampleRate::try_from(16000), Ok(SampleRate::KHz16));
    assert_eq!(SampleRate::try_from(24000), Ok(SampleRate::KHz24));
    assert_eq!(SampleRate::try_from(48000), Ok(SampleRate::KHz48));
    assert_eq!(SampleRate::try_from(44100), Err(44100));
    assert_eq!(SampleRate::try_from(0), Err(0));
}

#[test]
fn mapping_families_keep_bytes_without_a_name() {
    assert_eq!(MappingFamily::from(0), MappingFamily::RTP);
    assert_eq!(MappingFamily::from(1), MappingFamily::VorbisChannelOrder);
    assert_eq!(MappingFamily::from(2), MappingFamily::NotDefined(2));
    assert_eq!(MappingFamily::from(255), MappingFamily::NotDefined(255));
    assert_eq!(u8::from(MappingFamily::RTP), 0);
    assert_eq!(u8::from(MappingFamily::VorbisChannelOrder), 1);
    assert_eq!(u8::from(MappingFamily::NotDefined(77)), 77);
}
