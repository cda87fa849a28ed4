use superinstance_hdc_core::sram::{SramHeader, SRAM_MAGIC, SRAM_VERSION};
use superinstance_hdc_core::{BloomFilter, Error, SramImage, SramImageBuilder, SramRecord};

fn sized_filter(capacity: usize, false_positive_rate: f64) -> BloomFilter {
    let n = capacity.max(1) as f64;
    let p = false_positive_rate.max(1e-10);
    let ln2 = std::f64::consts::LN_2;
    let m = (-(n * p.ln()) / (ln2 * ln2)).ceil() as usize;
    let k = ((m as f64 / n) * ln2).max(1.0) as usize;
    BloomFilter::with_params(capacity, k, m)
}

fn bake(builder: SramImageBuilder, records: usize) -> SramImage {
    let image = builder.build(sized_filter(records.max(1), 0.01)).unwrap();
    let bytes = image.to_bytes();
    SramImage::from_bytes(&bytes).unwrap()
}

#[test]
fn test_sram_record_canary() {
    let canary = SramRecord::canary(0xDEADBEEF);
    assert!(canary.is_canary());
    assert_eq!(canary.lesson_id, 0);
    assert_eq!(canary.fingerprint, 0xDEADBEEF);
}

#[test]
fn test_sram_image_save_load() {
    let mut builder = SramImageBuilder::new();
    builder = builder
        .canary(0xCAFEBABE)
        .add_record(0x1111, 1)
        .add_record(0x2222, 2)
        .add_record(0x3333, 3);
    let loaded = bake(builder, 3);
    assert_eq!(loaded.canary(), 0xCAFEBABE);
    assert_eq!(loaded.record_count(), 3);
    assert!(loaded.verify_canary(0xCAFEBABE));
    assert!(!loaded.verify_canary(0x0FFFFFF));
}

#[test]
fn test_sram_image_judge() {
    let builder = SramImageBuilder::new()
        .canary(0xDEAD)
        .add_record(0xAAAA0000, 1)
        .add_record(0xBBBB0000, 2)
        .add_record(0xCCCC0000, 3);
    let loaded = bake(builder, 3);
    assert_eq!(loaded.judge(0xAAAA0000, 0), Some(1));
    assert_eq!(loaded.judge(0xBBBB0000, 0), Some(2));
    assert_eq!(loaded.judge(0xCCCC0000, 0), Some(3));
    assert_eq!(loaded.judge(0x12345678, 5), None);
    assert_eq!(loaded.judge(0x12345678, 64), None);
}

#[test]
fn test_sram_header_validation() {
    let header = SramHeader::new(10, 100, 0xDEADBEEF);
    assert_eq!(header.magic, SRAM_MAGIC);
    assert_eq!(header.version, SRAM_VERSION);
}

#[test]
fn header_layout() {
    let header = SramHeader::new(0x0102_0304, 0x0A0B_0C0D, 0x1122_3344_5566_7788);
    let bytes = header.to_bytes();
    assert_eq!(bytes.len(), 64);
    assert_eq!(&bytes[0..8], b"SRAM0001");
    assert_eq!(bytes[8], 1);
    assert_eq!(bytes[9], 0);
    assert_eq!(&bytes[10..14], &[1, 2, 3, 4]);
    assert_eq!(&bytes[14..18], &[0x0A, 0x0B, 0x0C, 0x0D]);
    assert_eq!(&bytes[18..26], &[0x88, 0x77, 0x66, 0x55, 0x44, 0x33, 0x22, 0x11]);
    assert!(bytes[26..].iter().all(|b| *b == 0));
    let back = SramHeader::from_bytes(&bytes);
    assert_eq!(back.record_count, 0x0102_0304);
    assert_eq!(back.bloom_size, 0x0A0B_0C0D);
    assert_eq!(back.canary, 0x1122_3344_5566_7788);
    assert!(back.validate().is_ok());
}

#[test]
fn header_validation_errors() {
    let mut header = SramHeader::new(0, 0, 0);
    header.version = 2;
    assert!(matches!(header.validate(), Err(Error::InvalidImage(_))));
    let mut header = SramHeader::new(0, 0, 0);
    header.magic[7] = b'2';
    assert!(matches!(header.validate(), Err(Error::InvalidImage(_))));
}

#[test]
fn built_image_layout() {
    let bloom = BloomFilter::with_params(1, 1, 64);
    let image = SramImageBuilder::new()
        .bloom(bloom)
        .canary(9)
        .add_record(0x0807_0605_0403_0201, 0x0D0C_0B0A)
        .build(BloomFilter::with_params(1, 1, 1))
        .unwrap();
    let bytes = image.to_bytes();
    // header + 24-byte filter + one 64-byte record
    assert_eq!(bytes.len(), 64 + 24 + 64);
    assert_eq!(&bytes[14..18], &[0, 0, 0, 24]);
    assert_eq!(&bytes[88..96], &[1, 2, 3, 4, 5, 6, 7, 8]);
    assert_eq!(&bytes[96..100], &[0x0A, 0x0B, 0x0C, 0x0D]);
    assert!(bytes[100..].iter().all(|b| *b == 0));
    let record = image.get_record(0).unwrap();
    assert_eq!(record.fingerprint, 0x0807_0605_0403_0201);
    assert_eq!(record.lesson_id, 0x0D0C_0B0A);
    assert_eq!(record.flags, 0);
    assert_eq!(record._reserved, 0);
    assert_eq!(record.padding, [0u8; 48]);
    assert!(!record.is_canary());
    assert!(image.get_record(1).is_none());
    // an explicitly set filter is used as it is, without the records inserted
    assert_eq!(image.bloom().num_hashes(), 1);
    assert!(!image.bloom_contains(0x0807_0605_0403_0201));
}

#[test]
fn saved_image_loads_back_unchanged() {
    let builder = SramImageBuilder::new()
        .canary(77)
        .add_record(10, 100)
        .add_record(20, 200);
    let image = builder.build(sized_filter(2, 0.01)).unwrap();
    let bytes = image.to_bytes();
    let loaded = SramImage::from_bytes(&bytes).unwrap();
    assert_eq!(loaded.to_bytes(), bytes);
    assert_eq!(loaded.record_count(), 2);
    assert_eq!(loaded.canary(), 77);
    for i in 0..2 {
        let a = image.get_record(i).unwrap();
        let b = loaded.get_record(i).unwrap();
        assert_eq!(a.fingerprint, b.fingerprint);
        assert_eq!(a.lesson_id, b.lesson_id);
    }
    for fp in [10u64, 20, 30, 11] {
        assert_eq!(image.judge(fp, 1), loaded.judge(fp, 1));
    }
}

#[test]
fn every_baked_lesson_is_found() {
    let mut builder = SramImageBuilder::new();
    for i in 0..50u64 {
        builder = builder.add_record(i.wrapping_mul(0x9E37_79B9_7F4A_7C15), i as u32 + 1);
    }
    let loaded = bake(builder, 50);
    for i in 0..50u64 {
        assert!(loaded.judge(i.wrapping_mul(0x9E37_79B9_7F4A_7C15), 0).is_some());
    }
}

#[test]
fn canary_records_are_skipped() {
    let image = SramImageBuilder::new().add_record(5, 1).build(sized_filter(1, 0.01)).unwrap();
    assert_eq!(image.judge(5, 0), Some(1));
    assert!(SramRecord::zero().fingerprint == 0 && !SramRecord::zero().is_canary());
    assert!(!SramRecord::new(1, 2).is_canary());
}

#[test]
fn loading_rejects_bad_images() {
    assert!(matches!(SramImage::from_bytes(&[0u8; 63]), Err(Error::InvalidImage(_))));
    let image = SramImageBuilder::new().add_record(1, 1).build(sized_filter(1, 0.01)).unwrap();
    let bytes = image.to_bytes();
    let mut bad_magic = bytes.clone();
    bad_magic[0] = b'X';
    assert!(matches!(SramImage::from_bytes(&bad_magic), Err(Error::InvalidImage(_))));
    let mut bad_version = bytes.clone();
    bad_version[8] = 9;
    assert!(matches!(SramImage::from_bytes(&bad_version), Err(Error::InvalidImage(_))));
    let mut too_many_records = bytes.clone();
    too_many_records[13] = 200;
    assert!(matches!(SramImage::from_bytes(&too_many_records), Err(Error::InvalidImage(_))));
    let mut bloom_past_end = bytes.clone();
    bloom_past_end[16] = 1;
    assert!(matches!(SramImage::from_bytes(&bloom_past_end), Err(Error::InvalidImage(_))));
    // filter and records each fit after the header, but not one after the other
    let mut overlapping = bytes.clone();
    overlapping[17] = 80;
    assert!(matches!(SramImage::from_bytes(&overlapping), Err(Error::InvalidImage(_))));
    let mut short_bloom = bytes.clone();
    short_bloom[17] = 20;
    assert!(matches!(SramImage::from_bytes(&short_bloom), Err(Error::Bloom(_))));
}

#[test]
fn added_records_have_zero_padding() {
    let image = SramImageBuilder::new().add_record(0x1111, 7).build(sized_filter(1, 0.01)).unwrap();
    let record = image.get_record(0).unwrap();
    assert_eq!(record.fingerprint, 0x1111);
    assert_eq!(record.lesson_id, 7);
    assert_eq!(record.flags, 0);
    assert_eq!(record._reserved, 0);
    assert_eq!(record.padding, [0u8; 48]);
    assert!(image.get_record(1).is_none());
}
