use bunwarmer::block_size::{determine_block_size, resolve_block_size, LARGE_BLOCK, SMALL_BLOCK};
use bunwarmer::devices::{parse_device_list, split_on, ParseError};
use bunwarmer::report::{elapsed_centis, throughput_centi_mb_per_s};
use bunwarmer::volume::VolumeType;

#[test]
fn block_size_general_purpose_is_small() {
    assert_eq!(determine_block_size(0, VolumeType::Gp3), 262144);
    assert_eq!(determine_block_size(u64::MAX, VolumeType::Gp3), 262144);
    assert_eq!(determine_block_size(5_000_000_000_000, VolumeType::Gp2), SMALL_BLOCK);
    assert_eq!(determine_block_size(1, VolumeType::Io1), SMALL_BLOCK);
    assert_eq!(determine_block_size(1, VolumeType::Io2), SMALL_BLOCK);
}

#[test]
fn block_size_throughput_volumes_are_large() {
    assert_eq!(determine_block_size(0, VolumeType::St1), 1048576);
    assert_eq!(determine_block_size(123, VolumeType::St1), 1048576);
    assert_eq!(determine_block_size(123, VolumeType::Sc1), LARGE_BLOCK);
}

#[test]
fn block_size_unknown_depends_on_size() {
    assert_eq!(determine_block_size(2_000_000_000_000, VolumeType::Unknown), 1048576);
    assert_eq!(determine_block_size(1_000_000_000, VolumeType::Unknown), 262144);
    assert_eq!(determine_block_size(1_000_000_000_000, VolumeType::Unknown), 262144);
    assert_eq!(determine_block_size(1_000_000_000_001, VolumeType::Unknown), 1048576);
}

#[test]
fn block_size_override_always_wins() {
    assert_eq!(resolve_block_size(4096, 2_000_000_000_000, VolumeType::Unknown), 4096);
    assert_eq!(resolve_block_size(4096, 10, VolumeType::St1), 4096);
    assert_eq!(resolve_block_size(7, 10, VolumeType::Gp3), 7);
    assert_eq!(resolve_block_size(0, 10, VolumeType::St1), 1048576);
    assert_eq!(resolve_block_size(0, 2_000_000_000_000, VolumeType::Unknown), 1048576);
}

#[test]
fn volume_names_ignore_case() {
    assert_eq!(VolumeType::from_name("GP3"), VolumeType::Gp3);
    assert_eq!(VolumeType::from_name("Sc1"), VolumeType::Sc1);
    assert_eq!(VolumeType::from_name("io2"), VolumeType::Io2);
    assert_eq!(VolumeType::from_name("magnetic"), VolumeType::Unknown);
    assert_eq!(VolumeType::from_name(""), VolumeType::Unknown);
    assert_eq!(VolumeType::from_lowercase_name("st1"), VolumeType::St1);
    assert_eq!(VolumeType::from_lowercase_name("ST1"), VolumeType::Unknown);
}

#[test]
fn split_keeps_empty_pieces() {
    assert_eq!(split_on("a,b", ','), vec!["a".to_string(), "b".to_string()]);
    assert_eq!(split_on("", ','), vec!["".to_string()]);
    assert_eq!(split_on(",x,", ','), vec!["".to_string(), "x".to_string(), "".to_string()]);
}

#[test]
fn device_list_parses_each_entry() {
    let specs = parse_device_list("/dev/nvme1n1:gp2,/dev/nvme2n1:IO1,/dev/sdb:weird").unwrap();
    assert_eq!(specs.len(), 3);
    assert_eq!(specs[0].path, "/dev/nvme1n1");
    assert_eq!(specs[0].volume_type, VolumeType::Gp2);
    assert_eq!(specs[1].path, "/dev/nvme2n1");
    assert_eq!(specs[1].volume_type, VolumeType::Io1);
    assert_eq!(specs[2].path, "/dev/sdb");
    assert_eq!(specs[2].volume_type, VolumeType::Unknown);
}

#[test]
fn device_list_refuses_entry_without_one_colon() {
    match parse_device_list("/dev/a:gp2,/dev/b,/dev/c:x:y") {
        Err(ParseError::Malformed { entry }) => assert_eq!(entry, "/dev/b"),
        Ok(_) => panic!("accepted a malformed list"),
    }
    match parse_device_list("/dev/c:x:y") {
        Err(ParseError::Malformed { entry }) => assert_eq!(entry, "/dev/c:x:y"),
        Ok(_) => panic!("accepted a malformed list"),
    }
    assert!(parse_device_list("").is_err());
}

#[test]
fn throughput_of_a_gigabyte_in_ten_seconds() {
    assert_eq!(throughput_centi_mb_per_s(1_000_000_000, 10_000_000_000), Some(10000));
    assert_eq!(elapsed_centis(10_000_000_000), 1000);
}

#[test]
fn throughput_rounds_and_refuses_zero_time() {
    assert_eq!(throughput_centi_mb_per_s(1_000_000_000, 0), None);
    assert_eq!(throughput_centi_mb_per_s(0, 5), Some(0));
    // 1 MB in 3 s is 0.333.. MB/s
    assert_eq!(throughput_centi_mb_per_s(1_000_000, 3_000_000_000), Some(33));
    // 2 MB in 3 s is 0.666.. MB/s
    assert_eq!(throughput_centi_mb_per_s(2_000_000, 3_000_000_000), Some(67));
    assert_eq!(elapsed_centis(1_234_999_999), 123);
    assert_eq!(elapsed_centis(1_235_000_000), 124);
    assert_eq!(elapsed_centis(u64::MAX), 1_844_674_407_371);
}
