use f32ms::lsblk::{
    device_listing, find_device, is_confirmation, query_all_block_devices, select_target, BlockDeviceInfo,
    BlockDeviceType, TargetError,
};

fn info(path: &str, label: Option<&str>, model: Option<&str>, ty: BlockDeviceType, removable: bool, children: Option<Vec<BlockDeviceInfo>>) -> BlockDeviceInfo {
    BlockDeviceInfo {
        path: path.to_string(),
        label: label.map(|s| s.to_string()),
        removable,
        model: model.map(|s| s.to_string()),
        dev_type: ty,
        size: "7.5G".to_string(),
        children,
    }
}

fn sample() -> Vec<BlockDeviceInfo> {
    vec![
        info("/dev/sda", None, Some(" Samsung SSD  "), BlockDeviceType::Disk, false, Some(vec![info("/dev/sda1", Some("root"), None, BlockDeviceType::Partition, false, None)])),
        info(
            "/dev/sdb",
            None,
            Some("Card \"Reader\""),
            BlockDeviceType::Disk,
            true,
            Some(vec![info("/dev/sdb1", Some("FAT32MS"), None, BlockDeviceType::Partition, true, None)]),
        ),
    ]
}

#[test]
fn partition_kind() {
    let d = sample();
    assert!(!d[0].is_partition());
    assert!(d[0].children.as_ref().unwrap()[0].is_partition());
}

#[test]
fn repr_quotes_trimmed_label_and_model() {
    let d = sample();
    assert_eq!(d[0].repr(), "/dev/sda \"Samsung SSD\" 7.5G");
    assert_eq!(d[1].repr(), "/dev/sdb \"Card \\\"Reader\\\"\" 7.5G");
    assert_eq!(d[1].children.as_ref().unwrap()[0].repr(), "/dev/sdb1 \"FAT32MS\" 7.5G");
}

#[test]
fn devices_keep_tree_shape() {
    let devs = query_all_block_devices(&sample());
    assert_eq!(devs.len(), 2);
    assert_eq!(devs[1].path, "/dev/sdb");
    assert!(devs[1].removable);
    assert!(!devs[1].is_partition);
    let parts = devs[1].partitions.as_ref().unwrap();
    assert_eq!(parts.len(), 1);
    assert_eq!(parts[0].path, "/dev/sdb1");
    assert!(parts[0].is_partition);
    assert!(parts[0].partitions.is_none());
}

#[test]
fn lookup_finds_disks_and_partitions() {
    let devs = query_all_block_devices(&sample());
    assert_eq!(find_device(&devs, "/dev/sdb").unwrap().path, "/dev/sdb");
    assert_eq!(find_device(&devs, "/dev/sda1").unwrap().path, "/dev/sda1");
    assert!(find_device(&devs, "/dev/sdc").is_none());
}

#[test]
fn selection_of_typed_answers() {
    let devs = query_all_block_devices(&sample());
    assert_eq!(select_target(&devs, "  \n", true).unwrap_err(), TargetError::Aborted);
    assert_eq!(select_target(&devs, "/dev/nope\n", true).unwrap_err(), TargetError::NotADevice);
    assert_eq!(select_target(&devs, "/dev/sdb\n", true).unwrap_err(), TargetError::NotAPartition);
    assert_eq!(select_target(&devs, " /dev/sdb\n", false).unwrap().path, "/dev/sdb");
    assert_eq!(select_target(&devs, "/dev/sdb1\n", true).unwrap().path, "/dev/sdb1");
}

#[test]
fn listing_hides_fixed_disks_when_asked() {
    let devs = query_all_block_devices(&sample());
    assert_eq!(device_listing(&devs, true), vec!["/dev/sdb \"Card \\\"Reader\\\"\" 7.5G", "  /dev/sdb1 \"FAT32MS\" 7.5G"]);
    assert_eq!(device_listing(&devs, false).len(), 4);
    assert_eq!(device_listing(&devs, false)[1], "  /dev/sda1 \"root\" 7.5G");
}

#[test]
fn confirmation_answers() {
    assert!(is_confirmation("y\n"));
    assert!(is_confirmation(" Y "));
    assert!(is_confirmation("yes"));
    assert!(!is_confirmation("YES"));
    assert!(!is_confirmation("n"));
    assert!(!is_confirmation(""));
}

#[test]
fn deeper_children_are_converted_too() {
    let leaf = info("/dev/dm-0", Some("crypt"), None, BlockDeviceType::Partition, false, None);
    let part = info("/dev/sdc1", None, None, BlockDeviceType::Partition, false, Some(vec![leaf]));
    let disk = info("/dev/sdc", None, None, BlockDeviceType::Disk, false, Some(vec![part]));
    let devs = query_all_block_devices(&vec![disk]);
    let p = &devs[0].partitions.as_ref().unwrap()[0];
    let l = &p.partitions.as_ref().unwrap()[0];
    assert_eq!(l.path, "/dev/dm-0");
    assert_eq!(l.repr, "/dev/dm-0 \"crypt\" 7.5G");
    assert!(l.partitions.is_none());
}
