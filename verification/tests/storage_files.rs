use aconfig_storage::flag_value::{FlagValueHeader, FlagValueList, find_boolean_flag_value};
use aconfig_storage::flag_info::{FlagInfoHeader, FlagInfoList, FlagInfoNode, create_flag_info};
use aconfig_storage::flags::{FlagPackage, FlagPermission, FlagState, ParsedFlag};
use aconfig_storage::package_map::{
    PackageTable, create_test_v1_package_table, create_test_v1_package_table_bytes,
};
use aconfig_storage::flag_map::{FlagTable, FlagTableHeader, FlagTableNode, StoredFlagType};
use aconfig_storage::listing::list_flags;
use aconfig_storage::{AconfigStorageError, StorageFileType, FILE_VERSION};

fn create_test_flag_value_list() -> FlagValueList {
    let header = FlagValueHeader {
        version: FILE_VERSION,
        container: String::from("system"),
        file_type: StorageFileType::FlagVal.code(),
        file_size: 35,
        num_flags: 8,
        boolean_value_offset: 27,
    };
    let booleans: Vec<bool> = vec![false, true, false, false, true, true, false, true];
    FlagValueList { header, booleans }
}

#[test]
// this test point locks down flag value query
fn test_flag_value_query() {
    let flag_value_list = create_test_flag_value_list().into_bytes();
    let baseline: Vec<bool> = vec![false, true, false, false, true, true, false, true];
    for (offset, expected_value) in baseline.into_iter().enumerate() {
        let flag_value = find_boolean_flag_value(&flag_value_list[..], offset as u32).unwrap();
        assert_eq!(flag_value, expected_value);
    }
}

#[test]
// this test point locks down query beyond the end of boolean section
fn test_boolean_out_of_range() {
    let flag_value_list = create_test_flag_value_list().into_bytes();
    let error = find_boolean_flag_value(&flag_value_list[..], 8).unwrap_err();
    assert_eq!(
        error.debug_str(),
        "InvalidStorageFileOffset(Flag value offset goes beyond the end of the file.)"
    );
}

#[test]
// this test point locks down query error when file has a higher version
fn test_higher_version_storage_file() {
    let mut value_list = create_test_flag_value_list();
    value_list.header.version = FILE_VERSION + 1;
    let flag_value = value_list.into_bytes();
    let error = find_boolean_flag_value(&flag_value[..], 4).unwrap_err();
    assert_eq!(
        error.debug_str(),
        format!(
            "HigherStorageFileVersion(Cannot read storage file with a higher version of {} with lib version {})",
            FILE_VERSION + 1,
            FILE_VERSION
        )
    );
}

#[test]
fn test_flag_value_round_trip() {
    let list = create_test_flag_value_list();
    let bytes = list.into_bytes();
    assert_eq!(bytes.len(), 35);
    let decoded = FlagValueList::from_bytes(&bytes[..]).unwrap();
    assert_eq!(decoded, create_test_flag_value_list());
}

#[test]
fn test_v1_package_table_round_trip() {
    let bytes = create_test_v1_package_table_bytes();
    assert_eq!(bytes.len(), 209);
    let decoded = PackageTable::from_bytes(&bytes[..]).unwrap();
    assert_eq!(decoded, create_test_v1_package_table());
}

#[test]
fn test_v2_package_table_round_trip() {
    let mut table = create_test_v1_package_table();
    table.header.version = 2;
    // Each node grows by its eight fingerprint bytes.
    table.header.file_size = 233;
    table.nodes[0].fingerprint = 1234567890;
    table.nodes[1].fingerprint = 987654321;
    let bytes = table.into_bytes();
    let decoded = PackageTable::from_bytes(&bytes[..]).unwrap();
    assert_eq!(decoded.header.version, 2);
    assert_eq!(decoded.nodes[0].fingerprint, 1234567890);
    assert_eq!(decoded.nodes[1].fingerprint, 987654321);
    assert_eq!(decoded, table);
}

#[test]
fn test_package_table_bytes_parse_fail() {
    let bytes = create_test_v1_package_table_bytes();
    let error = PackageTable::from_bytes(&bytes[..100]).unwrap_err();
    assert_eq!(error, AconfigStorageError::BytesParseFail);
}

fn parsed_flag(
    package: &str,
    name: &str,
    container: &str,
    permission: FlagPermission,
    state: FlagState,
) -> ParsedFlag {
    ParsedFlag {
        package: String::from(package),
        name: String::from(name),
        container: String::from(container),
        permission,
        state,
    }
}

fn mockup_packages() -> Vec<FlagPackage> {
    let p1 = "com.android.aconfig.storage.test_1";
    let p2 = "com.android.aconfig.storage.test_2";
    let p4 = "com.android.aconfig.storage.test_4";
    vec![
        FlagPackage {
            package_name: String::from(p1),
            package_id: 0,
            boolean_start_index: 0,
            boolean_flags: vec![
                parsed_flag(p1, "disabled_rw", "system", FlagPermission::ReadWrite, FlagState::Disabled),
                parsed_flag(p1, "enabled_ro", "system", FlagPermission::ReadOnly, FlagState::Enabled),
                parsed_flag(p1, "enabled_rw", "system", FlagPermission::ReadWrite, FlagState::Enabled),
            ],
        },
        FlagPackage {
            package_name: String::from(p2),
            package_id: 1,
            boolean_start_index: 3,
            boolean_flags: vec![
                parsed_flag(p2, "disabled_rw", "system", FlagPermission::ReadWrite, FlagState::Disabled),
                parsed_flag(p2, "enabled_fixed_ro", "system", FlagPermission::ReadOnly, FlagState::Enabled),
                parsed_flag(p2, "enabled_ro", "system", FlagPermission::ReadOnly, FlagState::Enabled),
            ],
        },
        FlagPackage {
            package_name: String::from(p4),
            package_id: 2,
            boolean_start_index: 6,
            boolean_flags: vec![
                parsed_flag(p4, "enabled_fixed_ro", "system", FlagPermission::ReadOnly, FlagState::Enabled),
                parsed_flag(p4, "enabled_rw", "system", FlagPermission::ReadWrite, FlagState::Enabled),
            ],
        },
    ]
}

fn create_test_flag_info_list() -> FlagInfoList {
    let header = FlagInfoHeader {
        version: FILE_VERSION,
        container: String::from("mockup"),
        file_type: StorageFileType::FlagInfo.code(),
        file_size: 35,
        num_flags: 8,
        boolean_flag_offset: 27,
    };
    let is_flag_rw = [true, false, true, true, false, false, false, true];
    let nodes = is_flag_rw.iter().map(|&rw| FlagInfoNode::create(rw)).collect();
    FlagInfoList { header, nodes }
}

#[test]
// this test point locks down the flag info creation and each field
fn test_list_contents() {
    let packages = mockup_packages();
    let flag_info_list = create_flag_info("mockup", &packages);
    assert!(flag_info_list.is_ok());
    let expected_flag_info_list = create_test_flag_info_list();
    assert_eq!(flag_info_list.unwrap(), expected_flag_info_list);
}

#[test]
fn test_flag_info_round_trip() {
    let list = create_test_flag_info_list();
    let bytes = list.into_bytes();
    assert_eq!(bytes.len(), 35);
    let decoded = FlagInfoList::from_bytes(&bytes[..]).unwrap();
    assert_eq!(decoded, create_test_flag_info_list());
}

fn create_test_flag_table() -> FlagTable {
    // Two flags of package 0, stored at local offsets 0 and 1.
    let header = FlagTableHeader {
        version: FILE_VERSION,
        container: String::from("mockup"),
        file_type: StorageFileType::FlagMap.code(),
        file_size: 97,
        num_flags: 2,
        bucket_offset: 31,
        node_offset: 59,
    };
    let buckets: Vec<Option<u32>> = vec![Some(59), None, None, Some(78), None, None, None];
    let nodes = vec![
        FlagTableNode {
            package_id: 0,
            flag_name: String::from("flag_a"),
            flag_type: StoredFlagType::ReadWriteBoolean.code(),
            flag_index: 0,
            next_offset: None,
        },
        FlagTableNode {
            package_id: 0,
            flag_name: String::from("flag_b"),
            flag_type: StoredFlagType::ReadOnlyBoolean.code(),
            flag_index: 1,
            next_offset: None,
        },
    ];
    FlagTable { header, buckets, nodes }
}

#[test]
fn test_flag_table_round_trip() {
    let table = create_test_flag_table();
    let bytes = table.into_bytes();
    let decoded = FlagTable::from_bytes(&bytes[..]).unwrap();
    assert_eq!(decoded, create_test_flag_table());
}

#[test]
fn test_list_flags_joins_the_three_files() {
    // One package starting at boolean index 0, holding both flags.
    let mut package_table = create_test_v1_package_table();
    package_table.header.num_packages = 1;
    package_table.nodes.truncate(1);
    package_table.nodes[0].package_id = 0;
    package_table.nodes[0].boolean_start_index = 0;
    let package_map = package_table.into_bytes();
    let flag_map = create_test_flag_table().into_bytes();
    let mut value_list = create_test_flag_value_list();
    value_list.header.num_flags = 2;
    value_list.booleans = vec![true, false];
    let flag_val = value_list.into_bytes();

    let rows = list_flags(&package_map, &flag_map, &flag_val).unwrap();
    assert_eq!(rows.len(), 2);
    assert_eq!(rows[0].package_name, "com.android.aconfig.storage.test_2");
    assert_eq!(rows[0].flag_name, "flag_a");
    assert_eq!(rows[0].flag_type, StoredFlagType::ReadWriteBoolean);
    assert!(rows[0].flag_value);
    assert_eq!(rows[1].flag_name, "flag_b");
    assert_eq!(rows[1].flag_type, StoredFlagType::ReadOnlyBoolean);
    assert!(!rows[1].flag_value);
}

#[test]
fn test_list_flags_gates_higher_versions() {
    let mut package_table = create_test_v1_package_table();
    package_table.header.num_packages = 1;
    package_table.nodes.truncate(1);
    package_table.nodes[0].package_id = 0;
    package_table.nodes[0].boolean_start_index = 0;
    let package_map = package_table.into_bytes();
    let mut flag_table = create_test_flag_table();
    flag_table.header.version = FILE_VERSION + 1;
    let flag_map = flag_table.into_bytes();
    let mut value_list = create_test_flag_value_list();
    value_list.header.num_flags = 2;
    value_list.booleans = vec![true, false];
    let flag_val = value_list.into_bytes();

    let err = list_flags(&package_map, &flag_map, &flag_val).unwrap_err();
    assert_eq!(err, AconfigStorageError::HigherStorageFileVersion(FILE_VERSION + 1));
}

#[test]
fn test_flag_value_byte_other_than_one_reads_false() {
    let mut bytes = create_test_flag_value_list().into_bytes();
    // Overwrite the first boolean slot (at the boolean value offset) with 2.
    bytes[27] = 2;
    let flag_value = find_boolean_flag_value(&bytes[..], 0).unwrap();
    assert!(!flag_value);
}
