use aconfig_storage::storage_record::{
    to_binary_proto, try_from_binary_proto, verify_fields, StorageFileInfo, StorageFiles,
    StorageProtoError,
};
use aconfig_storage::aflags::{
    format_flag_row, list, set_flag, AflagsError, Flag, FlagPermission, OverrideType, PaddingInfo,
};

fn record(
    version: u32,
    container: &str,
    package_map: &str,
    flag_map: &str,
    flag_val: &str,
    timestamp: u64,
) -> StorageFileInfo {
    StorageFileInfo {
        version,
        container: String::from(container),
        package_map: String::from(package_map),
        flag_map: String::from(flag_map),
        flag_val: String::from(flag_val),
        timestamp,
    }
}

#[test]
fn test_parse_storage_record_pb() {
    let storage_files = StorageFiles {
        files: vec![
            record(
                0,
                "system",
                "/system/etc/package.map",
                "/system/etc/flag.map",
                "/metadata/aconfig/system.val",
                12345,
            ),
            record(
                1,
                "product",
                "/product/etc/package.map",
                "/product/etc/flag.map",
                "/metadata/aconfig/product.val",
                54321,
            ),
        ],
    };
    let binary_proto_bytes = to_binary_proto(&storage_files);
    let storage_files = try_from_binary_proto(&binary_proto_bytes).unwrap();
    assert_eq!(storage_files.files.len(), 2);
    let system_file = &storage_files.files[0];
    assert_eq!(system_file.version, 0);
    assert_eq!(system_file.container, "system");
    assert_eq!(system_file.package_map, "/system/etc/package.map");
    assert_eq!(system_file.flag_map, "/system/etc/flag.map");
    assert_eq!(system_file.flag_val, "/metadata/aconfig/system.val");
    assert_eq!(system_file.timestamp, 12345);
    let product_file = &storage_files.files[1];
    assert_eq!(product_file.version, 1);
    assert_eq!(product_file.container, "product");
    assert_eq!(product_file.package_map, "/product/etc/package.map");
    assert_eq!(product_file.flag_map, "/product/etc/flag.map");
    assert_eq!(product_file.flag_val, "/metadata/aconfig/product.val");
    assert_eq!(product_file.timestamp, 54321);
}

#[test]
fn test_parse_invalid_storage_record_pb() {
    let files = StorageFiles {
        files: vec![record(
            0,
            "system",
            "",
            "/system/etc/flag.map",
            "/metadata/aconfig/system.val",
            12345,
        )],
    };
    let binary_proto_bytes = to_binary_proto(&files);
    let err = try_from_binary_proto(&binary_proto_bytes).unwrap_err();
    assert!(
        matches!(err, StorageProtoError::MissingPackageMap { container } if container == "system")
    );

    let files = StorageFiles {
        files: vec![record(
            0,
            "system",
            "/system/etc/package.map",
            "",
            "/metadata/aconfig/system.val",
            12345,
        )],
    };
    let binary_proto_bytes = to_binary_proto(&files);
    let err = try_from_binary_proto(&binary_proto_bytes).unwrap_err();
    assert!(
        matches!(err, StorageProtoError::MissingFlagMap { container } if container == "system")
    );

    let files = StorageFiles {
        files: vec![record(
            0,
            "system",
            "/system/etc/package.map",
            "/system/etc/flag.map",
            "",
            12345,
        )],
    };
    let binary_proto_bytes = to_binary_proto(&files);
    let err = try_from_binary_proto(&binary_proto_bytes).unwrap_err();
    assert!(
        matches!(err, StorageProtoError::MissingFlagValue { container } if container == "system")
    );
}

#[test]
fn test_verify_fields_passes_on_complete_entries() {
    let files = StorageFiles {
        files: vec![record(0, "system", "p.map", "f.map", "s.val", 1)],
    };
    assert!(verify_fields(&files).is_ok());
}

#[test]
fn test_parse_rejects_malformed_bytes() {
    let garbage: Vec<u8> = vec![1, 2, 3];
    let err = try_from_binary_proto(&garbage).unwrap_err();
    assert!(matches!(err, StorageProtoError::Proto));
}

fn test_flag(package: &str, name: &str, value: &str, permission: FlagPermission) -> Flag {
    Flag {
        namespace: String::from("test_ns"),
        name: String::from(name),
        package: String::from(package),
        container: String::from("system"),
        value: String::from(value),
        permission,
        override_type: OverrideType::Default,
    }
}

#[test]
fn test_format_flag_row() {
    let flag = test_flag("com.example", "my_flag", "true", FlagPermission::ReadWrite);
    let info = PaddingInfo {
        longest_package_col: 11,
        longest_name_col: 7,
        longest_val_col: 5,
        longest_override_type_col: 7,
        longest_permission_col: 10,
    };
    let row = format_flag_row(&flag, &info);
    assert_eq!(row, "com.example my_flag true  default read-write system\n");
}

#[test]
fn test_list_output() {
    let flags = vec![
        test_flag("com.example", "my_flag", "true", FlagPermission::ReadWrite),
        test_flag("com.x", "another_flag", "false", FlagPermission::ReadOnly),
    ];
    let output = list(&flags);
    let expected = "com.example my_flag      true  default read-write system\n\
                    com.x       another_flag false default read-only  system\n";
    assert_eq!(output, expected);
}

#[test]
fn test_set_flag_success() {
    let flags = vec![test_flag("com.example", "my_flag", "false", FlagPermission::ReadWrite)];
    let action = set_flag(&flags, "com.example", "my_flag", "true").unwrap();
    assert_eq!(action.namespace, "test_ns");
    assert_eq!(
        action.message,
        "Successfully enabled flag com.example/my_flag. Reboot the device to apply the change."
    );
    let action = set_flag(&flags, "com.example", "my_flag", "false").unwrap();
    assert_eq!(
        action.message,
        "Successfully disabled flag com.example/my_flag. Reboot the device to apply the change."
    );
}

#[test]
fn test_set_flag_not_found() {
    let flags = vec![test_flag("com.example", "my_flag", "false", FlagPermission::ReadWrite)];
    let err = set_flag(&flags, "com.example", "no_such_flag", "true").unwrap_err();
    assert_eq!(
        err.message(),
        "no aconfig flag 'com.example/no_such_flag'. Does the flag have an .aconfig definition?"
    );
}

#[test]
fn test_set_flag_read_only() {
    let flags = vec![test_flag("com.example", "my_flag", "false", FlagPermission::ReadOnly)];
    let err = set_flag(&flags, "com.example", "my_flag", "true").unwrap_err();
    assert_eq!(
        err.message(),
        "could not write flag 'com.example/my_flag', it is read-only for the current release configuration."
    );
}

#[test]
fn test_set_flag_bad_value() {
    let flags = vec![test_flag("com.example", "my_flag", "false", FlagPermission::ReadWrite)];
    let err = set_flag(&flags, "com.example", "my_flag", "maybe").unwrap_err();
    assert!(matches!(err, AflagsError::UnsupportedValue { value } if value == "maybe"));
}
