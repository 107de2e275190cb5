use aconfig_storage::flags::{
    assign_flag_ids, group_flags_by_package, resolve_flag_offset, FlagPackage, FlagPermission,
    FlagState, ParsedFlag,
};
use aconfig_storage::hashing::{get_bucket_index, get_table_size};
use aconfig_storage::package_table::{
    PackageTable, PackageTableHeader, PackageTableNode, FILE_VERSION,
};
use aconfig_storage::{u32_to_string, AconfigStorageError, StorageFileType};

fn test_packages() -> Vec<FlagPackage> {
    vec![
        FlagPackage {
            package_name: String::from("com.android.aconfig.storage.test_1"),
            package_id: 0,
            boolean_start_index: 0,
            boolean_flags: vec![],
        },
        FlagPackage {
            package_name: String::from("com.android.aconfig.storage.test_2"),
            package_id: 1,
            boolean_start_index: 10,
            boolean_flags: vec![],
        },
    ]
}

#[test]
fn test_table_contents() {
    let packages = test_packages();
    let package_table = PackageTable::new("system", &packages);
    assert!(package_table.is_ok());

    let header: &PackageTableHeader = &package_table.as_ref().unwrap().header;
    let expected_header = PackageTableHeader {
        version: FILE_VERSION,
        container: String::from("system"),
        file_type: StorageFileType::PackageMap.code(),
        file_size: 159,
        num_packages: 2,
        bucket_offset: 31,
        node_offset: 59,
    };
    assert_eq!(header, &expected_header);

    let buckets: &Vec<Option<u32>> = &package_table.as_ref().unwrap().buckets;
    let expected: Vec<Option<u32>> = vec![Some(59), None, None, Some(109), None, None, None];
    assert_eq!(buckets, &expected);

    let nodes: &Vec<PackageTableNode> = &package_table.as_ref().unwrap().nodes;
    assert_eq!(nodes.len(), 2);
    let first_node_expected = PackageTableNode {
        package_name: String::from("com.android.aconfig.storage.test_2"),
        package_id: 1,
        boolean_offset: 10,
        next_offset: None,
        bucket_index: 0,
    };
    assert_eq!(nodes[0], first_node_expected);
    let second_node_expected = PackageTableNode {
        package_name: String::from("com.android.aconfig.storage.test_1"),
        package_id: 0,
        boolean_offset: 0,
        next_offset: None,
        bucket_index: 3,
    };
    assert_eq!(nodes[1], second_node_expected);
}

#[test]
fn test_table_serialization_matches_header() {
    let packages = test_packages();
    let package_table = PackageTable::new("system", &packages).unwrap();
    let bytes = package_table.as_bytes();
    assert_eq!(bytes.len() as u32, package_table.header.file_size);
    assert_eq!(bytes.len(), 159);
}

#[test]
fn test_built_table_decodes_in_package_map_codec() {
    // Round trip of the build chain: serialize the built table, decode
    // it with the package map reader, and compare field for field.
    let packages = test_packages();
    let built = PackageTable::new("system", &packages).unwrap();
    let bytes = built.as_bytes();
    let decoded = aconfig_storage::package_map::PackageTable::from_bytes(&bytes).unwrap();
    assert_eq!(decoded.header.version, built.header.version);
    assert_eq!(decoded.header.container, built.header.container);
    assert_eq!(decoded.header.file_type, built.header.file_type);
    assert_eq!(decoded.header.file_size, built.header.file_size);
    assert_eq!(decoded.header.num_packages, built.header.num_packages);
    assert_eq!(decoded.header.bucket_offset, built.header.bucket_offset);
    assert_eq!(decoded.header.node_offset, built.header.node_offset);
    assert_eq!(decoded.buckets, built.buckets);
    assert_eq!(decoded.nodes.len(), built.nodes.len());
    for (read, node) in decoded.nodes.iter().zip(built.nodes.iter()) {
        assert_eq!(read.package_name, node.package_name);
        assert_eq!(read.package_id, node.package_id);
        assert_eq!(read.fingerprint, 0);
        assert_eq!(read.boolean_start_index, node.boolean_offset);
        assert_eq!(read.next_offset, node.next_offset);
    }
}

#[test]
fn test_table_size_selection() {
    assert_eq!(get_table_size(0).unwrap(), 7);
    assert_eq!(get_table_size(2).unwrap(), 7);
    assert_eq!(get_table_size(7).unwrap(), 13);
    assert_eq!(get_table_size(98316).unwrap(), 98317);
    let error = get_table_size(98317).unwrap_err();
    assert!(matches!(error, AconfigStorageError::UnsupportedTableSize));
    assert_eq!(
        error.debug_str(),
        "UnsupportedTableSize(Number of items in a hash table exceeds limit.)"
    );
}

#[test]
fn test_bucket_index_is_stable_and_in_range() {
    let a = get_bucket_index("com.android.aconfig.storage.test_1", 7);
    let b = get_bucket_index("com.android.aconfig.storage.test_1", 7);
    assert_eq!(a, b);
    assert!(a < 7);
    assert_eq!(get_bucket_index("com.android.aconfig.storage.test_2", 7), 0);
    assert_eq!(a, 3);
}

fn flag(package: &str, name: &str) -> ParsedFlag {
    ParsedFlag {
        package: String::from(package),
        name: String::from(name),
        container: String::from("system"),
        permission: FlagPermission::ReadWrite,
        state: FlagState::Enabled,
    }
}

#[test]
fn test_group_flags_by_package() {
    let flags = vec![
        flag("com.first", "a"),
        flag("com.second", "b"),
        flag("com.first", "c"),
        flag("com.first", "d"),
        flag("com.second", "e"),
    ];
    let packages = group_flags_by_package(flags);
    assert_eq!(packages.len(), 2);
    assert_eq!(packages[0].package_name, "com.first");
    assert_eq!(packages[0].package_id, 0);
    assert_eq!(packages[0].boolean_start_index, 0);
    assert_eq!(packages[0].boolean_flags.len(), 3);
    assert_eq!(packages[1].package_name, "com.second");
    assert_eq!(packages[1].package_id, 1);
    assert_eq!(packages[1].boolean_start_index, 3);
    assert_eq!(packages[1].boolean_flags.len(), 2);
    // The two ranges tile [0, 5) with no gap and no overlap.
    assert_eq!(
        packages[0].boolean_start_index + packages[0].boolean_flags.len() as u32,
        packages[1].boolean_start_index
    );
    assert_eq!(
        packages[1].boolean_start_index + packages[1].boolean_flags.len() as u32,
        5
    );
}

#[test]
fn test_assign_flag_ids() {
    let flags = vec![flag("com.first", "a"), flag("com.first", "b")];
    let map = assign_flag_ids("com.first", &flags).unwrap();
    assert_eq!(map.len(), 2);
    assert_eq!(map[0].name, "a");
    assert_eq!(map[0].id, 0);
    assert_eq!(map[1].name, "b");
    assert_eq!(map[1].id, 1);
}

#[test]
fn test_assign_flag_ids_wrong_package() {
    let flags = vec![flag("com.first", "a"), flag("com.other", "b")];
    let error = assign_flag_ids("com.first", &flags).unwrap_err();
    assert!(matches!(error, AconfigStorageError::FlagNotInPackage));
}

#[test]
fn test_resolve_flag_offset_assigned() {
    let r = resolve_flag_offset("system", "some_flag", FlagPermission::ReadWrite, FlagState::Enabled, Some(7));
    assert_eq!(r.unwrap(), 7);
}

#[test]
fn test_resolve_flag_offset_exempt() {
    // Read-only, disabled, on a system/vendor/product container: a
    // placeholder offset, no failure.
    for container in ["system", "vendor", "product"] {
        let r = resolve_flag_offset(
            container,
            "some_flag",
            FlagPermission::ReadOnly,
            FlagState::Disabled,
            None,
        );
        assert_eq!(r.unwrap(), 0);
    }
}

#[test]
fn test_resolve_flag_offset_missing() {
    // A read-write flag absent from the id map fails the build.
    let error = resolve_flag_offset(
        "system",
        "some_flag",
        FlagPermission::ReadWrite,
        FlagState::Disabled,
        None,
    )
    .unwrap_err();
    assert!(matches!(error, AconfigStorageError::MissingFlagOffset(name) if name == "some_flag"));

    // So does an enabled read-only flag.
    let error = resolve_flag_offset(
        "system",
        "other_flag",
        FlagPermission::ReadOnly,
        FlagState::Enabled,
        None,
    )
    .unwrap_err();
    assert_eq!(
        error.debug_str(),
        "MissingFlagOffset(missing flag id for other_flag)"
    );

    // And a read-only disabled flag outside system/vendor/product.
    let error = resolve_flag_offset(
        "vendor_custom",
        "some_flag",
        FlagPermission::ReadOnly,
        FlagState::Disabled,
        None,
    )
    .unwrap_err();
    assert!(matches!(error, AconfigStorageError::MissingFlagOffset(_)));
}

#[test]
fn test_bucket_chains_stay_in_their_bucket_and_terminate() {
    // Build a table with enough packages that chains and links exist,
    // then walk every chain by its byte offsets.
    let packages: Vec<FlagPackage> = (0..6)
        .map(|i| FlagPackage {
            package_name: format!("com.android.aconfig.storage.test_{}", i),
            package_id: i,
            boolean_start_index: i * 3,
            boolean_flags: vec![],
        })
        .collect();
    let table = PackageTable::new("system", &packages).unwrap();

    // Absolute byte offset of each node.
    let mut offsets: Vec<u32> = Vec::new();
    let mut off: u32 = table.header.node_offset;
    for node in &table.nodes {
        offsets.push(off);
        off += node.as_bytes().len() as u32;
    }

    for (b, slot) in table.buckets.iter().enumerate() {
        if let Some(first) = slot {
            let mut cursor = *first;
            let mut steps = 0;
            loop {
                let idx = offsets.iter().position(|&o| o == cursor).unwrap();
                let node = &table.nodes[idx];
                // Every node reachable from the slot hashes to this bucket.
                assert_eq!(node.bucket_index as usize, b);
                steps += 1;
                assert!(steps <= table.nodes.len());
                match node.next_offset {
                    Some(next) => cursor = next,
                    None => break,
                }
            }
        }
    }
}

#[test]
fn test_assign_flag_ids_too_many_flags() {
    let mut flags: Vec<ParsedFlag> = Vec::new();
    for _ in 0..65537 {
        flags.push(flag("com.first", "a"));
    }
    let error = assign_flag_ids("com.first", &flags).unwrap_err();
    assert!(matches!(error, AconfigStorageError::TooManyFlags));
}

#[test]
fn test_u32_rendering() {
    assert_eq!(u32_to_string(0), "0");
    assert_eq!(u32_to_string(10), "10");
    assert_eq!(u32_to_string(4294967295), "4294967295");
}

#[test]
fn test_enable_only_new_storage() {
    assert!(aconfig_storage::enable_only_new_storage());
}
