use haucet::erofs::build_options::{BuildOptions, OptionError};
use haucet::erofs::compression::{Compression, CompressionError};
use haucet::erofs::metadata::{
    adjusted_id, capability_bits, host_entry, parse_configs, parse_contexts, EntryMetadata,
    MetadataError, MetadataManifest, MetadataResolver,
};
use haucet::formats::workspace::{
    choose_partition, find_source_dir, is_erofs, normalize_extraction, parse_mkfs_options, repack,
    repack_with_tools,
    validate_hvb_image_size, ErofsManifest, HvbCertificate, HvbFooter, HvbManifest, RepackPlan,
    WorkspaceError,
};
use haucet::shell::split_shell;

fn words(line: &str) -> Vec<String> {
    split_shell(line).unwrap()
}

fn names(list: &[&str]) -> Vec<String> {
    list.iter().map(|name| name.to_string()).collect()
}

#[test]
fn recorded_options_support_separate_and_inline_values() {
    let args = words("-zlz4hc -C 16384 -T 123 -U 01234567-89ab-cdef-0123-456789abcdef --fs-config-file='config dir/fs_config' --all-root");
    let options = BuildOptions::from_args(&args).unwrap();
    assert_eq!(options.cluster_size, 16384);
    assert_eq!(options.timestamp, Some(123));
    assert_eq!(options.uuid.unwrap()[15], 0xef);
    assert_eq!(options.fs_config.unwrap(), "config dir/fs_config");
    assert_eq!(options.force_uid, Some(0));
    assert!(options.compact_indexes);
    assert!(!BuildOptions::from_args(&names(&["-Elegacy-compress"])).unwrap().compact_indexes);
}

fn same(a: &[&str], b: &[&str]) {
    let a = BuildOptions::from_args(&names(a));
    let b = BuildOptions::from_args(&names(b));
    assert_eq!(format!("{a:?}"), format!("{b:?}"));
}

#[test]
fn values_stand_inline_or_apart_anywhere() {
    same(&["-b512"], &["-b", "512"]);
    same(&["-b513"], &["-b", "513"]);
    same(&["-zlz4hc,7", "-b", "1024"], &["-z", "lz4hc,7", "-b1024"]);
    same(&["--mount-point=/vendor"], &["--mount-point", "/vendor"]);
    same(&["-T5", "--force-uid=7", "-C8192"], &["-T", "5", "--force-uid", "7", "-C", "8192"]);
    assert!(BuildOptions::from_args(&names(&["-b512"])).is_ok());
    assert_eq!(BuildOptions::from_args(&names(&["-b", "512"])).unwrap().block_size, 512);
}

#[test]
fn operands_are_refused_after_any_options() {
    for before in [vec![], vec!["-b512"], vec!["-z", "lz4", "-T", "5"]] {
        assert!(BuildOptions::from_args(&names(&before)).is_ok());
        for after in [vec![], vec!["-b512"], vec!["-q", "?"]] {
            let mut all = before.clone();
            all.push("image.erofs");
            all.extend(after);
            let error = BuildOptions::from_args(&names(&all)).unwrap_err();
            assert_eq!(error, OptionError::UnexpectedOperand);
        }
    }
}

#[test]
fn rejects_unsupported_modes_and_invalid_values() {
    for args in [
        "--tar",
        "-Efragments",
        "-zunknown",
        "-b17",
        "-C8193",
        "-U not-a-uuid",
        "-T",
        "--all-root=1",
        "-\u{e9}",
    ] {
        assert!(BuildOptions::from_args(&words(args)).is_err(), "{args}");
    }
}

#[test]
fn each_wrong_option_has_its_error() {
    let error = |line: &str| BuildOptions::from_args(&words(line)).map(|_| ()).unwrap_err();
    assert_eq!(error("operand"), OptionError::UnexpectedOperand);
    assert_eq!(error("-T"), OptionError::MissingValue);
    assert_eq!(error("--all-root=1"), OptionError::UnexpectedValue);
    assert_eq!(error("--tar"), OptionError::Unsupported);
    assert_eq!(error("-zunknown"), OptionError::Compression(CompressionError::Unsupported));
    assert_eq!(error("-T nine"), OptionError::InvalidNumber);
    assert_eq!(error("-U not-a-uuid"), OptionError::InvalidUuid);
    assert_eq!(error("-Efragments"), OptionError::ExtendedOption);
    assert_eq!(error("-b17"), OptionError::BlockSize);
    assert_eq!(error("-C8193"), OptionError::ClusterSize);
    assert_eq!(error("-L 01234567890123456"), OptionError::VolumeLabel);
    assert_eq!(error("--mount-point=/a/../b"), OptionError::MountPoint);
}

#[test]
fn options_are_checked_again_before_a_build() {
    assert_eq!(BuildOptions::default().validate(), Ok(()));
    let wrong = BuildOptions {
        compression: Compression::Lz4Hc { level: 13 },
        ..BuildOptions::default()
    };
    assert_eq!(wrong.validate(), Err(OptionError::Level));
}

#[test]
fn compression_names_read_back() {
    for name in ["none", "lz4", "lz4hc,9"] {
        let chars: Vec<char> = name.chars().collect();
        assert_eq!(Compression::parse(&chars).unwrap().name(), name);
    }
    let parse = |name: &str| {
        let chars: Vec<char> = name.chars().collect();
        Compression::parse(&chars)
    };
    assert_eq!(parse("lz4hc"), Ok(Compression::Lz4Hc { level: 9 }));
    assert_eq!(parse("lz4hc,13"), Err(CompressionError::LevelOutOfRange));
    assert_eq!(parse("lz4hc,x"), Err(CompressionError::InvalidLevel));
    assert_eq!(parse("zstd"), Err(CompressionError::Unsupported));
}

#[test]
fn shell_words_are_split() {
    assert_eq!(words("a 'b c' d\\ e"), names(&["a", "b c", "d e"]));
    assert!(split_shell("'open").is_none());
}

#[test]
fn parses_split_cluster_size_and_quoted_relocated_paths() {
    let files = names(&["system_fs_config", "system_file_contexts"]);
    let parsed = parse_mkfs_options(
        "mkfs.erofs options: -zlz4hc -C 16384 --fs-config-file '/old work/config/system_fs_config' --file-contexts='/old work/config/system_file_contexts' 'new system.img' '/old work/system'\n",
        "config with spaces",
        &files,
    )
    .unwrap();
    assert_eq!(parsed.cluster_size, 16384);
    assert_eq!(parsed.compression, Compression::Lz4Hc { level: 9 });
    assert_eq!(parsed.fs_config.unwrap(), "config with spaces/system_fs_config");
    assert_eq!(parsed.file_contexts.unwrap(), "config with spaces/system_file_contexts");
}

#[test]
fn refuses_unsupported_recorded_options() {
    assert!(parse_mkfs_options(
        "mkfs.erofs options: --not-a-real-option out.img source\n",
        "config",
        &names(&[]),
    )
    .is_err());
}

#[test]
fn preserves_quoted_backslashes_in_volume_labels() {
    let parsed = parse_mkfs_options(
        "mkfs.erofs options: -L 'stock\\image' out.img source\n",
        "config",
        &names(&[]),
    )
    .unwrap();
    assert_eq!(parsed.volume_label, "stock\\image");
}

#[test]
fn preserves_option_like_volume_labels() {
    let parsed = parse_mkfs_options(
        "mkfs.erofs options: -L '--file-contexts' out.img source\n",
        "config",
        &names(&[]),
    )
    .unwrap();
    assert_eq!(parsed.volume_label, "--file-contexts");
    assert!(parsed.file_contexts.is_none());
}

#[test]
fn parses_unquoted_windows_paths_from_fs_options() {
    let files = names(&["system_fs_config", "system_file_contexts"]);
    let parsed = parse_mkfs_options(
        "mkfs.erofs options: -zlz4hc --fs-config-file=C:\\old\\config\\system_fs_config --file-contexts=C:\\old\\config\\system_file_contexts system_repack.img C:\\old\\system\n",
        "config",
        &files,
    )
    .unwrap();
    assert_eq!(parsed.fs_config.unwrap(), "config/system_fs_config");
    assert_eq!(parsed.file_contexts.unwrap(), "config/system_file_contexts");
}

#[test]
fn recorded_options_have_their_errors() {
    let error = |content: &str| {
        parse_mkfs_options(content, "config", &names(&[])).map(|_| ()).unwrap_err()
    };
    assert_eq!(error("nothing here\n"), WorkspaceError::MissingOptions);
    assert_eq!(error("mkfs.erofs options: 'open a b\n"), WorkspaceError::Quoting);
    assert_eq!(error("mkfs.erofs options: one\n"), WorkspaceError::MissingPaths);
    assert_eq!(
        error("mkfs.erofs options: --fs-config-file=/old/system_fs_config out.img source\n"),
        WorkspaceError::NoSingleFile
    );
    assert_eq!(
        error("mkfs.erofs options: --fs-config-file=/old/ out.img source\n"),
        WorkspaceError::InvalidPath
    );
}

fn manifest(hvb: Option<HvbManifest>, original_size: u64) -> ErofsManifest {
    ErofsManifest {
        version: 1,
        partition: "system".to_string(),
        original_file_name: "system.img".to_string(),
        original_size,
        original_sha256: String::new(),
        source_dir: "system".to_string(),
        config_dir: "config".to_string(),
        fs_options_file: "config/system_fs_options".to_string(),
        extract_erofs_version: String::new(),
        mkfs_erofs_version: String::new(),
        hvb,
    }
}

fn raw(size: usize) -> Vec<u8> {
    let mut image = vec![0; size];
    image[1024..1028].copy_from_slice(&[0xe2, 0xe1, 0xf5, 0xe0]);
    image
}

#[test]
fn rejected_growth_leaves_no_output_and_can_be_explicitly_allowed() {
    let manifest = manifest(None, 1);
    assert!(matches!(
        repack(&manifest, raw(8192), None, false),
        Err(WorkspaceError::Grown)
    ));
    match repack(&manifest, raw(8192), None, true) {
        Ok(RepackPlan::Raw { image }) => assert!(image.len() as u64 > manifest.original_size),
        other => panic!("{other:?}"),
    }
}

#[test]
fn smaller_images_are_filled_up() {
    match repack(&manifest(None, 16384), raw(8192), None, false) {
        Ok(RepackPlan::Raw { image }) => {
            assert_eq!(image.len(), 16384);
            assert!(image[8192..].iter().all(|&b| b == 0));
        }
        other => panic!("{other:?}"),
    }
    assert!(matches!(
        repack(&manifest(None, 16384), vec![0; 8192], None, false),
        Err(WorkspaceError::InvalidImage)
    ));
    let old = ErofsManifest { version: 9, ..manifest(None, 1) };
    assert!(matches!(
        repack(&old, raw(8192), None, true),
        Err(WorkspaceError::UnsupportedVersion)
    ));
}

#[test]
fn wrapped_images_stay_within_the_certified_length() {
    let footer =
        HvbFooter { cert_offset: 131072, cert_size: 240, image_size: 8192, partition_size: 262144 };
    let wrapped = |footer| {
        manifest(
            Some(HvbManifest { footer, certificate_file: "config/hvb-certificate.bin".to_string() }),
            262144,
        )
    };
    let certificate = |length, image_len| Some(HvbCertificate { length, image_len });
    for allow_grow in [false, true] {
        assert!(matches!(
            repack(&wrapped(footer), raw(8192), certificate(240, 8192), allow_grow),
            Ok(RepackPlan::Wrap)
        ));
        assert!(matches!(
            repack(&wrapped(footer), raw(8192), certificate(240, 4096), allow_grow),
            Err(WorkspaceError::ExceedsMapping)
        ));
        assert!(matches!(
            repack_with_tools(&wrapped(footer), raw(8192), certificate(240, 8192), &"tools", allow_grow),
            Ok(RepackPlan::Wrap)
        ));
    }
    assert!(matches!(
        repack(&wrapped(footer), raw(8192), None, false),
        Err(WorkspaceError::MissingCertificate)
    ));
    assert!(matches!(
        repack(&wrapped(footer), raw(8192), certificate(241, 8192), false),
        Err(WorkspaceError::CertificateSize)
    ));
    let stated = HvbCertificate { length: 240, image_len: 4096 };
    assert_eq!(
        validate_hvb_image_size(8192, &stated, &footer),
        Err(WorkspaceError::ExceedsMapping)
    );
}

#[test]
fn installed_tools_do_not_matter_to_a_repack() {
    let plain = manifest(None, 8192);
    for (size, allow_grow) in [(4096, false), (8192, true), (12288, false), (12288, true)] {
        let without = repack(&plain, raw(size), None, allow_grow);
        let some = repack_with_tools(&plain, raw(size), None, &"mkfs.erofs", allow_grow);
        let other = repack_with_tools(&plain, raw(size), None, &Some(5u64), allow_grow);
        assert_eq!(format!("{without:?}"), format!("{some:?}"));
        assert_eq!(format!("{without:?}"), format!("{other:?}"));
    }
}

#[test]
fn extracted_files_take_the_name_of_the_partition() {
    let files = names(&["system_fs_config", "system_file_contexts", "system_fs_options"]);
    let renames = normalize_extraction("system", "vendor", &files).unwrap();
    assert_eq!(
        renames[0],
        ("system_fs_config".to_string(), "vendor_fs_config".to_string())
    );
    assert_eq!(renames.len(), 3);
    assert!(normalize_extraction("system", "system", &files).unwrap().is_empty());
    assert_eq!(
        normalize_extraction("system", "../vendor", &files).unwrap_err(),
        WorkspaceError::UnsafePartitionName
    );
    assert_eq!(
        normalize_extraction("system", "vendor", &names(&[])).unwrap_err(),
        WorkspaceError::NoSingleFile
    );
    assert_eq!(choose_partition(Some("vendor"), "system"), "vendor");
    assert_eq!(choose_partition(None, "system"), "system");
    assert_eq!(find_source_dir(&names(&["config", "system"])), Ok(1));
    assert_eq!(
        find_source_dir(&names(&["config"])),
        Err(WorkspaceError::NoSingleSource)
    );
    assert!(is_erofs(&raw(2048)));
    assert!(!is_erofs(&[0; 100]));
}

fn file(mode: u32) -> EntryMetadata {
    host_entry(mode, 10, 20, 30, 40, 0, Vec::new()).unwrap()
}

fn resolver(config: &str, contexts: &str, options: BuildOptions) -> MetadataResolver {
    MetadataResolver::load(options, None, Some(config), Some(contexts)).unwrap()
}

#[test]
fn configured_metadata_replaces_that_of_the_host() {
    let found = resolver(
        "/ 0 0 0755\n/system-note.txt 123 456 4750 capabilities=0x7\n",
        "/system-note\\.txt u:object_r:system_file:s0\n",
        BuildOptions { mount_point: "/".to_string(), ..BuildOptions::default() },
    )
    .resolve("/system-note.txt", &file(0x8000 | 0o644), None)
    .unwrap();
    assert_eq!((found.uid, found.gid, found.mode), (123, 456, 0x8000 | 0o4750));
    let label = found.xattrs.iter().find(|(name, _)| name == "security.selinux").unwrap();
    assert_eq!(label.1, b"u:object_r:system_file:s0");
    let capability = found.xattrs.iter().find(|(name, _)| name == "security.capability").unwrap();
    assert_eq!(capability_bits(&capability.1), Some(7));
}

#[test]
fn contexts_are_whole_patterns_by_kind() {
    let contexts = parse_contexts("/bin/.* -- u:object_r:file:s0\n/bin -d u:object_r:dir:s0\n").unwrap();
    assert_eq!(contexts.len(), 2);
    let labels = |path: &str, mode: u32| {
        resolver(
            "",
            "/bin/.* -- u:object_r:file:s0\n/bin -d u:object_r:dir:s0\n",
            BuildOptions { mount_point: "/".to_string(), ..BuildOptions::default() },
        )
        .resolve(path, &file(mode), None)
        .unwrap()
        .xattrs
    };
    assert_eq!(labels("/bin/sh", 0x8000)[0].1, b"u:object_r:file:s0");
    assert_eq!(labels("/bin", 0x4000)[0].1, b"u:object_r:dir:s0");
    assert!(labels("/bin/sh", 0x4000).is_empty());
    assert!(labels("/usr/bin/sh", 0x8000).is_empty());
}

#[test]
fn wrong_metadata_has_its_error() {
    let config = |line: &str| parse_configs(line).map(|_| ()).unwrap_err();
    assert_eq!(config("'open 0 0 0755"), MetadataError::ConfigQuoting);
    assert_eq!(config("/a 0 0"), MetadataError::ConfigFields);
    assert_eq!(config("/a 0 0 9"), MetadataError::ConfigMode);
    assert_eq!(config("/a 0 0 17777"), MetadataError::ConfigPermissions);
    assert_eq!(config("/a 0 0 0755 capabilities=x"), MetadataError::ConfigCapabilities);
    assert_eq!(config("/a 0 0 0755 other"), MetadataError::ConfigUnknownField);
    assert_eq!(config("/a x 0 0755"), MetadataError::ConfigUser);
    assert_eq!(config("/a 0 x 0755"), MetadataError::ConfigGroup);
    let context = |line: &str| parse_contexts(line).map(|_| ()).unwrap_err();
    assert_eq!(context("/a\n"), MetadataError::ContextFields);
    assert_eq!(context("/a -x label\n"), MetadataError::ContextType);
    assert_eq!(context("/(a label\n"), MetadataError::ContextPattern);
    assert_eq!(adjusted_id(5, -6), Err(MetadataError::OwnershipOffset));
    assert_eq!(adjusted_id(5, -5), Ok(0));
    assert_eq!(
        host_entry(0x8000, 0, 0, -1, 0, 0, Vec::new()).unwrap_err(),
        MetadataError::TimeBeforeEpoch
    );
    assert_eq!(
        host_entry(0x8000, 0, 0, 0, 0, 1 << 32, Vec::new()).unwrap_err(),
        MetadataError::DeviceNumber
    );
    let recorded = |version: u32, path: &str, mode: u32| {
        MetadataManifest {
            version,
            block_size: 4096,
            uuid: [0; 16],
            volume_label: String::new(),
            build_time: 0,
            extraction_root: None,
            entries: vec![(path.to_string(), EntryMetadata { mode, ..file(0x8000) })],
        }
        .check()
    };
    assert_eq!(recorded(1, "/a", 0x8000), Ok(()));
    assert_eq!(recorded(2, "/a", 0x8000), Err(MetadataError::UnsupportedVersion));
    assert_eq!(recorded(1, "/a/../b", 0x8000), Err(MetadataError::InvalidPath));
    assert_eq!(recorded(1, "/a", 0x1_0000), Err(MetadataError::InvalidInode));
}

#[test]
fn ownership_is_forced_or_moved() {
    let options = BuildOptions { force_uid: Some(0), gid_offset: 5, ..BuildOptions::default() };
    let found = resolver("", "", options).resolve("/a", &file(0x8000 | 0o644), None).unwrap();
    assert_eq!((found.uid, found.gid), (0, 25));
}

#[test]
fn recorded_metadata_stands_for_files_of_its_kind() {
    let manifest = MetadataManifest {
        version: 1,
        block_size: 4096,
        uuid: [0; 16],
        volume_label: String::new(),
        build_time: 0,
        extraction_root: None,
        entries: vec![("/bin".to_string(), file(0o100755)), ("/bin".to_string(), file(0o040755))],
    };
    let found =
        MetadataResolver::load(BuildOptions::default(), Some(manifest), None, None).unwrap();
    assert!(found.is_recorded("/bin", 0o040700));
    assert!(!found.is_recorded("/bin", 0o100755));
    assert!(!found.is_recorded("/lib", 0o040700));
    let none = MetadataResolver::load(BuildOptions::default(), None, None, None).unwrap();
    assert!(!none.is_recorded("/bin", 0o040700));
}
