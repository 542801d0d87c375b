use pandora_core::auth::{pick_unique, KeyringFault, MinecraftAccessToken, SecretStorageError};
use pandora_core::directories::{join, LauncherDirectories};
use pandora_core::serial::{AtomicSerialProvider, AtomicSetSerial, Serial};
use pandora_core::text::same_text;
use pandora_core::update::{
    app_restore_command, app_swap_command, find_named, in_app_bundle, replace_os_str,
    unix_swap_command, update_size_text, windows_swap_command, UpdateInstallType, UpdateManifest,
    UpdateManifestArchs, UpdateManifestExe, UpdateManifestExes,
};

#[test]
fn a_serial_steps_and_wraps() {
    let mut s = Serial::default();
    assert_eq!(s, Serial(0));
    s.increment();
    assert_eq!(s, Serial(1));
    let mut last = Serial(usize::MAX);
    last.increment();
    assert_eq!(last, Serial(0));
}

#[test]
fn serials_compare_along_the_shorter_way() {
    assert!(Serial(1) < Serial(2));
    assert!(Serial(2) > Serial(1));
    assert!(Serial(5) <= Serial(5));
    assert_eq!(Serial(5).partial_cmp(&Serial(5)), Some(std::cmp::Ordering::Equal));
    // just after the wrap is later than just before it
    assert!(Serial(usize::MAX) < Serial(0));
    assert!(Serial(3) > Serial(usize::MAX - 3));
    // half the range apart and more, the order turns round
    let half = usize::MAX / 2;
    assert!(Serial(0) < Serial(half - 1));
    assert!(Serial(0) > Serial(half));
    assert!(Serial(0) > Serial(half + 1));
}

#[test]
fn shared_serials() {
    let cell = AtomicSetSerial::default();
    assert_eq!(cell.get(), Serial(0));
    cell.set(Serial(41));
    let other = cell.clone();
    assert_eq!(other.get(), Serial(41));
    let source = AtomicSerialProvider::default();
    assert_eq!(source.next(), Serial(1));
    assert_eq!(source.clone().next(), Serial(2));
    assert_eq!(source.next(), Serial(3));
}

#[test]
fn the_access_token_gives_its_text() {
    let t = MinecraftAccessToken("SECRET-REDACTED".to_string());
    assert_eq!(t.secret(), "SECRET-REDACTED");
}

#[test]
fn keyring_faults_become_errors() {
    let cases = [
        (KeyringFault::FileIo, SecretStorageError::IoError),
        (KeyringFault::FileOther, SecretStorageError::UnknownError),
        (KeyringFault::ServiceLocked, SecretStorageError::AccessDenied),
        (KeyringFault::ServiceOther, SecretStorageError::UnknownError),
        (KeyringFault::Dismissed, SecretStorageError::AccessDenied),
        (KeyringFault::BusIo, SecretStorageError::IoError),
        (KeyringFault::BusOther, SecretStorageError::UnknownError),
    ];
    for (fault, error) in cases {
        assert_eq!(SecretStorageError::from_fault(fault), error);
    }
    assert_eq!(
        SecretStorageError::AccessDenied.message(),
        "Access to the secret storage was denied"
    );
    assert_eq!(SecretStorageError::SerializationError.message(), "Serialization error");
    assert_eq!(SecretStorageError::IoError.message(), "I/O error");
    assert_eq!(SecretStorageError::UnknownError.message(), "Unknown error");
    assert_eq!(SecretStorageError::NotUnique.message(), "Not unique");
}

#[test]
fn one_account_is_stored_once() {
    assert_eq!(pick_unique(0), Ok(None));
    assert_eq!(pick_unique(1), Ok(Some(0)));
    assert_eq!(pick_unique(2), Err(SecretStorageError::NotUnique));
    assert_eq!(pick_unique(usize::MAX), Err(SecretStorageError::NotUnique));
}

#[test]
fn the_layout_below_the_launcher_directory() {
    let d = LauncherDirectories::new("/data/Pandora".to_string());
    assert_eq!(d.root_launcher_dir, "/data/Pandora");
    assert_eq!(d.instances_dir, "/data/Pandora/instances");
    assert_eq!(d.synced_dir, "/data/Pandora/synced");
    assert_eq!(d.metadata_dir, "/data/Pandora/metadata");
    assert_eq!(d.assets_root_dir, "/data/Pandora/assets");
    assert_eq!(d.assets_index_dir, "/data/Pandora/assets/indexes");
    assert_eq!(d.assets_objects_dir, "/data/Pandora/assets/objects");
    assert_eq!(d.virtual_legacy_assets_dir, "/data/Pandora/assets/indexes/virtual/legacy");
    assert_eq!(d.libraries_dir, "/data/Pandora/libraries");
    assert_eq!(d.log_configs_dir, "/data/Pandora/logconfigs");
    assert_eq!(d.runtime_base_dir, "/data/Pandora/runtime");
    assert_eq!(d.content_library_dir, "/data/Pandora/contentlibrary");
    assert_eq!(d.content_meta_dir, "/data/Pandora/contentmeta");
    assert_eq!(d.temp_dir, "/data/Pandora/temp");
    assert_eq!(d.temp_natives_base_dir, "/data/Pandora/temp/natives");
    assert_eq!(d.config_json, "/data/Pandora/config.json");
    assert_eq!(d.accounts_json, "/data/Pandora/accounts.json");
}

#[test]
fn joining_to_nothing_gives_the_child() {
    assert_eq!(join("", "x"), "x");
    assert_eq!(join("a", "x"), "a/x");
    assert_eq!(join("a", ""), "a/");
    let d = LauncherDirectories::new(String::new());
    assert_eq!(d.temp_natives_base_dir, "temp/natives");
}

#[test]
fn the_key_of_each_kind_of_installation() {
    assert_eq!(UpdateInstallType::AppImage("/x.AppImage".to_string()).key(), "appimage");
    assert_eq!(UpdateInstallType::Executable.key(), "executable");
    assert_eq!(UpdateInstallType::App("/Applications/P.app".to_string()).key(), "app");
}

fn exe(name: &str) -> UpdateManifestExe {
    UpdateManifestExe {
        download: name.to_string(),
        size: 1,
        sha1: String::new(),
        sig: String::new(),
    }
}

fn manifest(archs: Vec<(&str, Vec<(&str, &str)>)>) -> UpdateManifest {
    UpdateManifest {
        version: "1.2.3".to_string(),
        downloads: UpdateManifestArchs {
            archs: archs
                .into_iter()
                .map(|(a, exes)| {
                    (
                        a.to_string(),
                        UpdateManifestExes {
                            exes: exes.into_iter().map(|(k, d)| (k.to_string(), exe(d))).collect(),
                        },
                    )
                })
                .collect(),
        },
    }
}

#[test]
fn the_download_for_every_family_comes_first() {
    let m = manifest(vec![
        ("x86_64", vec![("executable", "x64"), ("appimage", "x64-image")]),
        ("universal", vec![("app", "uni-app")]),
    ]);
    assert_eq!(m.select_exe("x86_64", "app").map(|e| e.download.as_str()), Some("uni-app"));
    assert!(m.select_exe("x86_64", "executable").is_none());
    let n = manifest(vec![("x86_64", vec![("executable", "x64")]), ("aarch64", vec![])]);
    assert_eq!(n.select_exe("x86_64", "executable").map(|e| e.download.as_str()), Some("x64"));
    assert!(n.select_exe("aarch64", "executable").is_none());
    assert!(n.select_exe("riscv", "executable").is_none());
    assert!(n.select_exe("x86_64", "app").is_none());
}

#[test]
fn the_first_of_two_equal_names_is_found() {
    let items = vec![("a".to_string(), 1), ("b".to_string(), 2), ("a".to_string(), 3)];
    assert_eq!(find_named(&items, "a"), Some(0));
    assert_eq!(find_named(&items, "b"), Some(1));
    assert_eq!(find_named(&items, "c"), None);
    let none: Vec<(String, u8)> = Vec::new();
    assert_eq!(find_named(&none, "a"), None);
}

#[test]
fn the_size_in_the_unit_that_keeps_it_short() {
    assert_eq!(update_size_text(0), "Update size: 0 bytes");
    assert_eq!(update_size_text(9_999), "Update size: 9999 bytes");
    assert_eq!(update_size_text(10_000), "Update size: 10kb");
    assert_eq!(update_size_text(9_999_999), "Update size: 9999kb");
    assert_eq!(update_size_text(10_000_000), "Update size: 10MB");
    assert_eq!(update_size_text(9_999_999_999), "Update size: 9999MB");
    assert_eq!(update_size_text(10_000_000_000), "Update size: 10GB");
    assert_eq!(update_size_text(u64::MAX), "Update size: 18446744073GB");
}

#[test]
fn every_occurrence_is_replaced() {
    assert_eq!(replace_os_str(b"Pandora-1.0.0.AppImage", "1.0.0", "1.1.0"), b"Pandora-1.1.0.AppImage");
    assert_eq!(replace_os_str(b"aaa", "aa", "b"), b"ba");
    assert_eq!(replace_os_str(b"abab", "ab", "abab"), b"abababab");
    assert_eq!(replace_os_str(b"xyz", "q", "r"), b"xyz");
    assert_eq!(replace_os_str(b"", "q", "r"), b"");
    assert_eq!(replace_os_str(b"v1-v1", "v1", ""), b"-");
    assert_eq!(replace_os_str(&[0xff, b'a', 0xfe], "a", "\u{e9}"), [0xff, 0xc3, 0xa9, 0xfe]);
}

#[test]
fn an_executable_in_a_bundle() {
    assert!(in_app_bundle(Some("MacOS"), Some("Contents"), Some("app")));
    assert!(!in_app_bundle(Some("macos"), Some("Contents"), Some("app")));
    assert!(!in_app_bundle(Some("MacOS"), Some("Content"), Some("app")));
    assert!(!in_app_bundle(Some("MacOS"), Some("Contents"), Some("App")));
    assert!(!in_app_bundle(None, Some("Contents"), Some("app")));
    assert!(!in_app_bundle(Some("MacOS"), None, Some("app")));
    assert!(!in_app_bundle(Some("MacOS"), Some("Contents"), None));
}

#[test]
fn the_commands_for_the_administrator() {
    assert_eq!(
        unix_swap_command("/tmp/data", "/opt/pandora-new", "/opt/pandora-old"),
        "mv -f '/tmp/data' '/opt/pandora-new' && chmod +x '/opt/pandora-new' && rm -f '/opt/pandora-old'"
    );
    assert_eq!(
        unix_swap_command("/tmp/data", "/opt/p", "/opt/p"),
        "mv -f '/tmp/data' '/opt/p' && chmod +x '/opt/p'"
    );
    assert_eq!(
        windows_swap_command("C:\\t\\d", "C:\\new.exe", "C:\\old.exe"),
        "Move-Item -Path 'C:\\t\\d' -Destination 'C:\\new.exe' -Force; if ($?) { Remove-Item -Path 'C:\\old.exe' }"
    );
    assert_eq!(
        windows_swap_command("C:\\t\\d", "C:\\p.exe", "C:\\p.exe"),
        "Move-Item -Path 'C:\\t\\d' -Destination 'C:\\p.exe' -Force"
    );
    assert_eq!(
        app_swap_command("/A/P.app", "/tmp/backup", "/tmp/new/P.app"),
        "mv -f '/A/P.app' '/tmp/backup' && mv -f '/tmp/new/P.app' '/A/P.app'"
    );
    assert_eq!(app_restore_command("/tmp/backup", "/A/P.app"), "mv -f '/tmp/backup' '/A/P.app'");
}

#[test]
fn texts_are_the_same_or_not() {
    assert!(same_text("", ""));
    assert!(same_text("h\u{e9}", "h\u{e9}"));
    assert!(!same_text("a", "A"));
    assert!(!same_text("a", "ab"));
}
