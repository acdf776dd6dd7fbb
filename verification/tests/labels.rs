use std::path::Path;

use fs2iso::collect::{CollectedPayload, FileRecord};
use fs2iso::image::{
    image_settings, is_image_extension, resolve_label, sectors_in, temporary_name,
    validate_artifact_names, BuildError, Options,
};
use fs2iso::names::sanitize_label;
use fs2iso::paths::{file_name_of, input_name, output_stem};

#[test]
fn sanitize_ascii() {
    assert_eq!(sanitize_label("my iso 2024!"), "MY_ISO_2024_");
    assert_eq!(sanitize_label("中文标签"), "____________");
    assert_eq!(sanitize_label(""), "FS2ISO");
    assert_eq!(sanitize_label("a"), "A");
    let long = sanitize_label(&"x".repeat(80));
    assert_eq!(long.len(), 32);
    assert!(long.bytes().all(|byte| byte == b'X'));
}

#[test]
fn resolve_label_prefers_requested_label_then_output_stem() {
    assert_eq!(resolve_label("derived-name.iso", Some("My Label")), "MY_LABEL");
    assert_eq!(resolve_label("derived-name.iso", None), "DERIVED_NAME");
    assert_eq!(resolve_label(".", None), "FS2ISO");
}

fn payload_of(relative_path: &str) -> CollectedPayload {
    CollectedPayload {
        dirs: vec![],
        records: vec![FileRecord {
            relative_path: relative_path.to_string(),
            source_path: Path::new(relative_path).to_path_buf(),
        }],
        directory_count: 0,
        payload_bytes: 0,
    }
}

#[test]
fn validate_artifact_names_only_rejects_root_files() {
    let payload = payload_of("nested/esp.img");
    validate_artifact_names(&payload).unwrap();

    let payload = payload_of("ESP.IMG");
    let error = validate_artifact_names(&payload).unwrap_err();
    assert!(matches!(error, BuildError::ReservedArtifact(ref name) if name == "ESP.IMG"));
    assert!(error.message().contains("reserved"));
}

#[test]
fn boot_catalog_is_reserved_too() {
    let error = validate_artifact_names(&payload_of("Boot.Catalog")).unwrap_err();
    assert_eq!(
        error.message(),
        "payload contains a root-level file named 'Boot.Catalog', which is reserved for an \
         engine artifact (esp.img / boot.catalog); rename it"
    );
}

#[test]
fn sectors_are_whole() {
    assert_eq!(sectors_in(4096 + 17), 2);
    assert_eq!(sectors_in(2047), 0);
}

#[test]
fn temporary_names_tell_process_and_attempt() {
    assert_eq!(temporary_name(Some("out.iso"), 42, 0), "out.iso.tmp-42");
    assert_eq!(temporary_name(Some("out.iso"), 42, 3), "out.iso.tmp-42-3");
    assert_eq!(temporary_name(None, 7, 0), "fs2iso-output.tmp-7");
}

#[test]
fn image_extensions_in_any_case() {
    assert!(is_image_extension("ISO"));
    assert!(is_image_extension("img"));
    assert!(!is_image_extension("bin"));
    assert!(!is_image_extension(""));
}

#[test]
fn settings_of_a_bootable_disc() {
    let s = image_settings("TOOLS", true);
    assert_eq!(s.volume_id, "TOOLS");
    assert!(!s.udf);
    let boot = s.boot.unwrap();
    assert_eq!(boot.image_path, "esp.img");
    assert!(boot.write_catalog);
    assert_eq!(boot.load_size, None);
    assert!(!boot.emulation && !boot.boot_info_table && !boot.grub2_boot_info);
    assert_eq!(boot.more_entries, 0);
    assert!(image_settings("TOOLS", false).boot.is_none());
}

#[test]
fn options_default_to_nothing() {
    let o = Options::default();
    assert!(o.label.is_none() && !o.flat && !o.no_eltorito);
}

#[test]
fn names_of_paths() {
    assert_eq!(input_name("a/b.txt"), Some("b.txt".to_string()));
    assert_eq!(input_name("FixPkg/"), Some("FixPkg".to_string()));
    assert_eq!(input_name("a/."), Some("a".to_string()));
    assert_eq!(input_name("a/.//"), Some("a".to_string()));
    assert_eq!(input_name("/"), None);
    assert_eq!(input_name(""), None);
    assert_eq!(output_stem("out/"), Some("out".to_string()));
    assert_eq!(input_name("."), None);
    assert_eq!(input_name("a/.."), None);
    assert_eq!(output_stem("dir/out.tar.iso"), Some("out.tar".to_string()));
    assert_eq!(output_stem(".hidden"), Some(".hidden".to_string()));
    assert_eq!(file_name_of("a/b"), "b");
    assert_eq!(file_name_of(".."), "..");
}

#[test]
fn messages_of_build_errors() {
    let path = "\"p\"".to_string();
    let message = "no".to_string();
    assert_eq!(BuildError::NoInputs.message(), "no input paths given");
    assert_eq!(BuildError::Collection(message.clone()).message(), "no");
    assert_eq!(BuildError::OutputPath(message.clone()).message(), "no");
    assert_eq!(
        BuildError::OutputConflict(path.clone()).message(),
        "output image \"p\" would overwrite a payload file"
    );
    assert_eq!(
        BuildError::PayloadRead { path: path.clone(), message: message.clone() }.message(),
        "cannot read \"p\": no"
    );
    assert_eq!(BuildError::ImageBuild(message.clone()).message(), "image build failed: no");
    assert_eq!(
        BuildError::OutputCreate { path: path.clone(), message: message.clone() }.message(),
        "cannot create \"p\": no"
    );
    assert_eq!(
        BuildError::OutputFinalize { path, message: message.clone() }.message(),
        "cannot finalize \"p\": no"
    );
    assert_eq!(BuildError::ArtifactPatch(message).message(), "no");
}
