use update_server_api::manifest::{Manifest, VersionEntry};

fn entry(version: &str) -> VersionEntry {
    VersionEntry {
        version: version.to_owned(),
        zips: vec!["https://cdn.example/a.zip".to_owned()],
        deletes: vec!["/a.zip".to_owned()],
        full_download: None,
    }
}

#[test]
fn version_key_orders_numerically_not_lexically() {
    // "6.9.0" sorts after "6.10.0" as a string, which would corrupt the
    // ordering the updaters depend on.
    assert!(Manifest::version_key("6.9.0").unwrap() < Manifest::version_key("6.10.0").unwrap());
}

#[test]
fn version_key_rejects_non_numeric() {
    assert!(Manifest::version_key("6.x.0").is_err());
    assert!(Manifest::version_key("").is_err());
}

#[test]
fn validate_rejects_out_of_order_versions() {
    let manifest = Manifest {
        versions: vec![entry("1.1.0"), entry("1.0.0")],
    };
    assert!(manifest.validate().unwrap_err().contains("ascending"));
}

#[test]
fn validate_rejects_duplicate_versions() {
    let manifest = Manifest {
        versions: vec![entry("1.0.0"), entry("1.0.0")],
    };
    assert!(manifest.validate().unwrap_err().contains("ascending"));
}

#[test]
fn validate_rejects_whitespace_that_would_corrupt_the_line_format() {
    let mut manifest = Manifest {
        versions: vec![entry("1.0.0")],
    };
    manifest.versions[0].zips[0] = "https://cdn.example/two words.zip".to_owned();
    assert!(manifest.validate().unwrap_err().contains("whitespace"));
}

#[test]
fn validate_rejects_a_url_with_no_filename() {
    let mut manifest = Manifest {
        versions: vec![entry("1.0.0")],
    };
    manifest.versions[0].zips[0] = "https://cdn.example/".to_owned();
    assert!(manifest.validate().unwrap_err().contains("filename"));
}

/// The updaters parse four whitespace-separated columns, so the install
/// path and description still have to be emitted even though the manifest
/// no longer stores them.
#[test]
fn renders_install_path_and_description_from_the_url() {
    let manifest = Manifest {
        versions: vec![VersionEntry {
            version: "6.6.0".to_owned(),
            zips: vec!["https://cdn.update.rwfc.net/RetroRewind/zip/6.6.zip".to_owned()],
            deletes: vec![],
            full_download: None,
        }],
    };
    assert_eq!(
        manifest.render().version_txt,
        "6.6.0 https://cdn.update.rwfc.net/RetroRewind/zip/6.6.zip /6.6.zip Assets"
    );
}

#[test]
fn renders_multiple_zips_for_one_version() {
    let manifest = Manifest {
        versions: vec![VersionEntry {
            version: "4.0.0".to_owned(),
            zips: vec![
                "https://cdn.example/1000.zip".to_owned(),
                "https://cdn.example/1000Music.zip".to_owned(),
            ],
            deletes: vec![],
            full_download: None,
        }],
    };
    assert_eq!(
        manifest.render().version_txt,
        "4.0.0 https://cdn.example/1000.zip /1000.zip Assets\n\
         4.0.0 https://cdn.example/1000Music.zip /1000Music.zip Assets"
    );
}

#[test]
fn renders_delete_only_version_without_a_version_line() {
    let manifest = Manifest {
        versions: vec![VersionEntry {
            version: "3.7.1".to_owned(),
            zips: vec![],
            deletes: vec!["/0021.zip".to_owned()],
            full_download: None,
        }],
    };
    let rendered = manifest.render();
    assert_eq!(rendered.version_txt, "");
    assert_eq!(rendered.delete_txt, "3.7.1 /0021.zip");
}

#[test]
fn install_txt_uses_the_newest_full_download() {
    let mut manifest = Manifest {
        versions: vec![entry("1.0.0"), entry("1.1.0"), entry("1.2.0")],
    };
    manifest.versions[0].full_download = Some("https://cdn.example/old.zip".to_owned());
    manifest.versions[1].full_download = Some("https://cdn.example/new.zip".to_owned());
    assert_eq!(
        manifest.render().install_txt.as_deref(),
        Some("https://cdn.example/new.zip")
    );
}

#[test]
fn install_txt_is_absent_when_no_full_download_exists() {
    let manifest = Manifest {
        versions: vec![entry("1.0.0")],
    };
    assert_eq!(manifest.render().install_txt, None);
}
