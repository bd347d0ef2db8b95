use update_server_api::manifest::{FieldKind, Manifest, Problem, VersionEntry};
use update_server_api::render::{install_path_of, DESCRIPTION};
use update_server_api::routes::{
    admin_token_is_set, install_target, is_authorized, legacy_location, AppError, Served, Summary,
};
use update_server_api::text::{
    basename_of, char_is_white_space, contains_white_space, join_lines, split_chars,
};
use update_server_api::version::{key_is_less, parse_decimal};

fn release(version: &str, zips: &[&str], deletes: &[&str], full: Option<&str>) -> VersionEntry {
    VersionEntry {
        version: version.to_owned(),
        zips: zips.iter().map(|s| s.to_string()).collect(),
        deletes: deletes.iter().map(|s| s.to_string()).collect(),
        full_download: full.map(|s| s.to_owned()),
    }
}

fn sample() -> Manifest {
    Manifest {
        versions: vec![
            release("3.7.1", &[], &["/0021.zip"], None),
            release(
                "4.0.0",
                &["https://cdn.example/1000.zip", "https://cdn.example/1000Music.zip"],
                &[],
                Some("https://cdn.example/full-4.0.0.zip"),
            ),
            release("4.0.1", &[], &["/a.brstm", "/b.brstm"], None),
        ],
    }
}

#[test]
fn version_key_parses_dotted_numbers() {
    assert_eq!(Manifest::version_key("6.10.0").unwrap(), vec![6, 10, 0]);
    assert_eq!(Manifest::version_key("007").unwrap(), vec![7]);
    assert_eq!(Manifest::version_key("+1.2").unwrap(), vec![1, 2]);
    assert_eq!(
        Manifest::version_key("18446744073709551615").unwrap(),
        vec![u64::MAX]
    );
}

#[test]
fn version_key_error_messages() {
    assert_eq!(Manifest::version_key("").unwrap_err(), "version must not be empty");
    assert_eq!(
        Manifest::version_key("6.x.0").unwrap_err(),
        "version \"6.x.0\" must be dotted numbers"
    );
    assert!(Manifest::version_key("1..2").is_err());
    assert!(Manifest::version_key("1.").is_err());
    assert!(Manifest::version_key("-1").is_err());
    assert!(Manifest::version_key("+").is_err());
    assert!(Manifest::version_key(" 1").is_err());
    assert!(Manifest::version_key("18446744073709551616").is_err());
}

#[test]
fn parse_decimal_matches_u64_from_str() {
    for text in ["0", "42", "+42", "", "+", "4 2", "99999999999999999999", "0042", "x"] {
        let chars: Vec<char> = text.chars().collect();
        assert_eq!(parse_decimal(&chars), text.parse::<u64>().ok(), "{text}");
    }
}

#[test]
fn key_order_is_that_of_vec() {
    let cases: [(&[u64], &[u64]); 6] = [
        (&[6, 9, 0], &[6, 10, 0]),
        (&[1], &[1, 0]),
        (&[1, 0], &[1]),
        (&[2], &[10]),
        (&[], &[]),
        (&[3, 1], &[3, 1]),
    ];
    for (a, b) in cases {
        assert_eq!(key_is_less(&a.to_vec(), &b.to_vec()), a < b);
    }
}

#[test]
fn validate_accepts_a_well_formed_manifest() {
    assert!(sample().validate().is_ok());
    assert!(Manifest { versions: vec![] }.validate().is_ok());
}

#[test]
fn validate_messages_name_the_first_problem() {
    let manifest = Manifest {
        versions: vec![release("1.1.0", &["https://x/a.zip"], &[], None), release("1.0.0", &[], &[], None)],
    };
    assert_eq!(
        manifest.validate().unwrap_err(),
        "versions must be strictly ascending, but \"1.0.0\" follows \"1.1.0\""
    );

    let manifest = Manifest {
        versions: vec![release("1.0.0", &["https://cdn.example/two words.zip"], &[], None)],
    };
    assert_eq!(
        manifest.validate().unwrap_err(),
        "1.0.0: zip url must not contain whitespace, got \"https://cdn.example/two words.zip\""
    );

    let manifest = Manifest {
        versions: vec![release("1.0.0", &["https://cdn.example/"], &[], None)],
    };
    assert_eq!(
        manifest.validate().unwrap_err(),
        "1.0.0: zip url must end in a filename, got \"https://cdn.example/\""
    );

    let manifest = Manifest {
        versions: vec![release("1.0.0", &[], &[""], None)],
    };
    assert_eq!(manifest.validate().unwrap_err(), "1.0.0: delete path must not be empty");

    let manifest = Manifest {
        versions: vec![release("1.0.0", &[], &[], Some("a\tb"))],
    };
    assert_eq!(
        manifest.validate().unwrap_err(),
        "1.0.0: full download url must not contain whitespace, got \"a\\tb\""
    );

    let manifest = Manifest {
        versions: vec![release("1.0.0", &[], &[], None), release("1.x", &[], &[], None)],
    };
    assert_eq!(
        manifest.validate().unwrap_err(),
        "version \"1.x\" must be dotted numbers"
    );
}

#[test]
fn validate_checks_zips_before_deletes_before_full_download() {
    let manifest = Manifest {
        versions: vec![release("2.0", &["bad url"], &[""], Some(""))],
    };
    match manifest.find_problem() {
        Some(Problem::WhiteSpace { kind, value, .. }) => {
            assert_eq!(kind, FieldKind::ZipUrl);
            assert_eq!(value, "bad url");
        }
        other => panic!("unexpected {other:?}"),
    }
    let manifest = Manifest {
        versions: vec![release("2.0", &["https://x/ok.zip"], &[""], Some(""))],
    };
    match manifest.find_problem() {
        Some(Problem::EmptyField { kind, .. }) => assert_eq!(kind, FieldKind::DeletePath),
        other => panic!("unexpected {other:?}"),
    }
    let manifest = Manifest {
        versions: vec![release("2.0", &["https://x/ok.zip"], &["/x"], Some(""))],
    };
    match manifest.find_problem() {
        Some(Problem::EmptyField { kind, .. }) => assert_eq!(kind, FieldKind::FullDownloadUrl),
        other => panic!("unexpected {other:?}"),
    }
}

#[test]
fn validate_rejects_unicode_white_space() {
    for value in ["a\u{3000}b", "a\u{a0}b", "a\u{85}b", "a\u{2028}b", "a\nb"] {
        let manifest = Manifest {
            versions: vec![release("1.0.0", &[], &[value], None)],
        };
        assert!(manifest.validate().unwrap_err().contains("whitespace"), "{value:?}");
    }
    for c in ['\u{200b}', 'x', '\u{180e}'] {
        assert_eq!(char_is_white_space(c), c.is_whitespace());
    }
    for n in 0..0x3100u32 {
        if let Some(c) = char::from_u32(n) {
            assert_eq!(char_is_white_space(c), c.is_whitespace(), "{n:#x}");
        }
    }
    assert!(contains_white_space("a b"));
    assert!(!contains_white_space("ab"));
}

#[test]
fn rendered_files_of_a_sample_manifest() {
    let rendered = sample().render();
    assert_eq!(
        rendered.version_txt,
        "4.0.0 https://cdn.example/1000.zip /1000.zip Assets\n\
         4.0.0 https://cdn.example/1000Music.zip /1000Music.zip Assets"
    );
    assert_eq!(
        rendered.delete_txt,
        "3.7.1 /0021.zip\n4.0.1 /a.brstm\n4.0.1 /b.brstm"
    );
    assert_eq!(rendered.install_txt.as_deref(), Some("https://cdn.example/full-4.0.0.zip"));
}

#[test]
fn rendered_version_file_reads_back_as_four_columns() {
    let manifest = sample();
    let rendered = manifest.render();
    let records: Vec<Vec<&str>> = rendered
        .version_txt
        .split('\n')
        .map(|line| line.split(' ').collect())
        .collect();
    assert_eq!(records.len(), 2);
    for record in &records {
        assert_eq!(record.len(), 4);
        assert_eq!(record[0], "4.0.0");
        assert_eq!(record[3], DESCRIPTION);
    }
    assert_eq!(records[1][2], "/1000Music.zip");
}

#[test]
fn install_path_is_the_url_filename() {
    assert_eq!(install_path_of("https://cdn.example/RetroRewind/zip/6.6.zip"), "/6.6.zip");
    assert_eq!(install_path_of("file.zip"), "/file.zip");
    assert_eq!(install_path_of("https://cdn.example/"), "/");
    let name: String = basename_of("a/b/c").into_iter().collect();
    assert_eq!(name, "c");
}

#[test]
fn text_helpers() {
    let pieces: Vec<String> = split_chars(&"1..2".chars().collect(), '.')
        .into_iter()
        .map(|p| p.into_iter().collect())
        .collect();
    assert_eq!(pieces, vec!["1", "", "2"]);
    assert_eq!(join_lines(&vec!["a".to_owned(), "b".to_owned()]), "a\nb");
    assert_eq!(join_lines(&vec![]), "");
}

#[test]
fn authorization_needs_the_exact_bearer_token() {
    assert!(is_authorized(Some("Bearer secret"), "secret"));
    assert!(!is_authorized(Some("Bearer secrez"), "secret"));
    assert!(!is_authorized(Some("bearer secret"), "secret"));
    assert!(!is_authorized(Some("Bearer secret "), "secret"));
    assert!(!is_authorized(Some("Bearer  secret"), "secret"));
    assert!(!is_authorized(Some("Basic secret"), "secret"));
    assert!(!is_authorized(Some("Bearer"), "secret"));
    assert!(!is_authorized(None, "secret"));
    assert!(admin_token_is_set("t"));
    assert!(!admin_token_is_set(""));
}

#[test]
fn errors_map_to_status_and_message() {
    let cases = [
        (AppError::Unauthorized, 401, "missing or invalid bearer token"),
        (AppError::NotFound("nothing here"), 404, "nothing here"),
        (AppError::Invalid("bad".to_owned()), 400, "bad"),
        (AppError::Internal("disk full".to_owned()), 500, "internal error"),
    ];
    for (error, status, message) in cases {
        assert_eq!(error.status_and_message(), (status, message.to_owned()));
    }
}

#[test]
fn install_target_is_the_newest_full_download_or_404() {
    let rendered = sample().render();
    assert_eq!(
        install_target(&rendered).ok().as_deref(),
        Some("https://cdn.example/full-4.0.0.zip")
    );
    let rendered = Manifest { versions: vec![] }.render();
    match install_target(&rendered) {
        Err(AppError::NotFound(message)) => assert_eq!(message, "no full download is published"),
        _ => panic!("expected a 404"),
    }
}

#[test]
fn served_state_is_replaced_only_after_a_successful_write() {
    let mut served = Served::load(sample()).ok().unwrap();
    let summary = Summary::of(&served);
    assert_eq!(summary.versions, 3);
    assert_eq!(summary.latest.as_deref(), Some("4.0.1"));
    assert_eq!(summary.install.as_deref(), Some("https://cdn.example/full-4.0.0.zip"));

    // A release that does not sort last is refused with a 400.
    let appended = served.with_appended(release("4.0.0", &[], &["/x"], None));
    assert_eq!(appended.versions.len(), 4);
    match Served::stage(appended) {
        Err(AppError::Invalid(message)) => assert!(message.contains("ascending")),
        _ => panic!("expected a 400"),
    }

    // A failed write leaves everything as it was.
    let appended = served.with_appended(release(
        "5.0.0",
        &["https://cdn.example/5.zip"],
        &[],
        Some("https://cdn.example/full-5.zip"),
    ));
    let staged = Served::stage(appended).ok().unwrap();
    match served.commit(staged, Err("disk full".to_owned())) {
        Err(AppError::Internal(text)) => assert_eq!(text, "disk full"),
        _ => panic!("expected a 500"),
    }
    assert_eq!(served.manifest().versions.len(), 3);
    assert_eq!(served.rendered().install_txt.as_deref(), Some("https://cdn.example/full-4.0.0.zip"));

    // A successful write swaps in the new manifest and its files.
    let appended = served.with_appended(release(
        "5.0.0",
        &["https://cdn.example/5.zip"],
        &[],
        Some("https://cdn.example/full-5.zip"),
    ));
    let staged = Served::stage(appended).ok().unwrap();
    assert!(served.commit(staged, Ok(())).is_ok());
    let summary = Summary::of(&served);
    assert_eq!(summary.versions, 4);
    assert_eq!(summary.latest.as_deref(), Some("5.0.0"));
    assert_eq!(summary.install.as_deref(), Some("https://cdn.example/full-5.zip"));
    assert!(served.rendered().version_txt.ends_with("5.0.0 https://cdn.example/5.zip /5.zip Assets"));

    assert!(Served::load(Manifest { versions: vec![release("", &[], &[], None)] }).is_err());
}

#[test]
fn copies_are_equal() {
    let manifest = sample();
    let copy = manifest.copy();
    assert_eq!(copy.render().delete_txt, manifest.render().delete_txt);
    assert_eq!(copy.versions[1].zips, manifest.versions[1].zips);
    assert_eq!(copy.versions[1].full_download, manifest.versions[1].full_download);
}

#[test]
fn a_valid_manifest_has_strictly_ascending_keys() {
    let manifest = sample();
    assert!(manifest.validate().is_ok());
    let keys: Vec<Vec<u64>> = manifest
        .versions
        .iter()
        .map(|entry| Manifest::version_key(&entry.version).unwrap())
        .collect();
    for pair in keys.windows(2) {
        assert!(key_is_less(&pair[0], &pair[1]));
    }
}

#[test]
fn legacy_route_redirects_only_to_a_valid_header_value() {
    let with_full = |url: &str| {
        Manifest {
            versions: vec![release("1.0", &[], &[], Some(url))],
        }
        .render()
    };
    assert_eq!(
        legacy_location(&with_full("https://cdn.example/full.zip")).ok().as_deref(),
        Some("https://cdn.example/full.zip")
    );
    assert_eq!(
        legacy_location(&with_full("https://cdn.example/caf\u{e9}.zip")).ok().as_deref(),
        Some("https://cdn.example/caf\u{e9}.zip")
    );
    match legacy_location(&with_full("https://cdn.example/\u{1}.zip")) {
        Err(AppError::Internal(text)) => assert_eq!(
            text,
            "full download url is not a valid header: \"https://cdn.example/\\u{1}.zip\""
        ),
        _ => panic!("expected a 500"),
    }
    match legacy_location(&Manifest { versions: vec![] }.render()) {
        Err(AppError::NotFound(message)) => assert_eq!(message, "no full download is published"),
        _ => panic!("expected a 404"),
    }
}

#[test]
fn validate_rejects_a_full_download_with_no_filename() {
    let manifest = Manifest {
        versions: vec![release("1.0.0", &[], &[], Some("https://cdn.example/"))],
    };
    assert_eq!(
        manifest.validate().unwrap_err(),
        "1.0.0: full download url must end in a filename, got \"https://cdn.example/\""
    );
    match manifest.find_problem() {
        Some(Problem::NoFilename { kind, url, .. }) => {
            assert_eq!(kind, FieldKind::FullDownloadUrl);
            assert_eq!(url, "https://cdn.example/");
        }
        other => panic!("unexpected {other:?}"),
    }
    // The whitespace check comes first.
    let manifest = Manifest {
        versions: vec![release("1.0.0", &[], &[], Some("https://cdn example/"))],
    };
    assert!(manifest.validate().unwrap_err().contains("whitespace"));
}

#[test]
fn zipless_releases_leave_the_version_file_alone() {
    let mut manifest = sample();
    let before = manifest.render().version_txt;
    manifest.versions.insert(2, release("4.0.0.1", &[], &["/c"], None));
    manifest.versions.insert(0, release("1.0", &[], &[], None));
    assert_eq!(manifest.render().version_txt, before);
}

#[test]
fn canonical_versions_read_back_from_their_keys() {
    for version in ["0", "6.10.0", "18446744073709551615.1", "4.0.1"] {
        let key = Manifest::version_key(version).unwrap();
        let text: Vec<String> = key.iter().map(|n| n.to_string()).collect();
        assert_eq!(text.join("."), version);
    }
}
