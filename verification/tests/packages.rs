use vardb::{first_line, parse_package_dir, split_package_version, PkgFacts};

#[test]
fn test_split_package_version() {
    assert_eq!(
        split_package_version("amanda-0-r2"),
        ("amanda".to_string(), "0-r2".to_string())
    );
    assert_eq!(
        split_package_version("gcc-11.2.0"),
        ("gcc".to_string(), "11.2.0".to_string())
    );
    assert_eq!(
        split_package_version("my-pkg-name-1.2.3-r1"),
        ("my-pkg-name".to_string(), "1.2.3-r1".to_string())
    );
    assert_eq!(
        split_package_version("noversion"),
        ("noversion".to_string(), "".to_string())
    );
}

#[test]
fn test_first_line_trims() {
    assert_eq!(
        first_line("  first line  \nsecond line\n"),
        Some("first line".to_string())
    );
    assert_eq!(first_line(""), None);
}

#[test]
fn test_parse_package_dir_fields() {
    let facts = PkgFacts {
        buildtime: "1700000000".to_string(),
        description: "a tool".to_string(),
        homepage: "https://example.org".to_string(),
        iuse: "doc".to_string(),
        keywords: "amd64".to_string(),
        license: "MIT".to_string(),
        rdepend: "dev-libs/libfoo".to_string(),
        repository: "gentoo".to_string(),
        slot: "0".to_string(),
        usepkg: "doc".to_string(),
        eapi: "8".to_string(),
        binpkgmd5: "d41d8cd98f00b204e9800998ecf8427e".to_string(),
    };
    let pkg = parse_package_dir("app-misc", "foo-bar-1.2.3", facts).unwrap();
    assert_eq!(pkg.category, "app-misc");
    assert_eq!(pkg.package, "foo-bar");
    assert_eq!(pkg.version, "1.2.3");
    assert_eq!(pkg.description, "a tool");
    assert_eq!(pkg.slot, "0");
    assert_eq!(pkg.eapi, "8");
    assert_eq!(pkg.binpkgmd5, "d41d8cd98f00b204e9800998ecf8427e");
}
