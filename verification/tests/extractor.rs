use vardb::EbuildData;

#[test]
fn test_parse_simple_assignment() {
    let content = "EAPI=8\nKEYWORDS=\"~amd64 x86\"";
    let data = EbuildData::parse(content);
    assert_eq!(data.index("eapi"), "8");
    assert_eq!(data.index("keywords"), "~amd64 x86");
}

#[test]
fn test_parse_array_assignment() {
    let content = "IUSE=( foo bar )";
    let data = EbuildData::parse(content);
    assert_eq!(data.index("iuse"), "foo bar");
}

#[test]
fn test_ignore_functions() {
    let content = "VAR1=val1\nsrc_compile() {\n  emake\n}\nVAR2=val2";
    let data = EbuildData::parse(content);
    assert_eq!(data.index("var1"), "val1");
    assert_eq!(data.index("var2"), "val2");
}

#[test]
fn test_resolve_variables() {
    let content = "RDEPEND=\"dev-libs/libxml2\"\nDEPEND=\"${RDEPEND}\"";
    let data = EbuildData::parse(content);
    assert_eq!(data.index("rdepend"), "dev-libs/libxml2");
    assert_eq!(data.index("depend"), "dev-libs/libxml2");
}

#[test]
fn test_parse_malformed_ebuild() {
    // These should not panic
    let _ = EbuildData::parse("VAR=(\n");
    let _ = EbuildData::parse("VAR=\"\n");
    let _ = EbuildData::parse("VAR='");
    let _ = EbuildData::parse("VAR=");
    let _ = EbuildData::parse("VAR=()");
    let _ = EbuildData::parse("function test() {");
}

#[test]
fn test_lookup_case_insensitive() {
    let mut data = EbuildData::new();
    data.insert("Eapi".to_string(), "8".to_string());
    assert_eq!(data.get("eapi"), Some(&"8".to_string()));
    assert_eq!(data.get("EAPI"), Some(&"8".to_string()));
    assert_eq!(data.get("eApi"), Some(&"8".to_string()));
}

#[test]
fn test_get_absent_variable() {
    let data = EbuildData::parse("EAPI=8");
    assert_eq!(data.get("keywords"), None);
    assert_eq!(data.index("keywords"), "");
}

#[test]
fn test_array_collapses_whitespace() {
    let data = EbuildData::parse("IUSE=( foo   bar )");
    assert_eq!(data.index("iuse"), "foo bar");
}

#[test]
fn test_multi_line_array() {
    let content = "IUSE=(\n\tfoo\n\tbar baz\n)";
    let data = EbuildData::parse(content);
    assert_eq!(data.index("iuse"), "foo bar baz");
}

#[test]
fn test_multi_line_quoted_value() {
    let content = "DEPEND=\"dev-libs/one\n\tdev-libs/two\"\nEAPI=8";
    let data = EbuildData::parse(content);
    assert_eq!(data.index("depend"), "dev-libs/one dev-libs/two");
    assert_eq!(data.index("eapi"), "8");
}

#[test]
fn test_trailing_comment_stripped() {
    let data = EbuildData::parse("EAPI=8 # current");
    assert_eq!(data.index("eapi"), "8");
}

#[test]
fn test_hash_inside_quotes_kept() {
    let data = EbuildData::parse("DESCRIPTION=\"a # b\"");
    assert_eq!(data.index("description"), "a # b");
}

#[test]
fn test_empty_value() {
    let data = EbuildData::parse("VAR=");
    assert_eq!(data.index("var"), "");
}

#[test]
fn test_self_reference_accumulates() {
    let content = "A=x\nA=\"${A}y\"";
    let data = EbuildData::parse(content);
    assert_eq!(data.index("a"), "xy");
}

#[test]
fn test_two_level_reference_chain() {
    let content = "A=\"${B}\"\nB=\"${C}\"\nC=val";
    let data = EbuildData::parse(content);
    assert_eq!(data.index("a"), "val");
    assert_eq!(data.index("b"), "val");
    assert_eq!(data.index("c"), "val");
}

#[test]
fn test_unresolved_reference_stays_literal() {
    let data = EbuildData::parse("D=\"${NOPE}\"");
    assert_eq!(data.index("d"), "${NOPE}");
}

#[test]
fn test_parse_is_pure() {
    let content = "EAPI=8\nIUSE=( a b )\nDEPEND=\"${IUSE}\"\nbroken=(\n";
    let a = EbuildData::parse(content);
    let b = EbuildData::parse(content);
    assert_eq!(a.variables(), b.variables());
}

#[test]
fn test_plain_value_round_trip() {
    let data = EbuildData::parse("HOMEPAGE=https://example.org/a-b_c.d?x=1&y=2");
    assert_eq!(data.index("homepage"), "https://example.org/a-b_c.d?x=1&y=2");
}

#[test]
fn test_invalid_names_ignored() {
    let content = "GOOD=1\nnot a name=2\nal$o-bad=3";
    let data = EbuildData::parse(content);
    assert_eq!(data.index("good"), "1");
    assert_eq!(data.variables().len(), 1);
}

#[test]
fn test_later_assignment_overwrites() {
    let content = "SLOT=0\nSLOT=1";
    let data = EbuildData::parse(content);
    assert_eq!(data.index("slot"), "1");
    assert_eq!(data.variables().len(), 1);
}

#[test]
fn test_quoted_scalar_strips_one_pair() {
    let data = EbuildData::parse("KEYWORDS=\"~amd64 x86\"\nLIC='MIT'");
    assert_eq!(data.index("keywords"), "~amd64 x86");
    assert_eq!(data.index("lic"), "MIT");
}

#[test]
fn test_comments_and_blank_lines_skipped() {
    let content = "# header\n\n   \nEAPI=8\n# trailing";
    let data = EbuildData::parse(content);
    assert_eq!(data.index("eapi"), "8");
    assert_eq!(data.variables().len(), 1);
}

#[test]
fn test_resolve_variables_method() {
    let mut data = vardb::EbuildData::new();
    data.insert("base".to_string(), "abc".to_string());
    data.insert("full".to_string(), "${BASE}/lib".to_string());
    data.resolve_variables();
    assert_eq!(data.index("full"), "abc/lib");
    assert_eq!(data.index("base"), "abc");
}

#[test]
fn test_bare_reference_resolves() {
    let content = "A=hello\nB=$A/world";
    let data = vardb::EbuildData::parse(content);
    assert_eq!(data.index("b"), "hello/world");
}
