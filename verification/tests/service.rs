use snippet_library::service::{
    ensure_registration_supported, escape_plist_value, launchctl_error, render_service_plist, RegisterError,
};

#[test]
fn service_plist_escapes_launchd_values_and_marks_login_launches() {
    let plist = render_service_plist(
        "/Applications/Espanso & Friends/<espanso>",
        "/usr/local/bin:/tmp/a&b<'\"",
    )
    .unwrap();

    assert!(plist.contains("/Applications/Espanso &amp; Friends/&lt;espanso&gt;"));
    assert!(plist.contains("/tmp/a&amp;b&lt;&apos;&quot;"));
    assert!(plist.contains("<string>--launch-at-login</string>"));
    assert!(!plist.contains("<key>KeepAlive</key>"));
}

#[test]
fn service_plist_rejects_xml_invalid_values() {
    assert!(render_service_plist("/Applications/Espanso", "/usr/bin:\u{1}").is_err());
}

#[test]
fn plist_rejection_names_the_field() {
    assert_eq!(
        render_service_plist("/Applications/\u{fffe}", "/usr/bin"),
        Err(RegisterError::InvalidXmlCharacter { field: "the Espanso executable path" })
    );
    assert_eq!(
        render_service_plist("/Applications/Espanso", "/usr/bin:\u{1f}"),
        Err(RegisterError::InvalidXmlCharacter { field: "PATH" })
    );
}

#[test]
fn plist_placeholders_are_filled() {
    let plist = render_service_plist("/bin/espanso", "/usr/bin").unwrap();
    assert!(plist.contains("<string>/bin/espanso</string>"));
    assert!(plist.contains("<string>/usr/bin</string>"));
    assert!(!plist.contains("{{{"));
}

#[test]
fn escaping_keeps_allowed_whitespace() {
    assert_eq!(escape_plist_value("f", "a\tb\nc\rd").unwrap(), "a\tb\nc\rd");
    assert_eq!(escape_plist_value("f", "<&>").unwrap(), "&lt;&amp;&gt;");
    assert_eq!(escape_plist_value("f", "").unwrap(), "");
    assert_eq!(
        escape_plist_value("f", "x\u{ffff}"),
        Err(RegisterError::InvalidXmlCharacter { field: "f" })
    );
}

#[test]
fn launchctl_error_prefers_stderr() {
    assert_eq!(launchctl_error("  boom \n", "out"), "boom");
    assert_eq!(launchctl_error(" \n\t", "  fine  "), "fine");
    assert_eq!(launchctl_error("", ""), "");
}

#[test]
fn escaped_values_read_back_exactly() {
    for value in ["a&b<c>d'e\"f", "&amp;", "plain", "&&<<", "é & ü"] {
        let escaped = escape_plist_value("f", value).unwrap();
        assert!(!escaped.contains(['<', '>', '"', '\'']));
        let unescaped = escaped
            .replace("&lt;", "<")
            .replace("&gt;", ">")
            .replace("&apos;", "'")
            .replace("&quot;", "\"")
            .replace("&amp;", "&");
        assert_eq!(unescaped, value);
    }
}

#[test]
fn translocated_bundles_cannot_register() {
    assert_eq!(
        ensure_registration_supported(true),
        Err("macOS activated app-translocation on Espanso".to_string())
    );
    assert_eq!(ensure_registration_supported(false), Ok(()));
}
