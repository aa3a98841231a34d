use snippet_library::header::{is_managed, managed_file_content, read_only_message, MANAGED_HEADER};

const BASE_FILE: &str = "matches:\n  - trigger: \":hello\"\n    replace: \"world\"\n";

fn managed_file() -> String {
    format!(
        "{MANAGED_HEADER}\n\nmatches:\n  - trigger: \":sig\"\n    replace: \"Best regards\"\n    label: \"Signature\"\n  - triggers: [\":addr\"]\n    replace: \"Main St\"\n"
    )
}

#[test]
fn detects_managed_header() {
    assert!(is_managed(&managed_file()));
    assert!(is_managed(&format!("{MANAGED_HEADER}   \nmatches: []")));
    assert!(!is_managed(BASE_FILE));
    assert!(!is_managed(&format!("\n{MANAGED_HEADER}\n")));
}

#[test]
fn managed_header_edge_cases() {
    assert!(!is_managed(""));
    assert!(is_managed(MANAGED_HEADER));
    assert!(is_managed(&format!("{MANAGED_HEADER}\r\nmatches: []")));
    assert!(!is_managed(&format!(" {MANAGED_HEADER}\n")));
    assert!(!is_managed(&format!("{MANAGED_HEADER}x\n")));
}

#[test]
fn written_content_is_managed() {
    let content = managed_file_content("matches: []\n");
    assert_eq!(content, format!("{MANAGED_HEADER}\n\nmatches: []\n"));
    assert!(is_managed(&content));
    assert!(is_managed(&managed_file_content("")));
}

#[test]
fn read_only_message_names_the_library_dir() {
    assert_eq!(
        read_only_message(),
        "this snippet is read-only: only files managed by the library (under match/library) can be edited here"
    );
}
