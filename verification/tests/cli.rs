use snippet_library::cli::{handler, is_enabled, library_entries, new, CliEntry, LogMode};
use snippet_library::store::Snippet;

#[test]
fn library_subcommand_settings() {
    let module = new();
    assert!(module.requires_paths);
    assert!(module.enable_logs);
    assert!(module.disable_logs_terminal_output);
    assert_eq!(module.log_mode, LogMode::AppendOnly);
    assert_eq!(module.subcommand, "library");
    assert!(module.show_in_dock);
    assert_eq!(module.entry, CliEntry::Library);
}

#[test]
fn no_startup_control_without_support() {
    assert!(!is_enabled());
    assert!(handler::<Box<dyn Fn(bool) -> Result<(), String>>>().is_none());
}

#[test]
fn entries_copy_snippets_in_order() {
    let snippets = vec![
        Snippet {
            id: "1".to_string(),
            collection: "base.yml".to_string(),
            trigger: ":a".to_string(),
            replacement: "A".to_string(),
            label: String::new(),
            editable: false,
        },
        Snippet {
            id: "2".to_string(),
            collection: "library/snippets.yml".to_string(),
            trigger: ":b".to_string(),
            replacement: "B".to_string(),
            label: "Bee".to_string(),
            editable: true,
        },
    ];
    let entries = library_entries(snippets);
    assert_eq!(entries.len(), 2);
    assert_eq!(entries[0].id, "1");
    assert_eq!(entries[0].collection, "base.yml");
    assert!(!entries[0].editable);
    assert_eq!(entries[1].label, "Bee");
    assert_eq!(entries[1].trigger, ":b");
    assert!(entries[1].editable);
}
