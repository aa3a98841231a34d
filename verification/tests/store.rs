use std::collections::BTreeMap;

use serde_norway::Value;
use snippet_library::header::{is_managed, MANAGED_HEADER};
use snippet_library::edit::{EditAction, EditEvent, EditRequest};
use snippet_library::paths::{collection_label, collection_name, default_file_path};
use snippet_library::store::{EditTarget, Fingerprint, LibraryError, LibraryStore, Snippet};

const MATCH_DIR: &str = "/cfg/match";
const DEFAULT_PATH: &str = "/cfg/match/library/snippets.yml";
const BASE_PATH: &str = "/cfg/match/base.yml";

const BASE_FILE: &str = "matches:\n  - trigger: \":hello\"\n    replace: \"world\"\n";

fn managed_file() -> String {
    format!(
        "{MANAGED_HEADER}\n\nmatches:\n  - trigger: \":sig\"\n    replace: \"Best regards\"\n    label: \"Signature\"\n  - triggers: [\":addr\"]\n    replace: \"Main St\"\n"
    )
}

/// Match files kept in memory, standing in for the match directory.
struct Disk {
    files: BTreeMap<String, String>,
}

impl Disk {
    fn new(with_managed: bool) -> Disk {
        let mut files = BTreeMap::new();
        files.insert(BASE_PATH.to_string(), BASE_FILE.to_string());
        if with_managed {
            files.insert(DEFAULT_PATH.to_string(), managed_file());
        }
        Disk { files }
    }

    fn fingerprint(&self, path: &str) -> Option<Fingerprint> {
        self.files.get(path).map(|content| Fingerprint { modified: None, len: content.len() as u64 })
    }

    fn load(&self) -> LibraryStore {
        let mut store = LibraryStore::new(MATCH_DIR.to_string(), None);
        for (path, content) in &self.files {
            store.load_file(path.clone(), None, content, self.fingerprint(path)).unwrap();
        }
        store
    }

    fn run(&mut self, store: &mut LibraryStore, request: EditRequest) -> Result<String, LibraryError> {
        let (mut progress, mut action) = store.start_edit(request);
        loop {
            let event = match action {
                EditAction::Finished(result) => return result,
                EditAction::ReadFingerprint { path } => EditEvent::Fingerprint(self.fingerprint(&path)),
                EditAction::CheckExists { path } => EditEvent::Exists(self.files.contains_key(&path)),
                EditAction::Write { path, content } => {
                    self.files.insert(path.clone(), content.unwrap());
                    EditEvent::Written(self.fingerprint(&path))
                }
            };
            assert!(store.can_resume(&progress, &event));
            (progress, action) = store.resume_edit(progress, event);
        }
    }

    fn save(
        &mut self,
        store: &mut LibraryStore,
        id: Option<&str>,
        trigger: &str,
        replacement: &str,
        label: &str,
    ) -> Result<String, LibraryError> {
        self.run(
            store,
            EditRequest::Save {
                id: id.map(str::to_string),
                trigger: trigger.to_string(),
                replacement: replacement.to_string(),
                label: label.to_string(),
            },
        )
    }

    fn delete(&mut self, store: &mut LibraryStore, id: &str) -> Result<(), LibraryError> {
        self.run(store, EditRequest::Delete { id: id.to_string() }).map(|_| ())
    }
}

fn find<'a>(snippets: &'a [Snippet], trigger: &str) -> &'a Snippet {
    snippets
        .iter()
        .find(|snippet| snippet.trigger == trigger)
        .unwrap_or_else(|| panic!("missing snippet {trigger}"))
}

#[test]
fn loads_entries_with_editability() {
    let disk = Disk::new(true);
    let store = disk.load();
    let snippets = store.snippets();
    assert_eq!(snippets.len(), 3);

    let hello = find(&snippets, ":hello");
    assert!(!hello.editable);
    assert_eq!(hello.collection, "base.yml");
    assert_eq!(hello.replacement, "world");

    let sig = find(&snippets, ":sig");
    assert!(sig.editable);
    assert_eq!(sig.collection, "library/snippets.yml");
    assert_eq!(sig.label, "Signature");

    // A single-element `triggers` list is still editable.
    assert!(find(&snippets, ":addr").editable);
    assert_eq!(store.default_collection(), "library/snippets.yml");
}

#[test]
fn saves_new_snippet_into_managed_file() {
    let mut disk = Disk::new(true);
    let mut store = disk.load();
    let id = disk.save(&mut store, None, ":new", "line one\nline two", "  New  ").unwrap();
    assert_eq!(find(&store.snippets(), ":new").id, id);

    let content = disk.files[DEFAULT_PATH].clone();
    assert!(content.starts_with(MANAGED_HEADER));

    let reloaded = disk.load();
    let snippets = reloaded.snippets();
    assert_eq!(snippets.len(), 4);
    let new = find(&snippets, ":new");
    assert!(new.editable);
    assert_eq!(new.replacement, "line one\nline two");
    assert_eq!(new.label, "New");
    // Existing entries are untouched.
    assert_eq!(find(&snippets, ":sig").replacement, "Best regards");
}

#[test]
fn creates_default_file_when_missing() {
    let mut disk = Disk::new(false);
    let mut store = disk.load();
    assert_eq!(store.snippets().len(), 1);

    disk.save(&mut store, None, ":fresh", "text", "").unwrap();
    assert!(disk.files.contains_key(DEFAULT_PATH));

    let reloaded = disk.load();
    let snippets = reloaded.snippets();
    let fresh = find(&snippets, ":fresh");
    assert!(fresh.editable);
    assert_eq!(fresh.label, "");
}

#[test]
fn updates_existing_snippet() {
    let mut disk = Disk::new(true);
    let mut store = disk.load();
    let id = find(&store.snippets(), ":addr").id.clone();

    let saved = disk.save(&mut store, Some(&id), ":address", "1 Main St", "Address").unwrap();
    assert_eq!(saved, id);

    let reloaded = disk.load();
    let snippets = reloaded.snippets();
    assert_eq!(snippets.len(), 3);
    let address = find(&snippets, ":address");
    assert_eq!(address.replacement, "1 Main St");
    assert_eq!(address.label, "Address");
    assert_eq!(find(&snippets, ":sig").label, "Signature");

    let content = disk.files[DEFAULT_PATH].clone();
    assert!(!content.contains("triggers"));
}

#[test]
fn deletes_and_reindexes_following_entries() {
    let mut disk = Disk::new(true);
    let mut store = disk.load();
    let sig = find(&store.snippets(), ":sig").id.clone();
    let addr = find(&store.snippets(), ":addr").id.clone();

    disk.delete(&mut store, &sig).unwrap();
    assert_eq!(store.snippets().len(), 2);

    // The remaining managed entry shifted down and must still be reachable.
    disk.save(&mut store, Some(&addr), ":addr", "Updated", "").unwrap();

    let reloaded = disk.load();
    let snippets = reloaded.snippets();
    assert_eq!(snippets.len(), 2);
    assert_eq!(find(&snippets, ":addr").replacement, "Updated");
    assert!(snippets.iter().all(|snippet| snippet.trigger != ":sig"));
}

#[test]
fn rejects_read_only_edits() {
    let mut disk = Disk::new(true);
    let mut store = disk.load();
    let hello = find(&store.snippets(), ":hello").id.clone();

    assert!(disk.save(&mut store, Some(&hello), ":hello", "changed", "").is_err());
    assert!(disk.delete(&mut store, &hello).is_err());
    assert_eq!(disk.files[BASE_PATH], BASE_FILE);
}

#[test]
fn rejects_empty_fields() {
    let mut disk = Disk::new(true);
    let mut store = disk.load();
    assert!(disk.save(&mut store, None, "   ", "text", "").is_err());
    assert!(disk.save(&mut store, None, ":trigger", "", "").is_err());
    assert!(disk.save(&mut store, Some("not-a-number"), ":t", "x", "").is_err());
    assert!(disk.delete(&mut store, "999").is_err());
}

#[test]
fn detects_external_modifications() {
    let mut disk = Disk::new(true);
    let mut store = disk.load();
    let sig = find(&store.snippets(), ":sig").id.clone();

    let external = format!("{}  - trigger: \":external\"\n    replace: \"x\"\n", managed_file());
    disk.files.insert(DEFAULT_PATH.to_string(), external.clone());

    let error = disk.save(&mut store, Some(&sig), ":sig", "changed", "").unwrap_err();
    assert!(error.message().contains("modified outside"));
    assert_eq!(disk.files[DEFAULT_PATH], external);
}

#[test]
fn unmanaged_file_in_library_dir_is_read_only() {
    let mut disk = Disk::new(false);
    disk.files.insert(DEFAULT_PATH.to_string(), BASE_FILE.to_string());

    let mut store = disk.load();
    let snippets = store.snippets();
    let hello = find(&snippets, ":hello");
    assert!(!hello.editable);
    // The default file exists without the header, so new snippets cannot go there.
    assert!(disk.save(&mut store, None, ":new", "text", "").is_err());
}

#[test]
fn error_kinds_and_messages() {
    let mut disk = Disk::new(true);
    let mut store = disk.load();
    assert_eq!(
        disk.save(&mut store, None, " \t", "text", ""),
        Err(LibraryError::EmptyTrigger)
    );
    assert_eq!(
        disk.save(&mut store, None, ":t", "", ""),
        Err(LibraryError::EmptyReplacement)
    );
    assert_eq!(
        disk.save(&mut store, Some("x1"), ":t", "r", ""),
        Err(LibraryError::InvalidId("x1".to_string()))
    );
    assert_eq!(
        disk.delete(&mut store, "999"),
        Err(LibraryError::NotFound("999".to_string()))
    );
    let hello = find(&store.snippets(), ":hello").id.clone();
    assert_eq!(disk.delete(&mut store, &hello), Err(LibraryError::ReadOnly));
    assert_eq!(LibraryError::EmptyTrigger.message(), "the trigger cannot be empty");
    assert_eq!(
        LibraryError::InvalidId("abc".to_string()).message(),
        "invalid snippet id: abc"
    );
    assert_eq!(
        LibraryError::NotAMapping("/a.yml".to_string()).message(),
        "/a.yml does not contain a YAML mapping"
    );
    assert_eq!(
        LibraryError::ModifiedOutside("/a.yml".to_string()).message(),
        "/a.yml was modified outside the library. Close and reopen the library to continue"
    );
}

#[test]
fn ids_are_decimal_keys_in_load_order() {
    let disk = Disk::new(true);
    let store = disk.load();
    let ids: Vec<String> = store.snippets().into_iter().map(|s| s.id).collect();
    assert_eq!(ids, vec!["1", "2", "3"]);
    // A leading plus sign is accepted, as `str::parse` does.
    assert_eq!(store.find_entry("+2"), Ok(1));
    assert_eq!(store.find_entry("003"), Ok(2));
    assert!(store.find_entry("-1").is_err());
    assert!(store.find_entry("").is_err());
    assert!(store.find_entry("18446744073709551616").is_err());
}

#[test]
fn update_returns_the_given_id_text() {
    let mut disk = Disk::new(true);
    let mut store = disk.load();
    let saved = disk.save(&mut store, Some("+3"), ":addr", "Elm St", "").unwrap();
    assert_eq!(saved, "+3");
    assert_eq!(find(&store.snippets(), ":addr").replacement, "Elm St");
}

#[test]
fn new_ids_follow_the_last_key() {
    let mut disk = Disk::new(true);
    let mut store = disk.load();
    let first = disk.save(&mut store, None, ":a", "A", "").unwrap();
    let second = disk.save(&mut store, None, ":b", "B", "").unwrap();
    assert_eq!(first, "4");
    assert_eq!(second, "5");
    let sig = find(&store.snippets(), ":sig").id.clone();
    disk.delete(&mut store, &sig).unwrap();
    assert_eq!(disk.save(&mut store, None, ":c", "C", "").unwrap(), "6");
}

#[test]
fn non_mapping_documents_are_refused() {
    let mut store = LibraryStore::new(MATCH_DIR.to_string(), None);
    assert_eq!(
        store.load_file("/cfg/match/list.yml".to_string(), None, "- a\n- b\n", None),
        Err(LibraryError::NotAMapping("/cfg/match/list.yml".to_string()))
    );
    assert_eq!(store.file_count(), 0);
    // An empty file is an empty document.
    assert_eq!(
        store.load_file("/cfg/match/empty.yml".to_string(), None, "", None),
        Ok(())
    );
    assert_eq!(store.file_count(), 1);
    assert!(store.snippets().is_empty());
}

#[test]
fn views_of_other_match_kinds() {
    let content = "matches:\n  - triggers: [\":a\", \":b\"]\n    markdown: \"**x**\"\n  - regex: \"x\\\\d\"\n    html: \"<b>\"\n  - trigger: \":f\"\n    form: \"[[f]]\"\n  - trigger: \":i\"\n    image_path: \"/i.png\"\n  - trigger: \":n\"\n  - replace: \"no trigger\"\n  - plain string\n  - triggers: [1, 2]\n    replace: \"numbers only\"\n";
    let mut store = LibraryStore::new(MATCH_DIR.to_string(), None);
    let managed = format!("{MANAGED_HEADER}\n{content}");
    assert!(is_managed(&managed));
    store.load_file(DEFAULT_PATH.to_string(), None, &managed, None).unwrap();
    let snippets = store.snippets();
    assert_eq!(snippets.len(), 5);
    assert_eq!(snippets[0].trigger, ":a, :b");
    assert_eq!(snippets[0].replacement, "**x**");
    assert!(!snippets[0].editable);
    assert_eq!(snippets[1].trigger, "regex: x\\d");
    assert_eq!(snippets[1].replacement, "<b>");
    assert_eq!(snippets[2].replacement, "[[f]]");
    assert_eq!(snippets[3].replacement, "[image] /i.png");
    assert_eq!(snippets[4].trigger, ":n");
    assert_eq!(snippets[4].replacement, "");
    assert!(!snippets[4].editable);
}

#[test]
fn tagged_values_are_looked_through() {
    let content = "matches:\n  - trigger: !t \":tag\"\n    replace: \"x\"\n";
    let mut store = LibraryStore::new(MATCH_DIR.to_string(), None);
    store.load_file(BASE_PATH.to_string(), None, content, None).unwrap();
    let snippets = store.snippets();
    assert_eq!(snippets.len(), 1);
    assert_eq!(snippets[0].trigger, ":tag");
}

#[test]
fn stale_targets_are_reported() {
    let disk = Disk::new(true);
    let mut store = disk.load();
    // The managed file is the second one loaded.
    let stale = EditTarget { position: 1, file: 1, index: 7 };
    assert_eq!(
        store.apply_update(&stale, ":x", "y", ""),
        Err(LibraryError::NotFoundInFile(DEFAULT_PATH.to_string()))
    );
    assert_eq!(
        store.apply_delete(&stale, "2"),
        Err(LibraryError::NotFound("2".to_string()))
    );
    // The snippets are still there.
    assert_eq!(store.snippets().len(), 3);
}

#[test]
fn default_file_errors() {
    let mut store = LibraryStore::new(MATCH_DIR.to_string(), None);
    assert_eq!(store.locate_default_file(), Ok(None));
    assert_eq!(
        store.add_default_file(true),
        Err(LibraryError::DefaultFileUnloadable(DEFAULT_PATH.to_string()))
    );
    assert_eq!(store.file_count(), 0);
    assert_eq!(store.add_default_file(false), Ok(0));
    assert_eq!(store.locate_default_file(), Ok(Some(0)));

    let mut disk = Disk::new(false);
    disk.files.insert(DEFAULT_PATH.to_string(), BASE_FILE.to_string());
    let mut store = disk.load();
    assert_eq!(
        disk.save(&mut store, None, ":new", "text", ""),
        Err(LibraryError::DefaultFileNotManaged(DEFAULT_PATH.to_string()))
    );
    assert_eq!(
        LibraryError::DefaultFileNotManaged("/d.yml".to_string()).message(),
        format!("/d.yml exists but is not managed by the library. Add the header line \"{MANAGED_HEADER}\" or move the file elsewhere")
    );
}

#[test]
fn new_file_gets_a_matches_list() {
    let mut disk = Disk::new(false);
    let mut store = disk.load();
    let id = disk.save(&mut store, None, ":one", "1", "First").unwrap();
    assert_eq!(id, "2");
    let content = disk.files[DEFAULT_PATH].clone();
    let prefix = format!("{MANAGED_HEADER}\n\n");
    assert!(content.starts_with(&prefix));
    let body: Value = serde_norway::from_str(&content[prefix.len()..]).unwrap();
    let matches = body.get("matches").and_then(Value::as_sequence).unwrap();
    assert_eq!(matches.len(), 1);
    let item = matches[0].as_mapping().unwrap();
    let keys: Vec<&str> = item.keys().map(|k| k.as_str().unwrap()).collect();
    assert_eq!(keys, vec!["trigger", "replace", "label"]);
    assert_eq!(item.get("label").and_then(Value::as_str), Some("First"));
}

#[test]
fn unparsable_files_are_refused() {
    let mut store = LibraryStore::new(MATCH_DIR.to_string(), None);
    let reason = serde_norway::from_str::<Value>("matches: [\n").unwrap_err().to_string();
    assert_eq!(
        store.load_file("/cfg/match/bad.yml".to_string(), None, "matches: [\n", None),
        Err(LibraryError::Unparsable("/cfg/match/bad.yml".to_string(), reason.clone()))
    );
    assert!(!reason.is_empty());
    assert_eq!(store.file_count(), 0);
    assert_eq!(
        LibraryError::Unparsable("/cfg/match/bad.yml".to_string(), "bad".to_string()).message(),
        "unable to parse /cfg/match/bad.yml: bad"
    );
    let duplicate = "matches:\n  - trigger: \":a\"\n    trigger: \":b\"\n    replace: \"x\"\n";
    assert!(matches!(
        store.load_file("/cfg/match/dup.yml".to_string(), None, duplicate, None),
        Err(LibraryError::Unparsable(_, _))
    ));
}

#[test]
fn parsed_text_reaches_the_snippets() {
    let mut store = LibraryStore::new(MATCH_DIR.to_string(), None);
    store
        .load_file(BASE_PATH.to_string(), None, "matches:\n  - trigger: \":k\"\n    replace: \"v\"\n", None)
        .unwrap();
    let snippets = store.snippets();
    assert_eq!(snippets.len(), 1);
    assert_eq!(snippets[0].trigger, ":k");
    assert_eq!(snippets[0].replacement, "v");
    assert_eq!(snippets[0].collection, "base.yml");
    assert!(!snippets[0].editable);
}

#[test]
fn collections_are_named_after_the_match_directory() {
    assert_eq!(default_file_path(MATCH_DIR), DEFAULT_PATH);
    assert_eq!(collection_name(MATCH_DIR, DEFAULT_PATH, None), "library/snippets.yml");
    assert_eq!(collection_name(MATCH_DIR, "/elsewhere/x.yml", None), "/elsewhere/x.yml");
    assert_eq!(
        collection_name(MATCH_DIR, "/link/x.yml", Some("/cfg/match/sub/x.yml")),
        "sub/x.yml"
    );
    assert_eq!(collection_label(Some("a\\b.yml"), "/full"), "a/b.yml");
    assert_eq!(collection_label(None, "/full"), "/full");
    let store = LibraryStore::new(MATCH_DIR.to_string(), None);
    assert_eq!(store.default_collection(), "library/snippets.yml");
    assert_eq!(store.default_path(), DEFAULT_PATH);
}

#[test]
fn default_file_is_found_by_path_components() {
    let mut store = LibraryStore::new(MATCH_DIR.to_string(), None);
    let content = format!("{MANAGED_HEADER}\nmatches: []\n");
    store
        .load_file("/cfg/match/library/./snippets.yml".to_string(), None, &content, None)
        .unwrap();
    assert_eq!(store.locate_default_file(), Ok(Some(0)));
}

#[test]
fn written_files_carry_the_header_and_document() {
    let mut store = LibraryStore::new(MATCH_DIR.to_string(), None);
    store.load_file(BASE_PATH.to_string(), None, BASE_FILE, None).unwrap();
    let content = store.file_content(0).unwrap();
    let prefix = format!("{MANAGED_HEADER}\n\n");
    assert!(content.starts_with(&prefix));
    let body: Value = serde_norway::from_str(&content[prefix.len()..]).unwrap();
    let expected: Value = serde_norway::from_str(BASE_FILE).unwrap();
    assert_eq!(body, expected);
}

#[test]
fn ids_are_never_handed_out_twice() {
    let mut disk = Disk::new(true);
    let mut store = disk.load();
    let mut seen: Vec<String> = store.snippets().into_iter().map(|s| s.id).collect();
    let a = disk.save(&mut store, None, ":a", "A", "").unwrap();
    assert!(!seen.contains(&a));
    seen.push(a.clone());
    disk.delete(&mut store, &a).unwrap();
    let b = disk.save(&mut store, None, ":b", "B", "").unwrap();
    assert!(!seen.contains(&b));
}
