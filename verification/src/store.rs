//! The in-memory view of every loaded match file and of the snippets found
//! in them. Managed files are rewritten from their parsed document on save;
//! other files are only read.
//!
//! Reading files, checking their metadata and writing them back is done by
//! the caller between the steps below: an edit is checked (`begin_edit`),
//! the caller compares the file's fingerprint (`check_unchanged`), the
//! document is changed (`apply_*`), the caller writes its text
//! (`file_content`), and the snippet list is brought up to date
//! (`commit_*`).

use vstd::prelude::*;
use crate::header::{
    is_managed, is_managed_spec, managed_content_spec, managed_file_content, read_only_message,
    read_only_message_spec, MANAGED_HEADER,
};
use crate::snippet::{
    apply_fields, apply_fields_spec, edit_item_at, edited_item_spec, snippet_view, snippet_view_spec,
};
use crate::text::{concat, decimal, is_blank, owned, parse_u64, parse_u64_spec, trim, trim_spec,
    u64_to_decimal};
use crate::paths::{
    collection_name, collection_name_spec, default_file_path, default_file_path_spec, paths_equal,
    same_path,
};
use crate::store_laws::{lemma_load_keeps_consistent, lemma_parsed_items_unique, store_consistent};
use crate::yaml::{
    as_mapping_spec, as_sequence_spec, has_key, is_first_key, key_index,
    lemma_first_key_unique, lemma_get_insert_same, lemma_values_view, map_get,
    map_insert, parse_document, parsed_document, push_item, serialize_document, serialized_document, put_entry, remove_item, take_entry, values_view, with_items,
    YamlMapping, YamlValue, YamlView,
};

verus! {

pub const MATCHES_KEY: &'static str = "matches";

/// A point in time as seconds and nanoseconds on either side of the Unix epoch.
#[derive(Debug, Clone, Copy, PartialEq, Eq)]
pub struct FileTime {
    pub before_epoch: bool,
    pub secs: u64,
    pub nanos: u32,
}

/// What is remembered of a file to notice changes made behind the library's back.
#[derive(Debug, Clone, Copy, PartialEq, Eq)]
pub struct Fingerprint {
    pub modified: Option<FileTime>,
    pub len: u64,
}

/// Whether two fingerprints (`None` for a missing file) are the same.
pub fn same_fingerprint(a: &Option<Fingerprint>, b: &Option<Fingerprint>) -> (res: bool)
    ensures
        res == (*a == *b),
{
    match (a, b) {
        (None, None) => true,
        (Some(x), Some(y)) => {
            let same_time = match (&x.modified, &y.modified) {
                (None, None) => true,
                (Some(s), Some(t)) => s.before_epoch == t.before_epoch && s.secs == t.secs
                    && s.nanos == t.nanos,
                _ => false,
            };
            same_time && x.len == y.len
        },
        _ => false,
    }
}

/// A snippet as presented to the UI.
#[derive(Debug, Clone, PartialEq, Eq)]
pub struct Snippet {
    pub id: String,
    pub collection: String,
    pub trigger: String,
    pub replacement: String,
    pub label: String,
    pub editable: bool,
}

/// Why a library operation was refused.
#[derive(Debug, Clone, PartialEq, Eq)]
pub enum LibraryError {
    EmptyTrigger,
    EmptyReplacement,
    /// The id is not a number.
    InvalidId(String),
    /// No snippet has this id.
    NotFound(String),
    ReadOnly,
    /// The snippet is no longer in the file with this path.
    NotFoundInFile(String),
    /// The file with this path is not valid YAML; the parser's reason.
    Unparsable(String, String),
    /// The file with this path does not hold a YAML mapping.
    NotAMapping(String),
    /// The default file with this path exists but lacks the managed header.
    DefaultFileNotManaged(String),
    /// The default file with this path exists but could not be loaded.
    DefaultFileUnloadable(String),
    /// The file with this path changed since it was read.
    ModifiedOutside(String),
    /// Every snippet key has been handed out.
    KeySpaceExhausted,
    /// A document could not be written as YAML.
    Unserializable,
}

/// The model of a `LibraryError`.
pub enum ErrorModel {
    EmptyTrigger,
    EmptyReplacement,
    InvalidId(Seq<char>),
    NotFound(Seq<char>),
    ReadOnly,
    NotFoundInFile(Seq<char>),
    Unparsable(Seq<char>, Seq<char>),
    NotAMapping(Seq<char>),
    DefaultFileNotManaged(Seq<char>),
    DefaultFileUnloadable(Seq<char>),
    ModifiedOutside(Seq<char>),
    KeySpaceExhausted,
    Unserializable,
}

impl View for LibraryError {
    type V = ErrorModel;

    open spec fn view(&self) -> ErrorModel {
        match self {
            LibraryError::EmptyTrigger => ErrorModel::EmptyTrigger,
            LibraryError::EmptyReplacement => ErrorModel::EmptyReplacement,
            LibraryError::InvalidId(s) => ErrorModel::InvalidId(s@),
            LibraryError::NotFound(s) => ErrorModel::NotFound(s@),
            LibraryError::ReadOnly => ErrorModel::ReadOnly,
            LibraryError::NotFoundInFile(s) => ErrorModel::NotFoundInFile(s@),
            LibraryError::Unparsable(p, d) => ErrorModel::Unparsable(p@, d@),
            LibraryError::NotAMapping(s) => ErrorModel::NotAMapping(s@),
            LibraryError::DefaultFileNotManaged(s) => ErrorModel::DefaultFileNotManaged(s@),
            LibraryError::DefaultFileUnloadable(s) => ErrorModel::DefaultFileUnloadable(s@),
            LibraryError::ModifiedOutside(s) => ErrorModel::ModifiedOutside(s@),
            LibraryError::KeySpaceExhausted => ErrorModel::KeySpaceExhausted,
            LibraryError::Unserializable => ErrorModel::Unserializable,
        }
    }
}

/// The user-facing text of an error.
pub open spec fn error_message_spec(e: ErrorModel) -> Seq<char> {
    match e {
        ErrorModel::EmptyTrigger => "the trigger cannot be empty"@,
        ErrorModel::EmptyReplacement => "the replacement cannot be empty"@,
        ErrorModel::InvalidId(id) => "invalid snippet id: "@ + id,
        ErrorModel::NotFound(id) => "snippet not found: "@ + id,
        ErrorModel::ReadOnly => read_only_message_spec(),
        ErrorModel::NotFoundInFile(p) => "snippet not found in "@ + p,
        ErrorModel::Unparsable(p, d) => "unable to parse "@ + p + ": "@ + d,
        ErrorModel::NotAMapping(p) => p + " does not contain a YAML mapping"@,
        ErrorModel::DefaultFileNotManaged(p) => p
            + " exists but is not managed by the library. Add the header line \""@
            + MANAGED_HEADER@ + "\" or move the file elsewhere"@,
        ErrorModel::DefaultFileUnloadable(p) => p
            + " exists but could not be loaded by espanso. Fix the file (see 'espanso log') and reopen the library"@,
        ErrorModel::ModifiedOutside(p) => p
            + " was modified outside the library. Close and reopen the library to continue"@,
        ErrorModel::KeySpaceExhausted => "no snippet ids are left"@,
        ErrorModel::Unserializable => "unable to serialize the snippet file"@,
    }
}

impl LibraryError {
    /// The user-facing text of the error.
    pub fn message(&self) -> (res: String)
        ensures
            res@ == error_message_spec(self@),
    {
        match self {
            LibraryError::EmptyTrigger => owned("the trigger cannot be empty"),
            LibraryError::EmptyReplacement => owned("the replacement cannot be empty"),
            LibraryError::InvalidId(id) => concat("invalid snippet id: ", id.as_str()),
            LibraryError::NotFound(id) => concat("snippet not found: ", id.as_str()),
            LibraryError::ReadOnly => read_only_message(),
            LibraryError::NotFoundInFile(p) => concat("snippet not found in ", p.as_str()),
            LibraryError::Unparsable(p, d) => {
                let mut res = concat("unable to parse ", p.as_str());
                res.append(": ");
                res.append(d.as_str());
                res
            },
            LibraryError::NotAMapping(p) => concat(p.as_str(), " does not contain a YAML mapping"),
            LibraryError::DefaultFileNotManaged(p) => {
                let mut res = concat(
                    p.as_str(),
                    " exists but is not managed by the library. Add the header line \"",
                );
                res.append(MANAGED_HEADER);
                res.append("\" or move the file elsewhere");
                res
            },
            LibraryError::DefaultFileUnloadable(p) => concat(
                p.as_str(),
                " exists but could not be loaded by espanso. Fix the file (see 'espanso log') and reopen the library",
            ),
            LibraryError::ModifiedOutside(p) => concat(
                p.as_str(),
                " was modified outside the library. Close and reopen the library to continue",
            ),
            LibraryError::KeySpaceExhausted => owned("no snippet ids are left"),
            LibraryError::Unserializable => owned("unable to serialize the snippet file"),
        }
    }
}

/// A loaded match file.
struct LoadedFile {
    path: String,
    collection: String,
    managed: bool,
    /// `None` when the file does not exist yet.
    fingerprint: Option<Fingerprint>,
    document: YamlMapping,
}

/// A snippet found in a loaded file.
struct Entry {
    key: u64,
    file: usize,
    /// Position inside the `matches` sequence of the file.
    index: usize,
    trigger: String,
    replacement: String,
    label: String,
    editable: bool,
}

/// The model of a loaded file.
pub struct FileModel {
    pub path: Seq<char>,
    pub collection: Seq<char>,
    pub managed: bool,
    pub fingerprint: Option<Fingerprint>,
    pub document: Seq<(YamlView, YamlView)>,
}

/// The model of a snippet entry.
pub struct EntryModel {
    pub key: u64,
    pub file: int,
    pub index: int,
    pub trigger: Seq<char>,
    pub replacement: Seq<char>,
    pub label: Seq<char>,
    pub editable: bool,
}

/// The model of the whole store.
pub struct StoreModel {
    pub match_dir: Seq<char>,
    pub default_path: Seq<char>,
    pub default_collection: Seq<char>,
    pub files: Seq<FileModel>,
    pub entries: Seq<EntryModel>,
    pub next_key: u64,
}

impl LoadedFile {
    spec fn model(self) -> FileModel {
        FileModel {
            path: self.path@,
            collection: self.collection@,
            managed: self.managed,
            fingerprint: self.fingerprint,
            document: self.document@,
        }
    }
}

impl Entry {
    spec fn model(self) -> EntryModel {
        EntryModel {
            key: self.key,
            file: self.file as int,
            index: self.index as int,
            trigger: self.trigger@,
            replacement: self.replacement@,
            label: self.label@,
            editable: self.editable,
        }
    }
}

/// Every entry refers to a loaded file, and keys are handed out in
/// increasing order and are all below `next_key`.
pub open spec fn store_wf(m: StoreModel) -> bool {
    &&& forall|i: int| 0 <= i < m.entries.len() ==> 0 <= #[trigger] m.entries[i].file < m.files.len()
    &&& forall|i: int, j: int|
        #![trigger m.entries[i].key, m.entries[j].key]
        0 <= i < j < m.entries.len() ==> m.entries[i].key < m.entries[j].key
    &&& forall|i: int| 0 <= i < m.entries.len() ==> #[trigger] m.entries[i].key < m.next_key
    &&& forall|i: int|
        0 <= i < m.entries.len() && #[trigger] m.entries[i].editable ==> m.files[m.entries[i].file].managed
    &&& m.next_key >= 1
}

/// The in-memory view of every loaded match file.
pub struct LibraryStore {
    match_dir: String,
    default_path: String,
    default_collection: String,
    files: Vec<LoadedFile>,
    entries: Vec<Entry>,
    next_key: u64,
}

impl View for LibraryStore {
    type V = StoreModel;

    closed spec fn view(&self) -> StoreModel {
        StoreModel {
            match_dir: self.match_dir@,
            default_path: self.default_path@,
            default_collection: self.default_collection@,
            files: self.files@.map_values(|f: LoadedFile| f.model()),
            entries: self.entries@.map_values(|e: Entry| e.model()),
            next_key: self.next_key,
        }
    }
}

/// A snippet of the store as the UI sees it.
pub struct SnippetRecord {
    pub id: Seq<char>,
    pub collection: Seq<char>,
    pub trigger: Seq<char>,
    pub replacement: Seq<char>,
    pub label: Seq<char>,
    pub editable: bool,
}

impl View for Snippet {
    type V = SnippetRecord;

    open spec fn view(&self) -> SnippetRecord {
        SnippetRecord {
            id: self.id@,
            collection: self.collection@,
            trigger: self.trigger@,
            replacement: self.replacement@,
            label: self.label@,
            editable: self.editable,
        }
    }
}

/// The snippet shown for entry `i`: its key in decimal as id, and the
/// collection of its file.
pub open spec fn snippet_record(m: StoreModel, i: int) -> SnippetRecord {
    let e = m.entries[i];
    SnippetRecord {
        id: decimal(e.key as nat),
        collection: m.files[e.file].collection,
        trigger: e.trigger,
        replacement: e.replacement,
        label: e.label,
        editable: e.editable,
    }
}

/// The `matches` items of a document (empty when there is no sequence).
pub open spec fn matches_of(doc: Seq<(YamlView, YamlView)>) -> Seq<YamlView> {
    match map_get(doc, MATCHES_KEY@) {
        Some(v) => match as_sequence_spec(v) {
            Some(items) => items,
            None => seq![],
        },
        None => seq![],
    }
}

/// The entries found in the first `items.len()` match items of a file, with
/// keys counted from `first_key`.
pub open spec fn item_entries(items: Seq<YamlView>, file: int, managed: bool, first_key: int) -> Seq<
    EntryModel,
>
    decreases items.len(),
{
    if items.len() == 0 {
        seq![]
    } else {
        let prev = item_entries(items.drop_last(), file, managed, first_key);
        match as_mapping_spec(items.last()) {
            Some(item) => match snippet_view_spec(item) {
                Some(v) => prev.push(
                    EntryModel {
                        key: (first_key + prev.len()) as u64,
                        file,
                        index: items.len() - 1,
                        trigger: v.trigger,
                        replacement: v.replacement,
                        label: v.label,
                        editable: managed && v.editable,
                    },
                ),
                None => prev,
            },
            None => prev,
        }
    }
}

/// What loading a file with text `content` and parsed `document` makes of
/// the store `m`: the store with the file and its snippets added, or the
/// error that leaves the store as it was.
pub open spec fn load_outcome(
    m: StoreModel,
    path: Seq<char>,
    collection: Seq<char>,
    content: Seq<char>,
    fingerprint: Option<Fingerprint>,
    document: YamlView,
) -> Result<StoreModel, ErrorModel> {
    match document {
        YamlView::Dict(_) | YamlView::Null => {
            let doc = loaded_document(document);
            let managed = is_managed_spec(content);
            let added = item_entries(matches_of(doc), m.files.len() as int, managed, m.next_key as int);
            if m.next_key + added.len() <= u64::MAX {
                Ok(
                    StoreModel {
                        files: m.files.push(
                            FileModel { path, collection, managed, fingerprint, document: doc },
                        ),
                        entries: m.entries + added,
                        next_key: (m.next_key + added.len()) as u64,
                        ..m
                    },
                )
            } else {
                Err(ErrorModel::KeySpaceExhausted)
            }
        },
        _ => Err(ErrorModel::NotAMapping(path)),
    }
}

/// The store after a step with result `res` is `after` when `outcome` holds
/// the new store, and is `before` with the error when `outcome` holds one.
pub open spec fn step_matches(
    before: StoreModel,
    after: StoreModel,
    res: Result<(), LibraryError>,
    outcome: Result<StoreModel, ErrorModel>,
) -> bool {
    match outcome {
        Ok(m) => res is Ok && after == m,
        Err(e) => res matches Err(x) && x@ == e && after == before,
    }
}

impl LibraryStore {
    #[verifier::type_invariant]
    spec fn inv(self) -> bool {
        store_wf(self@)
    }

    /// An empty store for the match files under `match_dir`. New snippets go
    /// to the default managed file below it; `default_canonical` is the
    /// canonical form of that file's path, when it has one.
    pub fn new(match_dir: String, default_canonical: Option<String>) -> (res: LibraryStore)
        ensures
            res@.match_dir == match_dir@,
            res@.default_path == default_file_path_spec(match_dir@),
            res@.default_collection == collection_name_spec(
                match_dir@,
                default_file_path_spec(match_dir@),
                match default_canonical {
                    Some(c) => Some(c@),
                    None => None,
                },
            ),
            res@.files.len() == 0,
            res@.entries.len() == 0,
            res@.next_key == 1,
            store_wf(res@),
            store_consistent(res@),
    {
        let default_path = default_file_path(match_dir.as_str());
        let default_collection = match &default_canonical {
            Some(c) => collection_name(match_dir.as_str(), default_path.as_str(), Some(c.as_str())),
            None => collection_name(match_dir.as_str(), default_path.as_str(), None),
        };
        let res = LibraryStore {
            match_dir,
            default_path,
            default_collection,
            files: Vec::new(),
            entries: Vec::new(),
            next_key: 1,
        };
        assert(res@.entries =~= Seq::<EntryModel>::empty());
        proof {
            crate::store_laws::lemma_empty_store_consistent(res@);
        }
        res
    }

    /// Moves the files and entries out of the store, leaving it empty.
    fn take_state(&mut self) -> (res: (Vec<LoadedFile>, Vec<Entry>))
        ensures
            res.0@ == old(self).files@,
            res.1@ == old(self).entries@,
            final(self).entries@.len() == 0,
            final(self).files@.len() == 0,
            final(self).next_key == old(self).next_key,
            final(self).match_dir == old(self).match_dir,
            final(self).default_path == old(self).default_path,
            final(self).default_collection == old(self).default_collection,
    {
        proof {
            use_type_invariant(&*self);
        }
        let mut entries: Vec<Entry> = Vec::new();
        std::mem::swap(&mut entries, &mut self.entries);
        let mut files: Vec<LoadedFile> = Vec::new();
        std::mem::swap(&mut files, &mut self.files);
        (files, entries)
    }

    /// Puts files and entries back into a store emptied by `take_state`.
    fn put_state(&mut self, files: Vec<LoadedFile>, entries: Vec<Entry>, next_key: u64)
        requires
            old(self).entries@.len() == 0,
            store_wf(
                StoreModel {
                    files: files@.map_values(|f: LoadedFile| f.model()),
                    entries: entries@.map_values(|e: Entry| e.model()),
                    next_key,
                    ..old(self)@
                },
            ),
        ensures
            final(self)@ == (StoreModel {
                files: files@.map_values(|f: LoadedFile| f.model()),
                entries: entries@.map_values(|e: Entry| e.model()),
                next_key,
                ..old(self)@
            }),
    {
        self.next_key = next_key;
        self.files = files;
        self.entries = entries;
    }

    /// The path of the default managed file.
    pub fn default_path(&self) -> (res: &String)
        ensures
            res@ == self@.default_path,
    {
        &self.default_path
    }

    /// The collection shown for snippets that have not been saved yet.
    pub fn default_collection(&self) -> (res: String)
        ensures
            res@ == self@.default_collection,
    {
        self.default_collection.clone()
    }

    /// The number of loaded files.
    pub fn file_count(&self) -> (res: usize)
        ensures
            res == self@.files.len(),
    {
        self.files.len()
    }

    /// Whether file `file` is managed by the library.
    pub fn is_file_managed(&self, file: usize) -> (res: bool)
        requires
            file < self@.files.len(),
        ensures
            res == self@.files[file as int].managed,
    {
        self.files[file].managed
    }

    /// The number of snippets.
    pub fn entry_count(&self) -> (res: usize)
        ensures
            res == self@.entries.len(),
    {
        self.entries.len()
    }

    /// The path of a loaded file.
    pub fn file_path(&self, file: usize) -> (res: &String)
        requires
            file < self@.files.len(),
        ensures
            res@ == self@.files[file as int].path,
    {
        &self.files[file].path
    }

    /// The document of a loaded file.
    pub fn document(&self, file: usize) -> (res: &YamlMapping)
        requires
            file < self@.files.len(),
        ensures
            res@ == self@.files[file as int].document,
    {
        &self.files[file].document
    }

    /// The text written for file `file`: its document as YAML below the
    /// managed header, or `None` when the document cannot be written as YAML.
    pub fn file_content(&self, file: usize) -> (res: Option<String>)
        requires
            file < self@.files.len(),
        ensures
            match serialized_document(self@.files[file as int].document) {
                Some(body) => res matches Some(text) && text@ == managed_content_spec(body),
                None => res is None,
            },
    {
        match serialize_document(&self.files[file].document) {
            Some(body) => Some(managed_file_content(body.as_str())),
            None => None,
        }
    }

    /// The snippets of every loaded file, in load order.
    pub fn snippets(&self) -> (res: Vec<Snippet>)
        ensures
            store_wf(self@),
            res@.len() == self@.entries.len(),
            forall|i: int| 0 <= i < res@.len() ==> #[trigger] res@[i]@ == snippet_record(self@, i),
    {
        proof {
            use_type_invariant(self);
        }
        let mut res: Vec<Snippet> = Vec::new();
        let mut i: usize = 0;
        while i < self.entries.len()
            invariant
                i <= self.entries.len(),
                store_wf(self@),
                res@.len() == i,
                forall|j: int| 0 <= j < i ==> #[trigger] res@[j]@ == snippet_record(self@, j),
            decreases self.entries.len() - i,
        {
            let entry = &self.entries[i];
            assert(self@.entries[i as int] == entry.model());
            assert(0 <= self@.entries[i as int].file < self@.files.len());
            assert(self@.files.len() == self.files@.len());
            assert(self@.files[entry.file as int] == self.files@[entry.file as int].model());
            let snippet = Snippet {
                id: u64_to_decimal(entry.key),
                collection: self.files[entry.file].collection.clone(),
                trigger: entry.trigger.clone(),
                replacement: entry.replacement.clone(),
                label: entry.label.clone(),
                editable: entry.editable,
            };
            res.push(snippet);
            i = i + 1;
        }
        res
    }

    /// Adds a match file that was read from `path`, whose canonical form is
    /// `canonical` when it has one: its collection is named after its place
    /// under the match directory, and its text `content` is parsed as YAML
    /// and handed to `load_document`. A text that is not valid YAML is
    /// refused with the parser's reason and leaves the store unchanged. A
    /// store whose snippets show its documents keeps doing so.
    pub fn load_file(
        &mut self,
        path: String,
        canonical: Option<String>,
        content: &str,
        fingerprint: Option<Fingerprint>,
    ) -> (res: Result<(), LibraryError>)
        ensures
            old(self)@.next_key <= final(self)@.next_key,
            store_wf(final(self)@),
            store_consistent(old(self)@) && res is Ok ==> store_consistent(final(self)@),
            match parsed_document(content@) {
                Ok(d) => step_matches(
                    old(self)@,
                    final(self)@,
                    res,
                    load_outcome(
                        old(self)@,
                        path@,
                        collection_name_spec(
                            old(self)@.match_dir,
                            path@,
                            match canonical {
                                Some(c) => Some(c@),
                                None => None,
                            },
                        ),
                        content@,
                        fingerprint,
                        d,
                    ),
                ),
                Err(detail) => res matches Err(e) && e@ == ErrorModel::Unparsable(path@, detail)
                    && final(self)@ == old(self)@,
            },
    {
        proof {
            use_type_invariant(&*self);
        }
        let collection = match &canonical {
            Some(c) => collection_name(self.match_dir.as_str(), path.as_str(), Some(c.as_str())),
            None => collection_name(self.match_dir.as_str(), path.as_str(), None),
        };
        match parse_document(content) {
            Ok(document) => {
                let ghost before = self@;
                let ghost d = document@;
                let ghost file_collection = collection@;
                let res = self.load_document(path, collection, content, fingerprint, document);
                proof {
                    if store_consistent(before) && res is Ok {
                        lemma_parsed_items_unique(d);
                        lemma_load_keeps_consistent(
                            before,
                            self@,
                            path@,
                            file_collection,
                            content@,
                            fingerprint,
                            d,
                        );
                    }
                }
                res
            },
            Err(detail) => Err(LibraryError::Unparsable(path, detail)),
        }
    }

    /// Adds a match file that was read from `path`: its text `content`, the
    /// `document` parsed from it, and its fingerprint. Every match item with
    /// a trigger becomes a snippet; it is editable when the file is managed
    /// and the item holds a single plain trigger and a plain replacement.
    pub fn load_document(
        &mut self,
        path: String,
        collection: String,
        content: &str,
        fingerprint: Option<Fingerprint>,
        document: YamlValue,
    ) -> (res: Result<(), LibraryError>)
        ensures
            old(self)@.next_key <= final(self)@.next_key,
            store_wf(final(self)@),
            step_matches(
                old(self)@,
                final(self)@,
                res,
                load_outcome(old(self)@, path@, collection@, content@, fingerprint, document@),
            ),
    {
        proof {
            use_type_invariant(&*self);
        }
        let managed = is_managed(content);
        let ghost document_view = document@;
        let doc = match document {
            YamlValue::Mapping(m) => m,
            YamlValue::Null => YamlMapping::new(),
            _ => {
                return Err(LibraryError::NotAMapping(path));
            },
        };
        let file_index = self.files.len();
        let ghost first_key = self.next_key as int;
        let empty: Vec<YamlValue> = Vec::new();
        let items: &Vec<YamlValue> = match doc.get(MATCHES_KEY) {
            Some(v) => match v.as_sequence() {
                Some(items) => items,
                None => &empty,
            },
            None => &empty,
        };
        proof {
            lemma_values_view(items@);
            assert(values_view(empty@) =~= Seq::<YamlView>::empty());
        }
        let ghost views = values_view(items@);
        assert(doc@ == loaded_document(document_view));
        assert(views == matches_of(doc@));
        let mut added: Vec<Entry> = Vec::new();
        let mut i: usize = 0;
        while i < items.len()
            invariant
                i <= items.len(),
                views == values_view(items@),
                views.len() == items@.len(),
                forall|j: int| 0 <= j < items@.len() ==> #[trigger] views[j] == items@[j]@,
                first_key == self.next_key as int,
                first_key >= 1,
                store_wf(self@),
                views == matches_of(loaded_document(document_view)),
                document_view == document@,
                managed == is_managed_spec(content@),
                file_index == self.files@.len(),
                added@.map_values(|e: Entry| e.model()) == item_entries(
                    views.take(i as int),
                    file_index as int,
                    managed,
                    first_key,
                ),
                first_key + added@.len() <= u64::MAX,
            decreases items.len() - i,
        {
            let ghost prev = added@.map_values(|e: Entry| e.model());
            assert(views.take(i + 1).drop_last() =~= views.take(i as int));
            assert(views.take(i + 1).last() == items@[i as int]@);
            match items[i].as_mapping() {
                Some(item) => match snippet_view(item) {
                    Some(view) => {
                        let count = added.len() as u64;
                        if self.next_key > u64::MAX - 1 - count {
                            proof {
                                assert(item_entries(
                                    views.take(i + 1),
                                    file_index as int,
                                    managed,
                                    first_key,
                                ).len() == count + 1);
                                lemma_item_entries_prefix_len(
                                    views,
                                    i + 1,
                                    file_index as int,
                                    managed,
                                    first_key,
                                );
                            }
                            return Err(LibraryError::KeySpaceExhausted);
                        }
                        let entry = Entry {
                            key: self.next_key + count,
                            file: file_index,
                            index: i,
                            trigger: view.trigger,
                            replacement: view.replacement,
                            label: view.label,
                            editable: managed && view.editable,
                        };
                        added.push(entry);
                        assert(added@.map_values(|e: Entry| e.model()) =~= prev.push(entry.model()));
                    },
                    None => {},
                },
                None => {},
            }
            i = i + 1;
        }
        assert(views.take(items.len() as int) =~= views);
        let ghost added_model = added@.map_values(|e: Entry| e.model());
        proof {
            lemma_item_entries_keys(views, file_index as int, managed, first_key);
        }
        let new_next = self.next_key + added.len() as u64;
        let ghost old_model = self@;
        let (mut files, mut entries) = self.take_state();
        assert(files@.map_values(|f: LoadedFile| f.model()) == old_model.files);
        assert(entries@.map_values(|e: Entry| e.model()) == old_model.entries);
        files.push(LoadedFile { path, collection, managed, fingerprint, document: doc });
        entries.append(&mut added);
        let ghost new_model = StoreModel {
            files: files@.map_values(|f: LoadedFile| f.model()),
            entries: entries@.map_values(|e: Entry| e.model()),
            next_key: new_next,
            ..old_model
        };
        proof {
            assert(new_model.files =~= old_model.files.push(
                FileModel { path: path@, collection: collection@, managed, fingerprint, document: doc@ },
            ));
            assert(new_model.entries =~= old_model.entries + added_model);
            let n = old_model.entries.len();
            assert forall|a: int| 0 <= a < new_model.entries.len() implies 0
                <= #[trigger] new_model.entries[a].file < new_model.files.len() by {
                if a >= n {
                    assert(new_model.entries[a] == added_model[a - n]);
                }
            };
            assert forall|a: int, b: int|
                #![trigger new_model.entries[a].key, new_model.entries[b].key]
                0 <= a < b < new_model.entries.len() implies new_model.entries[a].key
                < new_model.entries[b].key by {
                if a >= n {
                    assert(new_model.entries[a] == added_model[a - n]);
                }
                if b >= n {
                    assert(new_model.entries[b] == added_model[b - n]);
                }
            };
            assert forall|a: int| 0 <= a < new_model.entries.len() implies #[trigger] new_model.entries[a].key
                < new_model.next_key by {
                if a >= n {
                    assert(new_model.entries[a] == added_model[a - n]);
                }
            };
            assert forall|a: int|
                0 <= a < new_model.entries.len() && #[trigger] new_model.entries[a].editable implies new_model.files[new_model.entries[a].file].managed by {
                if a >= n {
                    assert(new_model.entries[a] == added_model[a - n]);
                } else {
                    assert(new_model.entries[a] == old_model.entries[a]);
                    assert(0 <= old_model.entries[a].file < old_model.files.len());
                    assert(new_model.files[old_model.entries[a].file] == old_model.files[old_model.entries[a].file]);
                }
            };
        }
        self.put_state(files, entries, new_next);
        Ok(())
    }
}

/// The document with a `matches` sequence: unchanged when it has one,
/// otherwise with an empty sequence stored under `matches`.
pub open spec fn ensure_matches_spec(doc: Seq<(YamlView, YamlView)>) -> Seq<(YamlView, YamlView)> {
    match map_get(doc, MATCHES_KEY@) {
        Some(v) => if as_sequence_spec(v) is Some {
            doc
        } else {
            map_insert(doc, MATCHES_KEY@, YamlView::List(seq![]))
        },
        None => map_insert(doc, MATCHES_KEY@, YamlView::List(seq![])),
    }
}

/// The document with the items of its `matches` sequence replaced.
pub open spec fn set_matches(doc: Seq<(YamlView, YamlView)>, items: Seq<YamlView>) -> Seq<
    (YamlView, YamlView),
> {
    map_insert(doc, MATCHES_KEY@, with_items(map_get(doc, MATCHES_KEY@)->0, items))
}

/// The position of an edited snippet: its entry, its file and its item.
#[derive(Debug, PartialEq, Eq)]
pub struct EditTarget {
    pub position: usize,
    pub file: usize,
    pub index: usize,
}

/// The entry positions of a store whose key is `key`.
pub open spec fn key_position(m: StoreModel, key: u64, p: int) -> bool {
    0 <= p < m.entries.len() && m.entries[p].key == key
}

/// The position of the snippet with key `key`.
pub open spec fn position_of_key(m: StoreModel, key: u64) -> int {
    choose|p: int| key_position(m, key, p)
}

/// What looking up an id gives: the position of the snippet whose key the
/// id denotes, or why there is none.
pub open spec fn locate_spec(m: StoreModel, id: Seq<char>) -> Result<int, ErrorModel> {
    match parse_u64_spec(id) {
        None => Err(ErrorModel::InvalidId(id)),
        Some(k) => if exists|p: int| key_position(m, k, p) {
            Ok(position_of_key(m, k))
        } else {
            Err(ErrorModel::NotFound(id))
        },
    }
}

/// What starting an edit of the snippet `id` gives: the position, file and
/// item of an editable snippet, or why it cannot be edited.
pub open spec fn edit_spec(m: StoreModel, id: Seq<char>) -> Result<(int, int, int), ErrorModel> {
    match locate_spec(m, id) {
        Err(e) => Err(e),
        Ok(p) => if m.entries[p].editable {
            Ok((p, m.entries[p].file, m.entries[p].index))
        } else {
            Err(ErrorModel::ReadOnly)
        },
    }
}

/// A key belongs to at most one snippet.
pub proof fn lemma_key_position_unique(m: StoreModel, key: u64, p: int, q: int)
    requires
        store_wf(m),
        key_position(m, key, p),
        key_position(m, key, q),
    ensures
        p == q,
{
    if p < q {
        assert(m.entries[p].key < m.entries[q].key);
    }
    if q < p {
        assert(m.entries[q].key < m.entries[p].key);
    }
}

/// The entries after the snippet at `position` was deleted: the following
/// snippets of the same file move down by one item.
pub open spec fn reindexed(entries: Seq<EntryModel>, position: int, file: int, index: int) -> Seq<
    EntryModel,
> {
    entries.remove(position).map_values(|e: EntryModel| reindex_entry(e, file, index))
}

/// Store models that differ only in the document of one file.
pub open spec fn same_but_document(a: StoreModel, b: StoreModel, file: int, doc: Seq<(YamlView, YamlView)>) -> bool {
    &&& b.match_dir == a.match_dir
    &&& b.default_path == a.default_path
    &&& b.default_collection == a.default_collection
    &&& b.entries == a.entries
    &&& b.next_key == a.next_key
    &&& b.files == a.files.update(file, FileModel { document: doc, ..a.files[file] })
}

/// The document kept for a file: its mapping, or an empty one for an empty file.
pub open spec fn loaded_document(v: YamlView) -> Seq<(YamlView, YamlView)> {
    match v {
        YamlView::Dict(m) => m,
        _ => seq![],
    }
}

/// Fewer items never give more entries.
proof fn lemma_item_entries_prefix_len(
    items: Seq<YamlView>,
    k: int,
    file: int,
    managed: bool,
    first_key: int,
)
    requires
        0 <= k <= items.len(),
    ensures
        item_entries(items.take(k), file, managed, first_key).len() <= item_entries(
            items,
            file,
            managed,
            first_key,
        ).len(),
    decreases items.len() - k,
{
    if k < items.len() {
        lemma_item_entries_prefix_len(items, k + 1, file, managed, first_key);
        assert(items.take(k + 1).drop_last() =~= items.take(k));
    } else {
        assert(items.take(k) =~= items);
    }
}

/// The entries of a file have consecutive keys from `first_key`, refer to
/// that file, and point inside its items.
pub proof fn lemma_item_entries_keys(items: Seq<YamlView>, file: int, managed: bool, first_key: int)
    requires
        first_key >= 0,
        first_key + item_entries(items, file, managed, first_key).len() <= u64::MAX,
    ensures
        item_entries(items, file, managed, first_key).len() <= items.len(),
        forall|j: int|
            0 <= j < item_entries(items, file, managed, first_key).len() ==> {
                let e = #[trigger] item_entries(items, file, managed, first_key)[j];
                &&& e.key == first_key + j
                &&& e.file == file
                &&& 0 <= e.index < items.len()
                &&& e.editable ==> managed
            },
    decreases items.len(),
{
    if items.len() > 0 {
        let prev = item_entries(items.drop_last(), file, managed, first_key);
        lemma_item_entries_keys(items.drop_last(), file, managed, first_key);
        let all = item_entries(items, file, managed, first_key);
        assert forall|j: int| 0 <= j < all.len() implies {
            let e = #[trigger] all[j];
            &&& e.key == first_key + j
            &&& e.file == file
            &&& 0 <= e.index < items.len()
            &&& e.editable ==> managed
        } by {
            if j < prev.len() {
                assert(all[j] == prev[j]);
            }
        };
    }
}

/// Makes sure a document has a `matches` sequence and takes its entry out.
fn prepare_matches(doc: &mut YamlMapping) -> (res: (usize, YamlValue, YamlValue))
    ensures
        is_first_key(ensure_matches_spec(old(doc)@), MATCHES_KEY@, res.0 as int),
        final(doc)@ == ensure_matches_spec(old(doc)@).remove(res.0 as int),
        (res.1@, res.2@) == ensure_matches_spec(old(doc)@)[res.0 as int],
        map_get(ensure_matches_spec(old(doc)@), MATCHES_KEY@) == Some(res.2@),
        as_sequence_spec(res.2@) == Some(matches_of(ensure_matches_spec(old(doc)@))),
{
    let ghost before = doc@;
    let has_sequence = match doc.get(MATCHES_KEY) {
        Some(v) => v.is_sequence(),
        None => false,
    };
    if !has_sequence {
        doc.insert(MATCHES_KEY, YamlValue::Sequence(Vec::new()));
        proof {
            lemma_get_insert_same(before, MATCHES_KEY@, YamlView::List(seq![]));
            assert(values_view(Seq::<YamlValue>::empty()) =~= Seq::<YamlView>::empty());
        }
    }
    let ghost doc1 = doc@;
    assert(doc1 == ensure_matches_spec(before));
    match doc.find(MATCHES_KEY) {
        Some(i) => {
            proof {
                lemma_first_key_unique(doc1, MATCHES_KEY@, i as int);
            }
            let (k, v) = take_entry(doc, i);
            (i, k, v)
        },
        None => {
            assert(false);
            (0, YamlValue::Null, YamlValue::Null)
        },
    }
}

/// Puts the `matches` entry taken by `prepare_matches` back with a new value.
fn finish_matches(
    doc: &mut YamlMapping,
    i: usize,
    key: YamlValue,
    value: YamlValue,
    Ghost(doc1): Ghost<Seq<(YamlView, YamlView)>>,
)
    requires
        is_first_key(doc1, MATCHES_KEY@, i as int),
        old(doc)@ == doc1.remove(i as int),
        key@ == doc1[i as int].0,
    ensures
        final(doc)@ == map_insert(doc1, MATCHES_KEY@, value@),
{
    proof {
        lemma_first_key_unique(doc1, MATCHES_KEY@, i as int);
    }
    put_entry(doc, i, key, value);
    assert(doc@ =~= map_insert(doc1, MATCHES_KEY@, value@));
}

/// A file with nothing in it, to stand in while a file is edited.
fn placeholder_file() -> (res: LoadedFile)
    ensures
        res.model() == (FileModel {
            path: Seq::<char>::empty(),
            collection: Seq::<char>::empty(),
            managed: false,
            fingerprint: None,
            document: Seq::<(YamlView, YamlView)>::empty(),
        }),
{
    LoadedFile {
        path: String::new(),
        collection: String::new(),
        managed: false,
        fingerprint: None,
        document: YamlMapping::new(),
    }
}

impl LibraryStore {
    /// Checks the fields of a snippet before it is saved: the trigger must
    /// hold more than whitespace and the replacement must not be empty.
    pub fn check_fields(trigger: &str, replacement: &str) -> (res: Result<(), LibraryError>)
        ensures
            trim_spec(trigger@).len() == 0 ==> (res matches Err(e) && e@
                == ErrorModel::EmptyTrigger),
            trim_spec(trigger@).len() != 0 && replacement@.len() == 0 ==> (res matches Err(e)
                && e@ == ErrorModel::EmptyReplacement),
            trim_spec(trigger@).len() != 0 && replacement@.len() != 0 ==> res is Ok,
    {
        if is_blank(trigger) {
            return Err(LibraryError::EmptyTrigger);
        }
        if replacement.is_empty() {
            return Err(LibraryError::EmptyReplacement);
        }
        Ok(())
    }

    /// The position of the snippet with the given id.
    pub fn find_entry(&self, id: &str) -> (res: Result<usize, LibraryError>)
        ensures
            store_wf(self@),
            match res {
                Ok(p) => locate_spec(self@, id@) == Ok::<int, ErrorModel>(p as int),
                Err(e) => locate_spec(self@, id@) == Err::<int, ErrorModel>(e@),
            },
    {
        proof {
            use_type_invariant(self);
        }
        let key = match parse_u64(id) {
            Some(k) => k,
            None => {
                return Err(LibraryError::InvalidId(id.to_owned()));
            },
        };
        let mut i: usize = 0;
        while i < self.entries.len()
            invariant
                i <= self.entries.len(),
                store_wf(self@),
                self@.entries.len() == self.entries@.len(),
                parse_u64_spec(id@) == Some(key),
                forall|j: int| 0 <= j < i ==> !key_position(self@, key, j),
            decreases self.entries.len() - i,
        {
            assert(self@.entries[i as int] == self.entries@[i as int].model());
            if self.entries[i].key == key {
                proof {
                    assert(key_position(self@, key, i as int));
                    let c = position_of_key(self@, key);
                    lemma_key_position_unique(self@, key, i as int, c);
                    assert(exists|p: int| key_position(self@, key, p));
                    let r = parse_u64_spec(id@);
                    assert(r == Some(key));
                    assert(r matches Some(k) && k == key);
                    assert(locate_spec(self@, id@) is Ok);
                    assert(locate_spec(self@, id@) == Ok::<int, ErrorModel>(c));
                }
                return Ok(i);
            }
            i = i + 1;
        }
        Err(LibraryError::NotFound(id.to_owned()))
    }

    /// Starts an edit (an update or a deletion) of the snippet `id`: finds
    /// it and checks that it is editable.
    pub fn begin_edit(&self, id: &str) -> (res: Result<EditTarget, LibraryError>)
        ensures
            store_wf(self@),
            match res {
                Ok(t) => edit_spec(self@, id@) == Ok::<(int, int, int), ErrorModel>(
                    (t.position as int, t.file as int, t.index as int),
                ),
                Err(e) => edit_spec(self@, id@) == Err::<(int, int, int), ErrorModel>(e@),
            },
            res matches Ok(t) ==> t.file < self@.files.len() && t.position < self@.entries.len(),
    {
        let position = self.find_entry(id)?;
        assert(self@.entries[position as int] == self.entries@[position as int].model());
        let entry = &self.entries[position];
        if !entry.editable {
            return Err(LibraryError::ReadOnly);
        }
        Ok(EditTarget { position, file: entry.file, index: entry.index })
    }

    /// Checks that a file still has the fingerprint it had when it was read
    /// or last written.
    pub fn check_unchanged(&self, file: usize, current: Option<Fingerprint>) -> (res: Result<
        (),
        LibraryError,
    >)
        requires
            file < self@.files.len(),
        ensures
            store_wf(self@),
            current == self@.files[file as int].fingerprint ==> res is Ok,
            current != self@.files[file as int].fingerprint ==> (res matches Err(e) && e@
                == ErrorModel::ModifiedOutside(self@.files[file as int].path)),
    {
        proof {
            use_type_invariant(self);
        }
        assert(self@.files[file as int] == self.files@[file as int].model());
        let f = &self.files[file];
        if !same_fingerprint(&current, &f.fingerprint) {
            return Err(LibraryError::ModifiedOutside(f.path.clone()));
        }
        Ok(())
    }

    /// Records the fingerprint of a file after it was written.
    pub fn record_write(&mut self, file: usize, fingerprint: Option<Fingerprint>)
        requires
            file < old(self)@.files.len(),
        ensures
            old(self)@.next_key <= final(self)@.next_key,
            store_wf(final(self)@),
            final(self)@ == (StoreModel {
                files: old(self)@.files.update(
                    file as int,
                    FileModel { fingerprint, ..old(self)@.files[file as int] },
                ),
                ..old(self)@
            }),
    {
        proof {
            use_type_invariant(&*self);
        }
        let ghost old_model = self@;
        let (mut files, entries) = self.take_state();
        let mut f = placeholder_file();
        files.set_and_swap(file, &mut f);
        f.fingerprint = fingerprint;
        files.set(file, f);
        proof {
            assert(files@.map_values(|f: LoadedFile| f.model()) =~= old_model.files.update(
                file as int,
                FileModel { fingerprint, ..old_model.files[file as int] },
            ));
            assert(entries@.map_values(|e: Entry| e.model()) =~= old_model.entries);
        }
        let next_key = self.next_key;
        self.put_state(files, entries, next_key);
    }

    /// Writes a snippet into item `target.index` of the `matches` of its
    /// file. The document gets a `matches` sequence if it had none, whether
    /// or not the item is found.
    pub fn apply_update(
        &mut self,
        target: &EditTarget,
        trigger: &str,
        replacement: &str,
        label: &str,
    ) -> (res: Result<(), LibraryError>)
        requires
            target.file < old(self)@.files.len(),
        ensures
            old(self)@.next_key <= final(self)@.next_key,
            store_wf(final(self)@),
            ({
                let f = old(self)@.files[target.file as int];
                let doc1 = ensure_matches_spec(f.document);
                let items = matches_of(doc1);
                let i = target.index as int;
                if i < items.len() && as_mapping_spec(items[i]) is Some {
                    &&& res is Ok
                    &&& same_but_document(
                        old(self)@,
                        final(self)@,
                        target.file as int,
                        set_matches(
                            doc1,
                            items.update(i, edited_item_spec(items[i], trigger@, replacement@, label@)),
                        ),
                    )
                } else {
                    &&& res matches Err(e) && e@ == ErrorModel::NotFoundInFile(f.path)
                    &&& same_but_document(old(self)@, final(self)@, target.file as int, doc1)
                }
            }),
    {
        proof {
            use_type_invariant(&*self);
        }
        let file = target.file;
        let ghost old_model = self@;
        let (mut files, entries) = self.take_state();
        let mut f = placeholder_file();
        files.set_and_swap(file, &mut f);
        assert(f.model() == old_model.files[file as int]);
        let ghost doc1 = ensure_matches_spec(f.document@);
        let (i, k, v) = prepare_matches(&mut f.document);
        let res = match edit_item_at(v, target.index, trigger, replacement, label) {
            Ok(nv) => {
                finish_matches(&mut f.document, i, k, nv, Ghost(doc1));
                Ok(())
            },
            Err(nv) => {
                finish_matches(&mut f.document, i, k, nv, Ghost(doc1));
                proof {
                    lemma_key_index_matches(doc1);
                }
                Err(LibraryError::NotFoundInFile(f.path.clone()))
            },
        };
        proof {
            lemma_key_index_matches(doc1);
        }
        files.set(file, f);
        proof {
            assert(files@.map_values(|f: LoadedFile| f.model()) =~= old_model.files.update(
                file as int,
                FileModel { document: f.document@, ..old_model.files[file as int] },
            ));
            assert(entries@.map_values(|e: Entry| e.model()) =~= old_model.entries);
        }
        let next_key = self.next_key;
        self.put_state(files, entries, next_key);
        res
    }

    /// Appends a new match item holding a snippet to the `matches` of a
    /// file; gives the item's position.
    pub fn apply_create(&mut self, file: usize, trigger: &str, replacement: &str, label: &str) -> (res:
        usize)
        requires
            file < old(self)@.files.len(),
        ensures
            old(self)@.next_key <= final(self)@.next_key,
            store_wf(final(self)@),
            ({
                let doc1 = ensure_matches_spec(old(self)@.files[file as int].document);
                let items = matches_of(doc1);
                &&& res == items.len()
                &&& same_but_document(
                    old(self)@,
                    final(self)@,
                    file as int,
                    set_matches(
                        doc1,
                        items.push(
                            YamlView::Dict(
                                apply_fields_spec(
                                    Seq::<(YamlView, YamlView)>::empty(),
                                    trigger@,
                                    replacement@,
                                    label@,
                                ),
                            ),
                        ),
                    ),
                )
            }),
    {
        proof {
            use_type_invariant(&*self);
        }
        let ghost old_model = self@;
        let (mut files, entries) = self.take_state();
        let mut f = placeholder_file();
        files.set_and_swap(file, &mut f);
        assert(f.model() == old_model.files[file as int]);
        let ghost doc1 = ensure_matches_spec(f.document@);
        let mut item = YamlMapping::new();
        apply_fields(&mut item, trigger, replacement, label);
        let (i, k, v) = prepare_matches(&mut f.document);
        let (nv, index) = push_item(v, YamlValue::Mapping(item));
        finish_matches(&mut f.document, i, k, nv, Ghost(doc1));
        files.set(file, f);
        proof {
            assert(files@.map_values(|f: LoadedFile| f.model()) =~= old_model.files.update(
                file as int,
                FileModel { document: f.document@, ..old_model.files[file as int] },
            ));
            assert(entries@.map_values(|e: Entry| e.model()) =~= old_model.entries);
        }
        let next_key = self.next_key;
        self.put_state(files, entries, next_key);
        index
    }

    /// Removes item `target.index` from the `matches` of its file; `id` is
    /// the snippet's id, for the error when the item is gone.
    pub fn apply_delete(&mut self, target: &EditTarget, id: &str) -> (res: Result<(), LibraryError>)
        requires
            target.file < old(self)@.files.len(),
        ensures
            old(self)@.next_key <= final(self)@.next_key,
            store_wf(final(self)@),
            ({
                let doc1 = ensure_matches_spec(old(self)@.files[target.file as int].document);
                let items = matches_of(doc1);
                if (target.index as int) < items.len() {
                    &&& res is Ok
                    &&& same_but_document(
                        old(self)@,
                        final(self)@,
                        target.file as int,
                        set_matches(doc1, items.remove(target.index as int)),
                    )
                } else {
                    &&& res matches Err(e) && e@ == ErrorModel::NotFound(id@)
                    &&& same_but_document(old(self)@, final(self)@, target.file as int, doc1)
                }
            }),
    {
        proof {
            use_type_invariant(&*self);
        }
        let file = target.file;
        let ghost old_model = self@;
        let (mut files, entries) = self.take_state();
        let mut f = placeholder_file();
        files.set_and_swap(file, &mut f);
        assert(f.model() == old_model.files[file as int]);
        let ghost doc1 = ensure_matches_spec(f.document@);
        let (i, k, v) = prepare_matches(&mut f.document);
        let len = match v.as_sequence() {
            Some(items) => {
                proof {
                    lemma_values_view(items@);
                }
                items.len()
            },
            None => 0,
        };
        let res = if target.index >= len {
            finish_matches(&mut f.document, i, k, v, Ghost(doc1));
            proof {
                lemma_key_index_matches(doc1);
            }
            Err(LibraryError::NotFound(id.to_owned()))
        } else {
            let nv = remove_item(v, target.index);
            finish_matches(&mut f.document, i, k, nv, Ghost(doc1));
            Ok(())
        };
        files.set(file, f);
        proof {
            assert(files@.map_values(|f: LoadedFile| f.model()) =~= old_model.files.update(
                file as int,
                FileModel { document: f.document@, ..old_model.files[file as int] },
            ));
            assert(entries@.map_values(|e: Entry| e.model()) =~= old_model.entries);
        }
        let next_key = self.next_key;
        self.put_state(files, entries, next_key);
        res
    }

    /// Brings the snippet at `target.position` up to date after its item
    /// was rewritten; gives back the snippet's id.
    pub fn commit_update(
        &mut self,
        target: &EditTarget,
        trigger: &str,
        replacement: &str,
        label: &str,
        id: &str,
    ) -> (res: String)
        requires
            target.position < old(self)@.entries.len(),
        ensures
            old(self)@.next_key <= final(self)@.next_key,
            store_wf(final(self)@),
            res@ == id@,
            final(self)@ == (StoreModel {
                entries: old(self)@.entries.update(
                    target.position as int,
                    EntryModel {
                        trigger: trigger@,
                        replacement: replacement@,
                        label: trim_spec(label@),
                        ..old(self)@.entries[target.position as int]
                    },
                ),
                ..old(self)@
            }),
    {
        proof {
            use_type_invariant(&*self);
        }
        let ghost old_model = self@;
        let (files, mut entries) = self.take_state();
        let mut e = Entry {
            key: 0,
            file: 0,
            index: 0,
            trigger: String::new(),
            replacement: String::new(),
            label: String::new(),
            editable: false,
        };
        entries.set_and_swap(target.position, &mut e);
        assert(e.model() == old_model.entries[target.position as int]);
        e.trigger = trigger.to_owned();
        e.replacement = replacement.to_owned();
        e.label = trim(label);
        entries.set(target.position, e);
        proof {
            let new_entries = entries@.map_values(|e: Entry| e.model());
            assert(new_entries =~= old_model.entries.update(
                target.position as int,
                EntryModel {
                    trigger: trigger@,
                    replacement: replacement@,
                    label: trim_spec(label@),
                    ..old_model.entries[target.position as int]
                },
            ));
            assert(files@.map_values(|f: LoadedFile| f.model()) =~= old_model.files);
            assert forall|a: int, b: int|
                #![trigger new_entries[a].key, new_entries[b].key]
                0 <= a < b < new_entries.len() implies new_entries[a].key < new_entries[b].key by {
                assert(old_model.entries[a].key < old_model.entries[b].key);
            };
        }
        let next_key = self.next_key;
        self.put_state(files, entries, next_key);
        id.to_owned()
    }

    /// Adds the snippet that was written into item `index` of `file`; it
    /// gets the next key, and its id (the key in decimal) is returned.
    pub fn commit_create(
        &mut self,
        file: usize,
        index: usize,
        trigger: &str,
        replacement: &str,
        label: &str,
    ) -> (res: Result<String, LibraryError>)
        requires
            file < old(self)@.files.len(),
            old(self)@.files[file as int].managed,
        ensures
            old(self)@.next_key <= final(self)@.next_key,
            store_wf(final(self)@),
            old(self)@.next_key < u64::MAX ==> {
                &&& res matches Ok(id) && id@ == decimal(old(self)@.next_key as nat)
                &&& final(self)@ == (StoreModel {
                    entries: old(self)@.entries.push(
                        EntryModel {
                            key: old(self)@.next_key,
                            file: file as int,
                            index: index as int,
                            trigger: trigger@,
                            replacement: replacement@,
                            label: trim_spec(label@),
                            editable: true,
                        },
                    ),
                    next_key: (old(self)@.next_key + 1) as u64,
                    ..old(self)@
                })
            },
            old(self)@.next_key == u64::MAX ==> {
                &&& res matches Err(e) && e@ == ErrorModel::KeySpaceExhausted
                &&& final(self)@ == old(self)@
            },
            res matches Ok(id) ==> forall|k: u64|
                k < old(self)@.next_key ==> id@ != decimal(k as nat),
    {
        proof {
            use_type_invariant(&*self);
        }
        if self.next_key == u64::MAX {
            return Err(LibraryError::KeySpaceExhausted);
        }
        let key = self.next_key;
        let ghost old_model = self@;
        let (files, mut entries) = self.take_state();
        let entry = Entry {
            key,
            file,
            index,
            trigger: trigger.to_owned(),
            replacement: replacement.to_owned(),
            label: trim(label),
            editable: true,
        };
        entries.push(entry);
        proof {
            let new_entries = entries@.map_values(|e: Entry| e.model());
            assert(new_entries =~= old_model.entries.push(entry.model()));
            assert(files@.map_values(|f: LoadedFile| f.model()) =~= old_model.files);
        }
        self.put_state(files, entries, key + 1);
        proof {
            assert forall|k: u64| k < key implies decimal(key as nat) != decimal(k as nat) by {
                crate::text::lemma_decimal_parses(k);
                crate::text::lemma_decimal_parses(key);
            };
        }
        Ok(u64_to_decimal(key))
    }

    /// Removes the snippet at `target.position` after its item was removed
    /// from the file: the following snippets of that file move down by one.
    pub fn commit_delete(&mut self, target: &EditTarget)
        requires
            target.position < old(self)@.entries.len(),
        ensures
            old(self)@.next_key <= final(self)@.next_key,
            store_wf(final(self)@),
            final(self)@ == (StoreModel {
                entries: reindexed(
                    old(self)@.entries,
                    target.position as int,
                    target.file as int,
                    target.index as int,
                ),
                ..old(self)@
            }),
    {
        proof {
            use_type_invariant(&*self);
        }
        let ghost old_model = self@;
        let (files, mut entries) = self.take_state();
        let _ = entries.remove(target.position);
        let ghost removed = old_model.entries.remove(target.position as int);
        assert(entries@.map_values(|e: Entry| e.model()) =~= removed);
        let mut i: usize = 0;
        while i < entries.len()
            invariant
                i <= entries.len(),
                entries@.len() == removed.len(),
                forall|j: int|
                    0 <= j < entries@.len() ==> #[trigger] entries@[j].model() == (if j < i {
                        reindex_entry(removed[j], target.file as int, target.index as int)
                    } else {
                        removed[j]
                    }),
            decreases entries.len() - i,
        {
            let mut e = Entry {
                key: 0,
                file: 0,
                index: 0,
                trigger: String::new(),
                replacement: String::new(),
                label: String::new(),
                editable: false,
            };
            let ghost before = entries@;
            assert(before[i as int].model() == removed[i as int]);
            entries.set_and_swap(i, &mut e);
            if e.file == target.file && e.index > target.index {
                e.index = e.index - 1;
            }
            assert(e.model() == reindex_entry(removed[i as int], target.file as int, target.index as int));
            entries.set(i, e);
            assert(forall|j: int| 0 <= j < entries@.len() && j != i ==> entries@[j] == before[j]);
            i = i + 1;
        }
        proof {
            let new_entries = entries@.map_values(|e: Entry| e.model());
            assert(new_entries =~= reindexed(
                old_model.entries,
                target.position as int,
                target.file as int,
                target.index as int,
            ));
            assert(files@.map_values(|f: LoadedFile| f.model()) =~= old_model.files);
            assert forall|a: int, b: int|
                #![trigger new_entries[a].key, new_entries[b].key]
                0 <= a < b < new_entries.len() implies new_entries[a].key < new_entries[b].key by {
                let oa = if a < target.position { a } else { a + 1 };
                let ob = if b < target.position { b } else { b + 1 };
                assert(old_model.entries[oa].key < old_model.entries[ob].key);
            };
            assert forall|a: int| 0 <= a < new_entries.len() implies 0
                <= #[trigger] new_entries[a].file < old_model.files.len() by {
                let oa = if a < target.position { a } else { a + 1 };
                assert(0 <= old_model.entries[oa].file < old_model.files.len());
            };
            assert forall|a: int| 0 <= a < new_entries.len() implies #[trigger] new_entries[a].key
                < old_model.next_key by {
                let oa = if a < target.position { a } else { a + 1 };
                assert(old_model.entries[oa].key < old_model.next_key);
            };
        }
        let next_key = self.next_key;
        self.put_state(files, entries, next_key);
    }

    /// Finds the default managed file among the loaded files: `Ok(None)`
    /// when it was not loaded, an error when it was loaded but is not managed.
    pub fn locate_default_file(&self) -> (res: Result<Option<usize>, LibraryError>)
        ensures
            match res {
                Ok(Some(i)) => first_file_with_path(self@, self@.default_path, i as int)
                    && self@.files[i as int].managed,
                Ok(None) => forall|i: int|
                    0 <= i < self@.files.len() ==> !paths_equal(
                        #[trigger] self@.files[i].path,
                        self@.default_path,
                    ),
                Err(e) => e@ == ErrorModel::DefaultFileNotManaged(self@.default_path) && exists|
                    i: int,
                | first_file_with_path(self@, self@.default_path, i) && !self@.files[i].managed,
            },
    {
        let mut i: usize = 0;
        while i < self.files.len()
            invariant
                i <= self.files.len(),
                self@.files.len() == self.files@.len(),
                forall|j: int|
                    0 <= j < i ==> !paths_equal(#[trigger] self@.files[j].path, self@.default_path),
            decreases self.files.len() - i,
        {
            assert(self@.files[i as int] == self.files@[i as int].model());
            if same_path(self.files[i].path.as_str(), self.default_path.as_str()) {
                assert(first_file_with_path(self@, self@.default_path, i as int));
                if !self.files[i].managed {
                    return Err(LibraryError::DefaultFileNotManaged(self.default_path.clone()));
                }
                return Ok(Some(i));
            }
            i = i + 1;
        }
        Ok(None)
    }

    /// Adds the default managed file, which was not loaded: an empty managed
    /// document, refused when a file already exists at its path.
    pub fn add_default_file(&mut self, exists_on_disk: bool) -> (res: Result<usize, LibraryError>)
        ensures
            old(self)@.next_key <= final(self)@.next_key,
            store_wf(final(self)@),
            exists_on_disk ==> {
                &&& res matches Err(e) && e@ == ErrorModel::DefaultFileUnloadable(
                    old(self)@.default_path,
                )
                &&& final(self)@ == old(self)@
            },
            !exists_on_disk ==> {
                &&& res matches Ok(i) && i as int == old(self)@.files.len() && i
                    < final(self)@.files.len()
                &&& final(self)@ == (StoreModel {
                    files: old(self)@.files.push(
                        FileModel {
                            path: old(self)@.default_path,
                            collection: old(self)@.default_collection,
                            managed: true,
                            fingerprint: None,
                            document: Seq::<(YamlView, YamlView)>::empty(),
                        },
                    ),
                    ..old(self)@
                })
            },
    {
        proof {
            use_type_invariant(&*self);
        }
        if exists_on_disk {
            return Err(LibraryError::DefaultFileUnloadable(self.default_path.clone()));
        }
        let ghost old_model = self@;
        let path = self.default_path.clone();
        let collection = self.default_collection.clone();
        let (mut files, entries) = self.take_state();
        let index = files.len();
        files.push(
            LoadedFile { path, collection, managed: true, fingerprint: None, document: YamlMapping::new() },
        );
        proof {
            assert(files@.map_values(|f: LoadedFile| f.model()) =~= old_model.files.push(
                FileModel {
                    path: old_model.default_path,
                    collection: old_model.default_collection,
                    managed: true,
                    fingerprint: None,
                    document: Seq::<(YamlView, YamlView)>::empty(),
                },
            ));
            assert(entries@.map_values(|e: Entry| e.model()) =~= old_model.entries);
        }
        let next_key = self.next_key;
        self.put_state(files, entries, next_key);
        Ok(index)
    }
}

/// An entry after the snippet at item `index` of `file` was deleted.
pub open spec fn reindex_entry(e: EntryModel, file: int, index: int) -> EntryModel {
    if e.file == file && e.index > index {
        EntryModel { index: e.index - 1, ..e }
    } else {
        e
    }
}

/// Whether file `i` is the first loaded file with the given path.
pub open spec fn first_file_with_path(m: StoreModel, path: Seq<char>, i: int) -> bool {
    &&& 0 <= i < m.files.len()
    &&& paths_equal(m.files[i].path, path)
    &&& forall|j: int| 0 <= j < i ==> !paths_equal(#[trigger] m.files[j].path, path)
}

/// Re-inserting the value found under `matches` leaves a document as it is.
proof fn lemma_key_index_matches(doc: Seq<(YamlView, YamlView)>)
    requires
        has_key(doc, MATCHES_KEY@),
    ensures
        map_insert(doc, MATCHES_KEY@, map_get(doc, MATCHES_KEY@)->0) == doc,
{
    let w = choose|w: int| 0 <= w < doc.len() && doc[w].0 == YamlView::Text(MATCHES_KEY@);
    crate::yaml::lemma_first_key_exists(doc, MATCHES_KEY@, w);
    let i = key_index(doc, MATCHES_KEY@);
    assert(map_insert(doc, MATCHES_KEY@, map_get(doc, MATCHES_KEY@)->0) =~= doc);
}

} // verus!
