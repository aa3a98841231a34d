//! Saving and deleting snippets as a sequence of steps: the library decides
//! each step, and the caller does the file work in between (reading a
//! file's fingerprint, checking that a file exists, writing a file) and
//! hands back what it found.
//!
//! A save over an existing snippet checks the file is unchanged on disk,
//! rewrites the item, writes the file and then updates the snippet. A new
//! snippet goes to the default managed file, which is added when it was not
//! loaded; a delete removes the item, writes the file and then drops the
//! snippet. When the caller's file work fails, the edit ends there.

use vstd::prelude::*;
use crate::header::managed_content_spec;
use crate::snippet::{apply_fields_spec, edited_item_spec};
use crate::store::{
    edit_spec, ensure_matches_spec, first_file_with_path, matches_of, reindexed, set_matches,
    EditTarget, ErrorModel, store_wf, FileModel, Fingerprint, LibraryError, LibraryStore, StoreModel,
    EntryModel,
};
use crate::paths::paths_equal;
use crate::text::{decimal, trim_spec};
use crate::yaml::{as_mapping_spec, serialized_document, YamlView};

verus! {

/// A change asked of the library.
#[derive(Debug, PartialEq, Eq)]
pub enum EditRequest {
    /// Save a snippet: a new one when there is no `id`, else the snippet with that id.
    Save { id: Option<String>, trigger: String, replacement: String, label: String },
    /// Delete the snippet with this id.
    Delete { id: String },
}

/// What the caller does next for an edit.
#[derive(Debug, PartialEq, Eq)]
pub enum EditAction {
    /// Read the fingerprint of the file at `path`; hand back `EditEvent::Fingerprint`.
    ReadFingerprint { path: String },
    /// Tell whether a file exists at `path`; hand back `EditEvent::Exists`.
    CheckExists { path: String },
    /// Create the file's directory, then write `content` to `path` (no
    /// content: the document cannot be written as YAML, and the edit fails);
    /// hand back the file's new fingerprint as `EditEvent::Written`.
    Write { path: String, content: Option<String> },
    /// The edit is over: the snippet's id, or why it was refused.
    Finished(Result<String, LibraryError>),
}

/// What the caller found.
#[derive(Debug, PartialEq, Eq)]
pub enum EditEvent {
    Fingerprint(Option<Fingerprint>),
    Exists(bool),
    Written(Option<Fingerprint>),
}

/// Where an edit stands while the caller works on a file.
#[derive(Debug, PartialEq, Eq)]
pub enum EditProgress {
    Over,
    UpdateCheck { target: EditTarget, trigger: String, replacement: String, label: String, id: String },
    UpdateWrite { target: EditTarget, trigger: String, replacement: String, label: String, id: String },
    CreateProbe { trigger: String, replacement: String, label: String },
    CreateCheck { file: usize, trigger: String, replacement: String, label: String },
    CreateWrite { file: usize, index: usize, trigger: String, replacement: String, label: String },
    DeleteCheck { target: EditTarget, id: String },
    DeleteWrite { target: EditTarget, id: String },
}

/// Whether the edit's positions lie in the store `m`, and a new snippet's
/// file is managed.
pub open spec fn progress_fits(p: EditProgress, m: StoreModel) -> bool {
    match p {
        EditProgress::UpdateCheck { target, .. } | EditProgress::UpdateWrite { target, .. }
        | EditProgress::DeleteCheck { target, .. } | EditProgress::DeleteWrite { target, .. } => {
            target.file < m.files.len() && target.position < m.entries.len()
        },
        EditProgress::CreateCheck { file, .. } | EditProgress::CreateWrite { file, .. } => {
            file < m.files.len() && m.files[file as int].managed
        },
        _ => true,
    }
}

/// Whether the edit waits for this kind of event.
pub open spec fn progress_awaits(p: EditProgress, e: EditEvent) -> bool {
    match p {
        EditProgress::UpdateCheck { .. } | EditProgress::CreateCheck { .. }
        | EditProgress::DeleteCheck { .. } => e is Fingerprint,
        EditProgress::CreateProbe { .. } => e is Exists,
        EditProgress::UpdateWrite { .. } | EditProgress::CreateWrite { .. }
        | EditProgress::DeleteWrite { .. } => e is Written,
        EditProgress::Over => false,
    }
}

/// The refusal of a trigger and a replacement, if any.
pub open spec fn fields_error(trigger: Seq<char>, replacement: Seq<char>) -> Option<ErrorModel> {
    if trim_spec(trigger).len() == 0 {
        Some(ErrorModel::EmptyTrigger)
    } else if replacement.len() == 0 {
        Some(ErrorModel::EmptyReplacement)
    } else {
        None
    }
}

/// Whether `content` is the text written for a document: the document as
/// YAML below the managed header, or nothing when it cannot be written.
pub open spec fn content_for(content: Option<String>, doc: Seq<(YamlView, YamlView)>) -> bool {
    match serialized_document(doc) {
        Some(body) => content matches Some(t) && t@ == managed_content_spec(body),
        None => content is None,
    }
}

/// Whether the action writes file `file` of store `m`.
pub open spec fn writes_file(a: EditAction, m: StoreModel, file: int) -> bool {
    a matches EditAction::Write { path, content } && path@ == m.files[file].path && content_for(
        content,
        m.files[file].document,
    )
}

/// Whether the action ends the edit with this error.
pub open spec fn fails_with(a: EditAction, e: ErrorModel) -> bool {
    a matches EditAction::Finished(Err(x)) && x@ == e
}

/// The store with the document of file `file` replaced.
pub open spec fn with_document(m: StoreModel, file: int, doc: Seq<(YamlView, YamlView)>) -> StoreModel {
    StoreModel { files: m.files.update(file, FileModel { document: doc, ..m.files[file] }), ..m }
}

/// The store with the fingerprint of file `file` replaced.
pub open spec fn with_fingerprint(m: StoreModel, file: int, fp: Option<Fingerprint>) -> StoreModel {
    StoreModel { files: m.files.update(file, FileModel { fingerprint: fp, ..m.files[file] }), ..m }
}

/// The document of file `file` after the snippet at item `index` was
/// rewritten, or `None` when there is no such item.
pub open spec fn updated_document(
    m: StoreModel,
    file: int,
    index: int,
    trigger: Seq<char>,
    replacement: Seq<char>,
    label: Seq<char>,
) -> Option<Seq<(YamlView, YamlView)>> {
    let doc1 = ensure_matches_spec(m.files[file].document);
    let items = matches_of(doc1);
    if index < items.len() && as_mapping_spec(items[index]) is Some {
        Some(set_matches(doc1, items.update(index, edited_item_spec(items[index], trigger, replacement, label))))
    } else {
        None
    }
}

/// The document of file `file` after item `index` was removed, or `None`
/// when there is no such item.
pub open spec fn deleted_document(m: StoreModel, file: int, index: int) -> Option<Seq<(YamlView, YamlView)>> {
    let doc1 = ensure_matches_spec(m.files[file].document);
    let items = matches_of(doc1);
    if index < items.len() {
        Some(set_matches(doc1, items.remove(index)))
    } else {
        None
    }
}

/// The document of file `file` with a new match item at its end.
pub open spec fn created_document(
    m: StoreModel,
    file: int,
    trigger: Seq<char>,
    replacement: Seq<char>,
    label: Seq<char>,
) -> Seq<(YamlView, YamlView)> {
    let doc1 = ensure_matches_spec(m.files[file].document);
    set_matches(
        doc1,
        matches_of(doc1).push(
            YamlView::Dict(apply_fields_spec(Seq::empty(), trigger, replacement, label)),
        ),
    )
}

impl LibraryStore {
    /// The first step of an edit: the request is checked and the snippet
    /// found; the caller then reads the file's fingerprint, or checks
    /// whether the default file exists when it was not loaded.
    pub fn start_edit(&self, request: EditRequest) -> (res: (EditProgress, EditAction))
        ensures
            progress_fits(res.0, self@),
            match request {
                EditRequest::Save { id, trigger, replacement, label } => match fields_error(
                    trigger@,
                    replacement@,
                ) {
                    Some(e) => res.0 is Over && fails_with(res.1, e),
                    None => match id {
                        Some(id) => match edit_spec(self@, id@) {
                            Ok((p, f, i)) => {
                                &&& res.0 == (EditProgress::UpdateCheck {
                                    target: EditTarget { position: p as usize, file: f as usize, index: i as usize },
                                    trigger,
                                    replacement,
                                    label,
                                    id,
                                })
                                &&& res.1 matches EditAction::ReadFingerprint { path } && path@
                                    == self@.files[f].path
                            },
                            Err(e) => res.0 is Over && fails_with(res.1, e),
                        },
                        None => {
                            &&& (exists|i: int|
                                first_file_with_path(self@, self@.default_path, i)
                                    && !self@.files[i].managed) ==> res.0 is Over && fails_with(
                                res.1,
                                ErrorModel::DefaultFileNotManaged(self@.default_path),
                            )
                            &&& forall|i: int|
                                first_file_with_path(self@, self@.default_path, i)
                                    && self@.files[i].managed ==> {
                                    &&& res.0 == (EditProgress::CreateCheck {
                                        file: i as usize,
                                        trigger,
                                        replacement,
                                        label,
                                    })
                                    &&& res.1 matches EditAction::ReadFingerprint { path } && path@
                                        == self@.files[i].path
                                }
                            &&& (forall|i: int|
                                0 <= i < self@.files.len() ==> !paths_equal(
                                    #[trigger] self@.files[i].path,
                                    self@.default_path,
                                )) ==> {
                                &&& res.0 == (EditProgress::CreateProbe { trigger, replacement, label })
                                &&& res.1 matches EditAction::CheckExists { path } && path@
                                    == self@.default_path
                            }
                        },
                    },
                },
                EditRequest::Delete { id } => match edit_spec(self@, id@) {
                    Ok((p, f, i)) => {
                        &&& res.0 == (EditProgress::DeleteCheck {
                            target: EditTarget { position: p as usize, file: f as usize, index: i as usize },
                            id,
                        })
                        &&& res.1 matches EditAction::ReadFingerprint { path } && path@
                            == self@.files[f].path
                    },
                    Err(e) => res.0 is Over && fails_with(res.1, e),
                },
            },
    {
        match request {
            EditRequest::Save { id, trigger, replacement, label } => {
                if let Err(e) = LibraryStore::check_fields(trigger.as_str(), replacement.as_str()) {
                    return (EditProgress::Over, EditAction::Finished(Err(e)));
                }
                match id {
                    Some(id) => match self.begin_edit(id.as_str()) {
                        Ok(target) => {
                            let path = self.file_path(target.file).clone();
                            (
                                EditProgress::UpdateCheck { target, trigger, replacement, label, id },
                                EditAction::ReadFingerprint { path },
                            )
                        },
                        Err(e) => (EditProgress::Over, EditAction::Finished(Err(e))),
                    },
                    None => match self.locate_default_file() {
                        Ok(Some(file)) => {
                            proof {
                                assert forall|i: int|
                                    first_file_with_path(self@, self@.default_path, i) implies i
                                    == file by {
                                    if i < file {
                                        assert(!paths_equal(self@.files[i].path, self@.default_path));
                                    }
                                    if file < i {
                                        assert(!paths_equal(self@.files[file as int].path, self@.default_path));
                                    }
                                };
                            }
                            let path = self.file_path(file).clone();
                            (
                                EditProgress::CreateCheck { file, trigger, replacement, label },
                                EditAction::ReadFingerprint { path },
                            )
                        },
                        Ok(None) => {
                            let path = self.default_path().clone();
                            (
                                EditProgress::CreateProbe { trigger, replacement, label },
                                EditAction::CheckExists { path },
                            )
                        },
                        Err(e) => {
                            proof {
                                let j = choose|j: int|
                                    first_file_with_path(self@, self@.default_path, j)
                                        && !self@.files[j].managed;
                                assert forall|i: int|
                                    first_file_with_path(self@, self@.default_path, i) implies i
                                    == j by {
                                    if i < j {
                                        assert(!paths_equal(self@.files[i].path, self@.default_path));
                                    }
                                    if j < i {
                                        assert(!paths_equal(self@.files[j].path, self@.default_path));
                                    }
                                };
                            }
                            (EditProgress::Over, EditAction::Finished(Err(e)))
                        },
                    },
                }
            },
            EditRequest::Delete { id } => match self.begin_edit(id.as_str()) {
                Ok(target) => {
                    let path = self.file_path(target.file).clone();
                    (EditProgress::DeleteCheck { target, id }, EditAction::ReadFingerprint { path })
                },
                Err(e) => (EditProgress::Over, EditAction::Finished(Err(e))),
            },
        }
    }

    /// Whether the edit can go on with `event` in this store.
    pub fn can_resume(&self, progress: &EditProgress, event: &EditEvent) -> (res: bool)
        ensures
            res == (progress_fits(*progress, self@) && progress_awaits(*progress, *event)),
    {
        let fits = match progress {
            EditProgress::UpdateCheck { target, .. } | EditProgress::UpdateWrite { target, .. }
            | EditProgress::DeleteCheck { target, .. } | EditProgress::DeleteWrite { target, .. } => {
                target.file < self.file_count() && target.position < self.entry_count()
            },
            EditProgress::CreateCheck { file, .. } | EditProgress::CreateWrite { file, .. } => {
                *file < self.file_count() && self.is_file_managed(*file)
            },
            _ => true,
        };
        let awaits = match progress {
            EditProgress::UpdateCheck { .. } | EditProgress::CreateCheck { .. }
            | EditProgress::DeleteCheck { .. } => matches!(event, EditEvent::Fingerprint(_)),
            EditProgress::CreateProbe { .. } => matches!(event, EditEvent::Exists(_)),
            EditProgress::UpdateWrite { .. } | EditProgress::CreateWrite { .. }
            | EditProgress::DeleteWrite { .. } => matches!(event, EditEvent::Written(_)),
            EditProgress::Over => false,
        };
        fits && awaits
    }

    /// The next step of an edit, with what the caller found: the file is
    /// checked to be unchanged and the document edited (the caller then
    /// writes the file), the default file added (the caller then reads its
    /// fingerprint), or the written file recorded and the snippet list
    /// brought up to date (the edit is then over).
    pub fn resume_edit(&mut self, progress: EditProgress, event: EditEvent) -> (res: (
        EditProgress,
        EditAction,
    ))
        requires
            progress_fits(progress, old(self)@),
            progress_awaits(progress, event),
        ensures
            store_wf(final(self)@),
            old(self)@.next_key <= final(self)@.next_key,
            progress_fits(res.0, final(self)@),
            match (progress, event) {
                (
                    EditProgress::UpdateCheck { target, trigger, replacement, label, id },
                    EditEvent::Fingerprint(fp),
                ) => {
                    let m = old(self)@;
                    let f = target.file as int;
                    if fp != m.files[f].fingerprint {
                        &&& final(self)@ == m
                        &&& res.0 is Over
                        &&& fails_with(res.1, ErrorModel::ModifiedOutside(m.files[f].path))
                    } else {
                        match updated_document(m, f, target.index as int, trigger@, replacement@, label@) {
                            Some(doc) => {
                                &&& final(self)@ == with_document(m, f, doc)
                                &&& res.0 == (EditProgress::UpdateWrite { target, trigger, replacement, label, id })
                                &&& writes_file(res.1, final(self)@, f)
                            },
                            None => {
                                &&& final(self)@ == with_document(m, f, ensure_matches_spec(m.files[f].document))
                                &&& res.0 is Over
                                &&& fails_with(res.1, ErrorModel::NotFoundInFile(m.files[f].path))
                            },
                        }
                    }
                },
                (
                    EditProgress::UpdateWrite { target, trigger, replacement, label, id },
                    EditEvent::Written(fp),
                ) => {
                    let m1 = with_fingerprint(old(self)@, target.file as int, fp);
                    let p = target.position as int;
                    &&& final(self)@ == (StoreModel {
                        entries: m1.entries.update(
                            p,
                            EntryModel {
                                trigger: trigger@,
                                replacement: replacement@,
                                label: trim_spec(label@),
                                ..m1.entries[p]
                            },
                        ),
                        ..m1
                    })
                    &&& res.0 is Over
                    &&& res.1 matches EditAction::Finished(Ok(s)) && s@ == id@
                },
                (EditProgress::CreateProbe { trigger, replacement, label }, EditEvent::Exists(exists)) => {
                    let m = old(self)@;
                    if exists {
                        &&& final(self)@ == m
                        &&& res.0 is Over
                        &&& fails_with(res.1, ErrorModel::DefaultFileUnloadable(m.default_path))
                    } else {
                        &&& final(self)@ == (StoreModel {
                            files: m.files.push(
                                FileModel {
                                    path: m.default_path,
                                    collection: m.default_collection,
                                    managed: true,
                                    fingerprint: None,
                                    document: Seq::<(YamlView, YamlView)>::empty(),
                                },
                            ),
                            ..m
                        })
                        &&& res.0 == (EditProgress::CreateCheck {
                            file: m.files.len() as usize,
                            trigger,
                            replacement,
                            label,
                        })
                        &&& res.1 matches EditAction::ReadFingerprint { path } && path@ == m.default_path
                    }
                },
                (
                    EditProgress::CreateCheck { file, trigger, replacement, label },
                    EditEvent::Fingerprint(fp),
                ) => {
                    let m = old(self)@;
                    let f = file as int;
                    if fp != m.files[f].fingerprint {
                        &&& final(self)@ == m
                        &&& res.0 is Over
                        &&& fails_with(res.1, ErrorModel::ModifiedOutside(m.files[f].path))
                    } else {
                        &&& final(self)@ == with_document(
                            m,
                            f,
                            created_document(m, f, trigger@, replacement@, label@),
                        )
                        &&& res.0 == (EditProgress::CreateWrite {
                            file,
                            index: matches_of(ensure_matches_spec(m.files[f].document)).len() as usize,
                            trigger,
                            replacement,
                            label,
                        })
                        &&& writes_file(res.1, final(self)@, f)
                    }
                },
                (
                    EditProgress::CreateWrite { file, index, trigger, replacement, label },
                    EditEvent::Written(fp),
                ) => {
                    let m = old(self)@;
                    let m1 = with_fingerprint(m, file as int, fp);
                    &&& res.0 is Over
                    &&& if m.next_key < u64::MAX {
                        &&& final(self)@ == (StoreModel {
                            entries: m1.entries.push(
                                EntryModel {
                                    key: m.next_key,
                                    file: file as int,
                                    index: index as int,
                                    trigger: trigger@,
                                    replacement: replacement@,
                                    label: trim_spec(label@),
                                    editable: true,
                                },
                            ),
                            next_key: (m.next_key + 1) as u64,
                            ..m1
                        })
                        &&& res.1 matches EditAction::Finished(Ok(s)) && s@ == decimal(m.next_key as nat)
                    } else {
                        &&& final(self)@ == m1
                        &&& fails_with(res.1, ErrorModel::KeySpaceExhausted)
                    }
                },
                (EditProgress::DeleteCheck { target, id }, EditEvent::Fingerprint(fp)) => {
                    let m = old(self)@;
                    let f = target.file as int;
                    if fp != m.files[f].fingerprint {
                        &&& final(self)@ == m
                        &&& res.0 is Over
                        &&& fails_with(res.1, ErrorModel::ModifiedOutside(m.files[f].path))
                    } else {
                        match deleted_document(m, f, target.index as int) {
                            Some(doc) => {
                                &&& final(self)@ == with_document(m, f, doc)
                                &&& res.0 == (EditProgress::DeleteWrite { target, id })
                                &&& writes_file(res.1, final(self)@, f)
                            },
                            None => {
                                &&& final(self)@ == with_document(m, f, ensure_matches_spec(m.files[f].document))
                                &&& res.0 is Over
                                &&& fails_with(res.1, ErrorModel::NotFound(id@))
                            },
                        }
                    }
                },
                (EditProgress::DeleteWrite { target, id }, EditEvent::Written(fp)) => {
                    let m1 = with_fingerprint(old(self)@, target.file as int, fp);
                    &&& final(self)@ == (StoreModel {
                        entries: reindexed(
                            m1.entries,
                            target.position as int,
                            target.file as int,
                            target.index as int,
                        ),
                        ..m1
                    })
                    &&& res.0 is Over
                    &&& res.1 matches EditAction::Finished(Ok(s)) && s@ == id@
                },
                _ => true,
            },
    {
        match progress {
            EditProgress::UpdateCheck { target, trigger, replacement, label, id } => {
                let fp = match event {
                    EditEvent::Fingerprint(fp) => fp,
                    _ => None,
                };
                if let Err(e) = self.check_unchanged(target.file, fp) {
                    return (EditProgress::Over, EditAction::Finished(Err(e)));
                }
                match self.apply_update(&target, trigger.as_str(), replacement.as_str(), label.as_str()) {
                    Ok(()) => {
                        let path = self.file_path(target.file).clone();
                        let content = self.file_content(target.file);
                        (
                            EditProgress::UpdateWrite { target, trigger, replacement, label, id },
                            EditAction::Write { path, content },
                        )
                    },
                    Err(e) => (EditProgress::Over, EditAction::Finished(Err(e))),
                }
            },
            EditProgress::UpdateWrite { target, trigger, replacement, label, id } => {
                let fp = match event {
                    EditEvent::Written(fp) => fp,
                    _ => None,
                };
                self.record_write(target.file, fp);
                let res = self.commit_update(
                    &target,
                    trigger.as_str(),
                    replacement.as_str(),
                    label.as_str(),
                    id.as_str(),
                );
                (EditProgress::Over, EditAction::Finished(Ok(res)))
            },
            EditProgress::CreateProbe { trigger, replacement, label } => {
                let exists = match event {
                    EditEvent::Exists(b) => b,
                    _ => false,
                };
                match self.add_default_file(exists) {
                    Ok(file) => {
                        let path = self.file_path(file).clone();
                        (
                            EditProgress::CreateCheck { file, trigger, replacement, label },
                            EditAction::ReadFingerprint { path },
                        )
                    },
                    Err(e) => (EditProgress::Over, EditAction::Finished(Err(e))),
                }
            },
            EditProgress::CreateCheck { file, trigger, replacement, label } => {
                let fp = match event {
                    EditEvent::Fingerprint(fp) => fp,
                    _ => None,
                };
                if let Err(e) = self.check_unchanged(file, fp) {
                    return (EditProgress::Over, EditAction::Finished(Err(e)));
                }
                let index = self.apply_create(file, trigger.as_str(), replacement.as_str(), label.as_str());
                let path = self.file_path(file).clone();
                let content = self.file_content(file);
                (
                    EditProgress::CreateWrite { file, index, trigger, replacement, label },
                    EditAction::Write { path, content },
                )
            },
            EditProgress::CreateWrite { file, index, trigger, replacement, label } => {
                let fp = match event {
                    EditEvent::Written(fp) => fp,
                    _ => None,
                };
                self.record_write(file, fp);
                let res = self.commit_create(
                    file,
                    index,
                    trigger.as_str(),
                    replacement.as_str(),
                    label.as_str(),
                );
                (EditProgress::Over, EditAction::Finished(res))
            },
            EditProgress::DeleteCheck { target, id } => {
                let fp = match event {
                    EditEvent::Fingerprint(fp) => fp,
                    _ => None,
                };
                if let Err(e) = self.check_unchanged(target.file, fp) {
                    return (EditProgress::Over, EditAction::Finished(Err(e)));
                }
                match self.apply_delete(&target, id.as_str()) {
                    Ok(()) => {
                        let path = self.file_path(target.file).clone();
                        let content = self.file_content(target.file);
                        (EditProgress::DeleteWrite { target, id }, EditAction::Write { path, content })
                    },
                    Err(e) => (EditProgress::Over, EditAction::Finished(Err(e))),
                }
            },
            EditProgress::DeleteWrite { target, id } => {
                let fp = match event {
                    EditEvent::Written(fp) => fp,
                    _ => None,
                };
                self.record_write(target.file, fp);
                self.commit_delete(&target);
                (EditProgress::Over, EditAction::Finished(Ok(id)))
            },
            EditProgress::Over => (EditProgress::Over, EditAction::Finished(Ok(String::new()))),
        }
    }


}

} // verus!
