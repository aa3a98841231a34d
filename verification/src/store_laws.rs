//! Laws of the snippet store: ids find their snippets, and every step of
//! loading, saving and deleting keeps the snippet list in step with the
//! documents of the files.

use vstd::prelude::*;
use crate::snippet::{
    apply_fields_spec, edited_item_spec, lemma_apply_fields_unique,
    lemma_written_snippet_reads_back, snippet_view_spec,
};
use crate::header::is_managed_spec;
use crate::store::{
    edit_spec, ensure_matches_spec, item_entries, load_outcome, loaded_document, key_position, lemma_item_entries_keys,
    lemma_key_position_unique, locate_spec, matches_of, position_of_key, reindex_entry,
    reindexed, same_but_document, set_matches, snippet_record, store_wf, EntryModel, ErrorModel,
    FileModel, Fingerprint, SnippetRecord, StoreModel, MATCHES_KEY,
};
use crate::text::{decimal, parse_u64_spec, trim_spec};
use crate::yaml::{
    as_mapping_spec, as_sequence_spec, lemma_get_insert_same, lemma_with_entries,
    lemma_with_items, map_get, string_keys_unique, with_items, YamlView, keys_unique_deep,
    lemma_untag_keys_unique, lemma_first_key_exists, key_index,
};

verus! {

/// Law: the id under which a snippet is shown finds that same snippet.
pub proof fn lemma_snippet_id_locates(m: StoreModel, i: int)
    requires
        store_wf(m),
        0 <= i < m.entries.len(),
    ensures
        locate_spec(m, snippet_record(m, i).id) == Ok::<int, ErrorModel>(i),
{
    let k = m.entries[i].key;
    crate::text::lemma_decimal_parses(k);
    assert(key_position(m, k, i));
    let c = position_of_key(m, k);
    lemma_key_position_unique(m, k, i, c);
    let id = snippet_record(m, i).id;
    assert(id == decimal(k as nat));
    let r = parse_u64_spec(id);
    assert(r == Some(k));
    assert(r matches Some(x) && x == k);
    assert(exists|p: int| key_position(m, k, p));
    assert(locate_spec(m, id) is Ok);
}

/// Whether entry `e` shows what its match item holds: the item is a
/// mapping (with unique string keys) whose view is the entry's text, and the
/// entry is editable exactly when its file is managed and the view is.
pub open spec fn entry_mirrors(m: StoreModel, e: EntryModel) -> bool {
    let f = m.files[e.file];
    let items = matches_of(f.document);
    &&& 0 <= e.index < items.len()
    &&& as_mapping_spec(items[e.index]) matches Some(item) && {
        &&& string_keys_unique(item)
        &&& snippet_view_spec(item) matches Some(v) && {
            &&& e.trigger == v.trigger
            &&& e.replacement == v.replacement
            &&& e.label == v.label
            &&& e.editable == (f.managed && v.editable)
        }
    }
}

/// The snippets of a store show what its documents hold: every entry
/// mirrors its own match item, and no two entries share an item.
pub open spec fn store_consistent(m: StoreModel) -> bool {
    &&& store_wf(m)
    &&& forall|i: int| 0 <= i < m.entries.len() ==> entry_mirrors(m, #[trigger] m.entries[i])
    &&& forall|i: int, j: int|
        #![trigger m.entries[i], m.entries[j]]
        0 <= i < m.entries.len() && 0 <= j < m.entries.len() && i != j ==> (m.entries[i].file
            != m.entries[j].file || m.entries[i].index != m.entries[j].index)
}

/// The `matches` items after they were replaced.
proof fn lemma_matches_of_set(doc: Seq<(YamlView, YamlView)>, items: Seq<YamlView>)
    requires
        map_get(doc, MATCHES_KEY@) matches Some(v) && as_sequence_spec(v) is Some,
    ensures
        matches_of(set_matches(doc, items)) == items,
{
    let v = map_get(doc, MATCHES_KEY@)->0;
    lemma_get_insert_same(doc, MATCHES_KEY@, with_items(v, items));
    lemma_with_items(v, items);
}

/// A document whose `matches` has items already has a `matches` sequence.
proof fn lemma_ensure_matches_noop(doc: Seq<(YamlView, YamlView)>)
    requires
        matches_of(doc).len() > 0,
    ensures
        ensure_matches_spec(doc) == doc,
        map_get(doc, MATCHES_KEY@) matches Some(v) && as_sequence_spec(v) is Some,
{
}

/// After `ensure_matches_spec`, the document has a `matches` sequence.
proof fn lemma_ensure_matches(doc: Seq<(YamlView, YamlView)>)
    ensures
        map_get(ensure_matches_spec(doc), MATCHES_KEY@) matches Some(v) && as_sequence_spec(v)
            is Some,
        matches_of(ensure_matches_spec(doc)) == matches_of(doc),
{
    match map_get(doc, MATCHES_KEY@) {
        Some(v) => if as_sequence_spec(v) is None {
            lemma_get_insert_same(doc, MATCHES_KEY@, YamlView::List(seq![]));
        },
        None => {
            lemma_get_insert_same(doc, MATCHES_KEY@, YamlView::List(seq![]));
        },
    }
}

/// The store after the snippet at position `p` was rewritten with
/// `apply_update` and `commit_update`.
pub open spec fn after_update(
    m: StoreModel,
    p: int,
    trigger: Seq<char>,
    replacement: Seq<char>,
    label: Seq<char>,
) -> StoreModel {
    let e = m.entries[p];
    let f = m.files[e.file];
    let doc1 = ensure_matches_spec(f.document);
    let items = matches_of(doc1);
    StoreModel {
        files: m.files.update(
            e.file,
            FileModel {
                document: set_matches(
                    doc1,
                    items.update(
                        e.index,
                        edited_item_spec(items[e.index], trigger, replacement, label),
                    ),
                ),
                ..f
            },
        ),
        entries: m.entries.update(
            p,
            EntryModel { trigger, replacement, label: trim_spec(label), ..e },
        ),
        ..m
    }
}

/// Law: rewriting an editable snippet keeps the snippet list in step with
/// the documents, and the snippet then shows the new trigger, replacement
/// and trimmed label under the same id.
proof fn lemma_update_model_consistent(
    m: StoreModel,
    p: int,
    trigger: Seq<char>,
    replacement: Seq<char>,
    label: Seq<char>,
)
    requires
        store_consistent(m),
        0 <= p < m.entries.len(),
        m.entries[p].editable,
    ensures
        store_consistent(after_update(m, p, trigger, replacement, label)),
        snippet_record(after_update(m, p, trigger, replacement, label), p) == (SnippetRecord {
            trigger,
            replacement,
            label: trim_spec(label),
            ..snippet_record(m, p)
        }),
{
    let e = m.entries[p];
    let f = m.files[e.file];
    let doc1 = ensure_matches_spec(f.document);
    assert(entry_mirrors(m, e));
    lemma_ensure_matches_noop(f.document);
    let items = matches_of(doc1);
    let item_v = items[e.index];
    let item = as_mapping_spec(item_v)->0;
    let edited = edited_item_spec(item_v, trigger, replacement, label);
    let new_items = items.update(e.index, edited);
    let m2 = after_update(m, p, trigger, replacement, label);
    lemma_matches_of_set(doc1, new_items);
    lemma_with_entries(item_v, apply_fields_spec(item, trigger, replacement, label));
    lemma_apply_fields_unique(item, trigger, replacement, label);
    lemma_written_snippet_reads_back(item, trigger, replacement, label);
    assert(m2.files[e.file].managed == f.managed);
    assert forall|i: int| 0 <= i < m2.entries.len() implies entry_mirrors(
        m2,
        #[trigger] m2.entries[i],
    ) by {
        assert(entry_mirrors(m, m.entries[i]));
        if i != p {
            let ei = m.entries[i];
            assert(m2.entries[i] == ei);
            if ei.file == e.file {
                assert(ei.index != e.index);
                assert(matches_of(m2.files[ei.file].document) == new_items);
            } else {
                assert(m2.files[ei.file] == m.files[ei.file]);
            }
        } else {
            assert(matches_of(m2.files[e.file].document) == new_items);
        }
    };
    assert forall|i: int, j: int|
        #![trigger m2.entries[i], m2.entries[j]]
        0 <= i < m2.entries.len() && 0 <= j < m2.entries.len() && i != j implies (
        m2.entries[i].file != m2.entries[j].file || m2.entries[i].index
            != m2.entries[j].index) by {
        assert(m.entries[i].file != m.entries[j].file || m.entries[i].index
            != m.entries[j].index);
    };
    assert forall|a: int, b: int|
        #![trigger m2.entries[a].key, m2.entries[b].key]
        0 <= a < b < m2.entries.len() implies m2.entries[a].key < m2.entries[b].key by {
        assert(m.entries[a].key < m.entries[b].key);
    };
    assert forall|a: int| 0 <= a < m2.entries.len() implies 0 <= #[trigger] m2.entries[a].file
        < m2.files.len() by {
        assert(0 <= m.entries[a].file < m.files.len());
    };
    assert forall|a: int| 0 <= a < m2.entries.len() implies #[trigger] m2.entries[a].key
        < m2.next_key by {
        assert(m.entries[a].key < m.next_key);
    };
}

/// The store after the snippet at position `p` was deleted with
/// `apply_delete` and `commit_delete`.
pub open spec fn after_delete(m: StoreModel, p: int) -> StoreModel {
    let e = m.entries[p];
    let f = m.files[e.file];
    let doc1 = ensure_matches_spec(f.document);
    StoreModel {
        files: m.files.update(
            e.file,
            FileModel { document: set_matches(doc1, matches_of(doc1).remove(e.index)), ..f },
        ),
        entries: reindexed(m.entries, p, e.file, e.index),
        ..m
    }
}

/// Law: deleting a snippet keeps the snippet list in step with the
/// documents; the snippets after it in the same file still find their items.
proof fn lemma_delete_model_consistent(m: StoreModel, p: int)
    requires
        store_consistent(m),
        0 <= p < m.entries.len(),
    ensures
        store_consistent(after_delete(m, p)),
        after_delete(m, p).entries.len() == m.entries.len() - 1,
        forall|i: int|
            0 <= i < after_delete(m, p).entries.len() ==> (#[trigger] after_delete(m, p).entries[i]).key
                == m.entries[if i < p { i } else { i + 1 }].key,
{
    let e = m.entries[p];
    let f = m.files[e.file];
    let doc1 = ensure_matches_spec(f.document);
    assert(entry_mirrors(m, e));
    lemma_ensure_matches_noop(f.document);
    let items = matches_of(doc1);
    let new_items = items.remove(e.index);
    let m2 = after_delete(m, p);
    lemma_matches_of_set(doc1, new_items);
    let n = m2.entries.len();
    assert forall|i: int| 0 <= i < n implies #[trigger] m2.entries[i] == reindex_entry(
        m.entries[if i < p { i } else { i + 1 }],
        e.file,
        e.index,
    ) by {};
    assert forall|i: int| 0 <= i < n implies entry_mirrors(m2, #[trigger] m2.entries[i]) by {
        let oi = if i < p { i } else { i + 1 };
        let ei = m.entries[oi];
        assert(entry_mirrors(m, ei));
        if ei.file == e.file {
            assert(ei.index != e.index);
            assert(matches_of(m2.files[ei.file].document) == new_items);
            if ei.index > e.index {
                assert(new_items[ei.index - 1] == items[ei.index]);
            } else {
                assert(new_items[ei.index] == items[ei.index]);
            }
        } else {
            assert(m2.files[ei.file] == m.files[ei.file]);
        }
    };
    assert forall|i: int, j: int|
        #![trigger m2.entries[i], m2.entries[j]]
        0 <= i < n && 0 <= j < n && i != j implies (m2.entries[i].file != m2.entries[j].file
            || m2.entries[i].index != m2.entries[j].index) by {
        let oi = if i < p { i } else { i + 1 };
        let oj = if j < p { j } else { j + 1 };
        assert(m.entries[oi].file != m.entries[oj].file || m.entries[oi].index
            != m.entries[oj].index);
        assert(m.entries[oi].file != e.file || m.entries[oi].index != e.index);
        assert(m.entries[oj].file != e.file || m.entries[oj].index != e.index);
    };
    assert forall|a: int, b: int|
        #![trigger m2.entries[a].key, m2.entries[b].key]
        0 <= a < b < n implies m2.entries[a].key < m2.entries[b].key by {
        let oa = if a < p { a } else { a + 1 };
        let ob = if b < p { b } else { b + 1 };
        assert(m.entries[oa].key < m.entries[ob].key);
    };
    assert forall|a: int| 0 <= a < n implies 0 <= #[trigger] m2.entries[a].file < m2.files.len() by {
        let oa = if a < p { a } else { a + 1 };
        assert(0 <= m.entries[oa].file < m.files.len());
    };
    assert forall|a: int| 0 <= a < n implies #[trigger] m2.entries[a].key < m2.next_key by {
        let oa = if a < p { a } else { a + 1 };
        assert(m.entries[oa].key < m.next_key);
    };
}

/// The store after a snippet was added to `file` with `apply_create` and
/// `commit_create`.
pub open spec fn after_create(
    m: StoreModel,
    file: int,
    trigger: Seq<char>,
    replacement: Seq<char>,
    label: Seq<char>,
) -> StoreModel {
    let f = m.files[file];
    let doc1 = ensure_matches_spec(f.document);
    let items = matches_of(doc1);
    let item = YamlView::Dict(
        apply_fields_spec(Seq::<(YamlView, YamlView)>::empty(), trigger, replacement, label),
    );
    StoreModel {
        files: m.files.update(
            file,
            FileModel { document: set_matches(doc1, items.push(item)), ..f },
        ),
        entries: m.entries.push(
            EntryModel {
                key: m.next_key,
                file,
                index: items.len() as int,
                trigger,
                replacement,
                label: trim_spec(label),
                editable: true,
            },
        ),
        next_key: (m.next_key + 1) as u64,
        ..m
    }
}

/// Law: adding a snippet to a managed file keeps the snippet list in step
/// with the documents; the new snippet is editable, shows what was saved,
/// and its id finds it.
proof fn lemma_create_model_consistent(
    m: StoreModel,
    file: int,
    trigger: Seq<char>,
    replacement: Seq<char>,
    label: Seq<char>,
)
    requires
        store_consistent(m),
        0 <= file < m.files.len(),
        m.files[file].managed,
        m.next_key < u64::MAX,
    ensures
        store_consistent(after_create(m, file, trigger, replacement, label)),
        ({
            let m2 = after_create(m, file, trigger, replacement, label);
            let i = m.entries.len() as int;
            &&& snippet_record(m2, i) == (SnippetRecord {
                id: decimal(m.next_key as nat),
                collection: m.files[file].collection,
                trigger,
                replacement,
                label: trim_spec(label),
                editable: true,
            })
            &&& locate_spec(m2, decimal(m.next_key as nat)) == Ok::<int, ErrorModel>(i)
        }),
{
    let f = m.files[file];
    let doc1 = ensure_matches_spec(f.document);
    lemma_ensure_matches(f.document);
    let items = matches_of(doc1);
    let empty = Seq::<(YamlView, YamlView)>::empty();
    let item = YamlView::Dict(apply_fields_spec(empty, trigger, replacement, label));
    let new_items = items.push(item);
    let m2 = after_create(m, file, trigger, replacement, label);
    lemma_matches_of_set(doc1, new_items);
    lemma_apply_fields_unique(empty, trigger, replacement, label);
    lemma_written_snippet_reads_back(empty, trigger, replacement, label);
    let n = m.entries.len();
    assert forall|i: int| 0 <= i < m2.entries.len() implies entry_mirrors(
        m2,
        #[trigger] m2.entries[i],
    ) by {
        if i < n {
            let ei = m.entries[i];
            assert(m2.entries[i] == ei);
            assert(entry_mirrors(m, ei));
            if ei.file == file {
                assert(matches_of(m2.files[file].document) == new_items);
                assert(new_items[ei.index] == items[ei.index]);
            } else {
                assert(m2.files[ei.file] == m.files[ei.file]);
            }
        } else {
            assert(matches_of(m2.files[file].document) == new_items);
        }
    };
    assert forall|i: int, j: int|
        #![trigger m2.entries[i], m2.entries[j]]
        0 <= i < m2.entries.len() && 0 <= j < m2.entries.len() && i != j implies (
        m2.entries[i].file != m2.entries[j].file || m2.entries[i].index
            != m2.entries[j].index) by {
        if i < n && j < n {
            assert(m.entries[i].file != m.entries[j].file || m.entries[i].index
                != m.entries[j].index);
        } else if i < n {
            assert(entry_mirrors(m, m.entries[i]));
        } else {
            assert(entry_mirrors(m, m.entries[j]));
        }
    };
    assert forall|a: int, b: int|
        #![trigger m2.entries[a].key, m2.entries[b].key]
        0 <= a < b < m2.entries.len() implies m2.entries[a].key < m2.entries[b].key by {
        if b < n {
            assert(m.entries[a].key < m.entries[b].key);
        } else {
            assert(m.entries[a].key < m.next_key);
        }
    };
    assert forall|a: int| 0 <= a < m2.entries.len() implies 0 <= #[trigger] m2.entries[a].file
        < m2.files.len() by {
        if a < n {
            assert(0 <= m.entries[a].file < m.files.len());
        }
    };
    assert forall|a: int| 0 <= a < m2.entries.len() implies #[trigger] m2.entries[a].key
        < m2.next_key by {
        if a < n {
            assert(m.entries[a].key < m.next_key);
        }
    };
    lemma_snippet_id_locates(m2, n as int);
}

/// Every mapping among the items has unique string keys (as parsed YAML has).
pub open spec fn items_keys_unique(items: Seq<YamlView>) -> bool {
    forall|i: int|
        0 <= i < items.len() ==> (as_mapping_spec(#[trigger] items[i]) matches Some(m)
            ==> string_keys_unique(m))
}

/// The match items of a document whose mappings all have distinct keys
/// (as a parsed document) have distinct keys too.
pub proof fn lemma_parsed_items_unique(d: YamlView)
    requires
        keys_unique_deep(d),
    ensures
        items_keys_unique(matches_of(loaded_document(d))),
{
    let doc = loaded_document(d);
    let items = matches_of(doc);
    if let Some(v) = map_get(doc, MATCHES_KEY@) {
        if let Some(list) = as_sequence_spec(v) {
            let w = choose|w: int| 0 <= w < doc.len() && doc[w].0 == YamlView::Text(MATCHES_KEY@);
            lemma_first_key_exists(doc, MATCHES_KEY@, w);
            let k = key_index(doc, MATCHES_KEY@);
            assert(keys_unique_deep(doc[k].1));
            lemma_untag_keys_unique(v);
            assert(items == list);
            assert forall|i: int| 0 <= i < items.len() implies (as_mapping_spec(
                #[trigger] items[i],
            ) matches Some(m) ==> string_keys_unique(m)) by {
                assert(keys_unique_deep(list[i]));
                lemma_untag_keys_unique(items[i]);
            };
        }
    }
}

/// The entries found in match items show those items, in item order.
proof fn lemma_item_entries_mirror(items: Seq<YamlView>, file: int, managed: bool, first_key: int)
    ensures
        forall|j: int|
            0 <= j < item_entries(items, file, managed, first_key).len() ==> {
                let e = #[trigger] item_entries(items, file, managed, first_key)[j];
                &&& 0 <= e.index < items.len()
                &&& as_mapping_spec(items[e.index]) matches Some(item) && snippet_view_spec(
                    item,
                ) matches Some(v) && {
                    &&& e.trigger == v.trigger
                    &&& e.replacement == v.replacement
                    &&& e.label == v.label
                    &&& e.editable == (managed && v.editable)
                }
            },
        forall|j: int, k: int|
            0 <= j < k < item_entries(items, file, managed, first_key).len() ==> (
            #[trigger] item_entries(items, file, managed, first_key)[j]).index < (
            #[trigger] item_entries(items, file, managed, first_key)[k]).index,
    decreases items.len(),
{
    if items.len() > 0 {
        let prev_items = items.drop_last();
        lemma_item_entries_mirror(prev_items, file, managed, first_key);
        let prev = item_entries(prev_items, file, managed, first_key);
        let all = item_entries(items, file, managed, first_key);
        assert forall|j: int| 0 <= j < all.len() implies {
            let e = #[trigger] all[j];
            &&& 0 <= e.index < items.len()
            &&& as_mapping_spec(items[e.index]) matches Some(item) && snippet_view_spec(
                item,
            ) matches Some(v) && {
                &&& e.trigger == v.trigger
                &&& e.replacement == v.replacement
                &&& e.label == v.label
                &&& e.editable == (managed && v.editable)
            }
        } by {
            if j < prev.len() {
                assert(all[j] == prev[j]);
                assert(items[prev[j].index] == prev_items[prev[j].index]);
            }
        };
        assert forall|j: int, k: int| 0 <= j < k < all.len() implies (#[trigger] all[j]).index < (
        #[trigger] all[k]).index by {
            if k < prev.len() {
                assert(all[j] == prev[j] && all[k] == prev[k]);
            } else {
                assert(all[j] == prev[j]);
            }
        };
    }
}

/// The store after a file was added with `load_file`.
pub open spec fn after_load(m: StoreModel, file: FileModel) -> StoreModel {
    let added = item_entries(
        matches_of(file.document),
        m.files.len() as int,
        file.managed,
        m.next_key as int,
    );
    StoreModel {
        files: m.files.push(file),
        entries: m.entries + added,
        next_key: (m.next_key + added.len()) as u64,
        ..m
    }
}

/// Law: loading a file keeps the snippet list in step with the documents:
/// each new snippet shows its match item, editable exactly when the file is
/// managed and the item holds a single plain trigger and a plain replacement.
proof fn lemma_load_model_consistent(m: StoreModel, file: FileModel)
    requires
        store_consistent(m),
        items_keys_unique(matches_of(file.document)),
        m.next_key + item_entries(
            matches_of(file.document),
            m.files.len() as int,
            file.managed,
            m.next_key as int,
        ).len() <= u64::MAX,
    ensures
        store_consistent(after_load(m, file)),
{
    let items = matches_of(file.document);
    let fi = m.files.len() as int;
    let added = item_entries(items, fi, file.managed, m.next_key as int);
    lemma_item_entries_mirror(items, fi, file.managed, m.next_key as int);
    lemma_item_entries_keys(items, fi, file.managed, m.next_key as int);
    let m2 = after_load(m, file);
    let n = m.entries.len();
    assert forall|i: int| 0 <= i < m2.entries.len() implies entry_mirrors(
        m2,
        #[trigger] m2.entries[i],
    ) by {
        if i < n {
            assert(m2.entries[i] == m.entries[i]);
            assert(entry_mirrors(m, m.entries[i]));
            assert(0 <= m.entries[i].file < m.files.len());
            assert(m2.files[m.entries[i].file] == m.files[m.entries[i].file]);
        } else {
            assert(m2.entries[i] == added[i - n]);
            assert(m2.files[fi] == file);
            let e = added[i - n];
            assert(as_mapping_spec(items[e.index]) is Some);
        }
    };
    assert forall|i: int, j: int|
        #![trigger m2.entries[i], m2.entries[j]]
        0 <= i < m2.entries.len() && 0 <= j < m2.entries.len() && i != j implies (
        m2.entries[i].file != m2.entries[j].file || m2.entries[i].index
            != m2.entries[j].index) by {
        if i < n && j < n {
            assert(m.entries[i].file != m.entries[j].file || m.entries[i].index
                != m.entries[j].index);
        } else if i < n {
            assert(0 <= m.entries[i].file < m.files.len());
            assert(m2.entries[j] == added[j - n]);
        } else if j < n {
            assert(0 <= m.entries[j].file < m.files.len());
            assert(m2.entries[i] == added[i - n]);
        } else {
            assert(m2.entries[i] == added[i - n]);
            assert(m2.entries[j] == added[j - n]);
            if i < j {
                assert(added[i - n].index < added[j - n].index);
            } else {
                assert(added[j - n].index < added[i - n].index);
            }
        }
    };
    assert forall|a: int, b: int|
        #![trigger m2.entries[a].key, m2.entries[b].key]
        0 <= a < b < m2.entries.len() implies m2.entries[a].key < m2.entries[b].key by {
        if b < n {
            assert(m.entries[a].key < m.entries[b].key);
        } else if a < n {
            assert(m.entries[a].key < m.next_key);
            assert(m2.entries[b] == added[b - n]);
        } else {
            assert(m2.entries[a] == added[a - n]);
            assert(m2.entries[b] == added[b - n]);
        }
    };
    assert forall|a: int| 0 <= a < m2.entries.len() implies 0 <= #[trigger] m2.entries[a].file
        < m2.files.len() by {
        if a < n {
            assert(0 <= m.entries[a].file < m.files.len());
        } else {
            assert(m2.entries[a] == added[a - n]);
        }
    };
    assert forall|a: int| 0 <= a < m2.entries.len() implies #[trigger] m2.entries[a].key
        < m2.next_key by {
        if a < n {
            assert(m.entries[a].key < m.next_key);
        } else {
            assert(m2.entries[a] == added[a - n]);
        }
    };
}

/// Law: a store with no snippets yet (as `new` makes) is consistent.
pub proof fn lemma_empty_store_consistent(m: StoreModel)
    requires
        m.entries.len() == 0,
        m.next_key >= 1,
    ensures
        store_consistent(m),
{
}

/// Law: recording a file's fingerprint after a write keeps the snippet list
/// in step with the documents, and a check against that fingerprint passes.
pub proof fn lemma_record_write_keeps_consistent(
    m: StoreModel,
    file: int,
    fingerprint: Option<Fingerprint>,
)
    requires
        store_consistent(m),
        0 <= file < m.files.len(),
    ensures
        ({
            let m2 = StoreModel {
                files: m.files.update(file, FileModel { fingerprint, ..m.files[file] }),
                ..m
            };
            &&& store_consistent(m2)
            &&& m2.files[file].fingerprint == fingerprint
        }),
{
    let m2 = StoreModel {
        files: m.files.update(file, FileModel { fingerprint, ..m.files[file] }),
        ..m
    };
    assert forall|i: int| 0 <= i < m2.entries.len() implies entry_mirrors(
        m2,
        #[trigger] m2.entries[i],
    ) by {
        assert(entry_mirrors(m, m.entries[i]));
        assert(0 <= m.entries[i].file < m.files.len());
    };
}

/// Law: adding the default managed file keeps the snippet list in step
/// with the documents.
pub proof fn lemma_add_default_keeps_consistent(m: StoreModel)
    requires
        store_consistent(m),
    ensures
        store_consistent(
            StoreModel {
                files: m.files.push(
                    FileModel {
                        path: m.default_path,
                        collection: m.default_collection,
                        managed: true,
                        fingerprint: None,
                        document: Seq::<(YamlView, YamlView)>::empty(),
                    },
                ),
                ..m
            },
        ),
{
    let f = FileModel {
        path: m.default_path,
        collection: m.default_collection,
        managed: true,
        fingerprint: None,
        document: Seq::<(YamlView, YamlView)>::empty(),
    };
    let m2 = StoreModel { files: m.files.push(f), ..m };
    assert forall|i: int| 0 <= i < m2.entries.len() implies entry_mirrors(
        m2,
        #[trigger] m2.entries[i],
    ) by {
        assert(entry_mirrors(m, m.entries[i]));
        assert(0 <= m.entries[i].file < m.files.len());
        assert(m2.files[m.entries[i].file] == m.files[m.entries[i].file]);
    };
}

/// Law: only snippets of managed files can be edited or deleted, so files
/// without the managed header are never rewritten by an edit.
pub proof fn lemma_edits_target_managed_files(m: StoreModel, id: Seq<char>)
    requires
        store_consistent(m),
        edit_spec(m, id) is Ok,
    ensures
        ({
            let (p, file, index) = edit_spec(m, id)->Ok_0;
            &&& 0 <= p < m.entries.len()
            &&& 0 <= file < m.files.len()
            &&& m.files[file].managed
        }),
{
    let p = locate_spec(m, id)->Ok_0;
    let k = parse_u64_spec(id)->0;
    assert(exists|q: int| key_position(m, k, q));
    assert(key_position(m, k, p));
    assert(entry_mirrors(m, m.entries[p]));
}

/// Law: an edit (an update or a delete) starts only for a snippet that can
/// be edited, and for the snippet that the id names: a successful start at
/// position `p` means entry `p` is editable and has the id's key. An id that
/// names a snippet that cannot be edited is refused as read-only.
pub proof fn lemma_edit_needs_editable(m: StoreModel, id: Seq<char>)
    requires
        store_wf(m),
    ensures
        edit_spec(m, id) matches Ok((p, f, i)) ==> {
            &&& 0 <= p < m.entries.len()
            &&& m.entries[p].editable
            &&& parse_u64_spec(id) == Some(m.entries[p].key)
            &&& f == m.entries[p].file
            &&& i == m.entries[p].index
        },
        forall|p: int|
            0 <= p < m.entries.len() && parse_u64_spec(id) == Some(#[trigger] m.entries[p].key)
                && !m.entries[p].editable ==> edit_spec(m, id) == Err::<(int, int, int), ErrorModel>(
                ErrorModel::ReadOnly,
            ),
{
    if let Some(k) = parse_u64_spec(id) {
        if exists|q: int| key_position(m, k, q) {
            let q = position_of_key(m, k);
            assert(key_position(m, k, q));
            assert forall|p: int|
                0 <= p < m.entries.len() && parse_u64_spec(id) == Some(#[trigger] m.entries[p].key)
                    && !m.entries[p].editable implies edit_spec(m, id) == Err::<
                (int, int, int),
                ErrorModel,
            >(ErrorModel::ReadOnly) by {
                assert(key_position(m, k, p));
                lemma_key_position_unique(m, k, p, q);
            };
        } else {
            assert forall|p: int|
                0 <= p < m.entries.len() && parse_u64_spec(id) == Some(#[trigger] m.entries[p].key)
                    && !m.entries[p].editable implies edit_spec(m, id) == Err::<
                (int, int, int),
                ErrorModel,
            >(ErrorModel::ReadOnly) by {
                assert(key_position(m, k, p));
            };
        }
    }
}

/// Law: no two snippets are shown under the same id.
pub proof fn lemma_snippet_ids_distinct(m: StoreModel, i: int, j: int)
    requires
        store_wf(m),
        0 <= i < m.entries.len(),
        0 <= j < m.entries.len(),
        i != j,
    ensures
        snippet_record(m, i).id != snippet_record(m, j).id,
{
    lemma_snippet_id_locates(m, i);
    lemma_snippet_id_locates(m, j);
}

/// Law: a snippet is editable only when its file is managed: a file whose
/// first line, trimmed at its end, is the managed header when it was loaded
/// (`load_file` records exactly that), or the default file that the library
/// adds itself. Every store keeps this, whatever steps failed before.
pub proof fn lemma_editable_only_in_managed_files(m: StoreModel, i: int)
    requires
        store_wf(m),
        0 <= i < m.entries.len(),
        m.entries[i].editable,
    ensures
        m.files[m.entries[i].file].managed,
{
}

/// The next key never goes down from one store of a run to a later one.
proof fn lemma_next_key_grows(run: Seq<StoreModel>, i: int, j: int)
    requires
        forall|t: int| 0 <= t < run.len() - 1 ==> #[trigger] run[t].next_key <= run[t + 1].next_key,
        0 <= i <= j < run.len(),
    ensures
        run[i].next_key <= run[j].next_key,
    decreases j - i,
{
    if i < j {
        lemma_next_key_grows(run, i, j - 1);
        assert(run[j - 1].next_key <= run[j].next_key);
    }
}

/// Law: an id is never handed out twice. In a run of stores where each one
/// follows from the one before by a step of `LibraryStore` (each step keeps
/// the next key from going down), the id that `commit_create` gives in a
/// store (the decimal of its next key) differs from every id that the same
/// or an earlier store shows.
pub proof fn lemma_ids_never_reused(run: Seq<StoreModel>, i: int, j: int, k: int)
    requires
        forall|t: int| 0 <= t < run.len() ==> #[trigger] store_wf(run[t]),
        forall|t: int| 0 <= t < run.len() - 1 ==> #[trigger] run[t].next_key <= run[t + 1].next_key,
        0 <= i <= j < run.len(),
        0 <= k < run[i].entries.len(),
    ensures
        snippet_record(run[i], k).id != decimal(run[j].next_key as nat),
{
    lemma_next_key_grows(run, i, j);
    assert(store_wf(run[i]));
    let key = run[i].entries[k].key;
    assert(key < run[j].next_key);
    crate::text::lemma_decimal_parses(key);
    crate::text::lemma_decimal_parses(run[j].next_key);
}

/// Law: saving over an editable snippet (`apply_update` succeeding, then
/// `commit_update`) keeps the snippet list in step with the documents, and
/// the snippet then shows the new trigger, replacement and trimmed label
/// under the same id.
pub proof fn lemma_update_keeps_consistent(
    m0: StoreModel,
    m1: StoreModel,
    m2: StoreModel,
    p: int,
    trigger: Seq<char>,
    replacement: Seq<char>,
    label: Seq<char>,
)
    requires
        store_consistent(m0),
        0 <= p < m0.entries.len(),
        m0.entries[p].editable,
        ({
            let e = m0.entries[p];
            let doc1 = ensure_matches_spec(m0.files[e.file].document);
            let items = matches_of(doc1);
            same_but_document(
                m0,
                m1,
                e.file,
                set_matches(
                    doc1,
                    items.update(
                        e.index,
                        edited_item_spec(items[e.index], trigger, replacement, label),
                    ),
                ),
            )
        }),
        m2 == (StoreModel {
            entries: m1.entries.update(
                p,
                EntryModel { trigger, replacement, label: trim_spec(label), ..m1.entries[p] },
            ),
            ..m1
        }),
    ensures
        store_consistent(m2),
        snippet_record(m2, p) == (SnippetRecord {
            trigger,
            replacement,
            label: trim_spec(label),
            ..snippet_record(m0, p)
        }),
{
    assert(m2 =~= after_update(m0, p, trigger, replacement, label));
    lemma_update_model_consistent(m0, p, trigger, replacement, label);
}

/// Law: deleting a snippet (`apply_delete` succeeding, then
/// `commit_delete`) keeps the snippet list in step with the documents; the
/// snippets after it in the same file still find their items, under their ids.
pub proof fn lemma_delete_keeps_consistent(m0: StoreModel, m1: StoreModel, m2: StoreModel, p: int)
    requires
        store_consistent(m0),
        0 <= p < m0.entries.len(),
        ({
            let e = m0.entries[p];
            let doc1 = ensure_matches_spec(m0.files[e.file].document);
            same_but_document(m0, m1, e.file, set_matches(doc1, matches_of(doc1).remove(e.index)))
        }),
        m2 == (StoreModel {
            entries: reindexed(m1.entries, p, m0.entries[p].file, m0.entries[p].index),
            ..m1
        }),
    ensures
        store_consistent(m2),
        m2.entries.len() == m0.entries.len() - 1,
        forall|i: int|
            0 <= i < m2.entries.len() ==> (#[trigger] m2.entries[i]).key == m0.entries[if i < p {
                i
            } else {
                i + 1
            }].key,
{
    assert(m2 =~= after_delete(m0, p));
    lemma_delete_model_consistent(m0, p);
}

/// Law: adding a snippet to a managed file (`apply_create`, then
/// `commit_create`) keeps the snippet list in step with the documents; the
/// new snippet is editable, shows what was saved, and its id finds it.
pub proof fn lemma_create_keeps_consistent(
    m0: StoreModel,
    m1: StoreModel,
    m2: StoreModel,
    file: int,
    index: int,
    trigger: Seq<char>,
    replacement: Seq<char>,
    label: Seq<char>,
)
    requires
        store_consistent(m0),
        0 <= file < m0.files.len(),
        m0.files[file].managed,
        m0.next_key < u64::MAX,
        ({
            let doc1 = ensure_matches_spec(m0.files[file].document);
            let items = matches_of(doc1);
            &&& index == items.len()
            &&& same_but_document(
                m0,
                m1,
                file,
                set_matches(
                    doc1,
                    items.push(
                        YamlView::Dict(
                            apply_fields_spec(
                                Seq::<(YamlView, YamlView)>::empty(),
                                trigger,
                                replacement,
                                label,
                            ),
                        ),
                    ),
                ),
            )
        }),
        m2 == (StoreModel {
            entries: m1.entries.push(
                EntryModel {
                    key: m1.next_key,
                    file,
                    index,
                    trigger,
                    replacement,
                    label: trim_spec(label),
                    editable: true,
                },
            ),
            next_key: (m1.next_key + 1) as u64,
            ..m1
        }),
    ensures
        store_consistent(m2),
        snippet_record(m2, m0.entries.len() as int) == (SnippetRecord {
            id: decimal(m0.next_key as nat),
            collection: m0.files[file].collection,
            trigger,
            replacement,
            label: trim_spec(label),
            editable: true,
        }),
        locate_spec(m2, decimal(m0.next_key as nat)) == Ok::<int, ErrorModel>(
            m0.entries.len() as int,
        ),
{
    assert(m2 =~= after_create(m0, file, trigger, replacement, label));
    lemma_create_model_consistent(m0, file, trigger, replacement, label);
}

/// Law: loading a match file (`load_file` or `load_document` succeeding)
/// keeps the snippet list in step with the documents: each new snippet
/// shows its match item, editable exactly when the file is managed and the
/// item holds a single plain trigger and a plain replacement.
pub proof fn lemma_load_keeps_consistent(
    m0: StoreModel,
    m1: StoreModel,
    path: Seq<char>,
    collection: Seq<char>,
    content: Seq<char>,
    fingerprint: Option<Fingerprint>,
    document: YamlView,
)
    requires
        store_consistent(m0),
        items_keys_unique(matches_of(loaded_document(document))),
        load_outcome(m0, path, collection, content, fingerprint, document) == Ok::<
            StoreModel,
            ErrorModel,
        >(m1),
    ensures
        store_consistent(m1),
{
    let file = FileModel {
        path,
        collection,
        managed: is_managed_spec(content),
        fingerprint,
        document: loaded_document(document),
    };
    assert(m1 =~= after_load(m0, file));
    lemma_load_model_consistent(m0, file);
}

} // verus!
