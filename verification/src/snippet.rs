//! How a match item of a YAML file is shown as a snippet, and how a snippet
//! edited in the library is written back into a match item.

use vstd::prelude::*;
use crate::text::{concat, join, join_spec, trim, trim_spec};
use crate::yaml::{
    as_sequence_spec, as_str_spec, lemma_get_insert_other, lemma_get_insert_same,
    lemma_get_remove_other, lemma_get_remove_same, lemma_unique_after_insert,
    lemma_unique_after_remove, lemma_values_view, map_get, map_insert, map_remove,
    string_keys_unique, values_view, as_mapping_spec, with_entries, with_items, YamlMapping,
    YamlValue, YamlView,
};

verus! {

pub const LABEL_KEY: &'static str = "label";
pub const TRIGGER_KEY: &'static str = "trigger";
pub const TRIGGERS_KEY: &'static str = "triggers";
pub const REGEX_KEY: &'static str = "regex";
pub const REPLACE_KEY: &'static str = "replace";
pub const MARKDOWN_KEY: &'static str = "markdown";
pub const HTML_KEY: &'static str = "html";
pub const FORM_KEY: &'static str = "form";
pub const IMAGE_PATH_KEY: &'static str = "image_path";

pub const TRIGGER_SEPARATOR: &'static str = ", ";
pub const REGEX_PREFIX: &'static str = "regex: ";
pub const IMAGE_PREFIX: &'static str = "[image] ";

/// A match item as the library shows it.
pub struct SnippetView {
    pub trigger: String,
    pub replacement: String,
    pub label: String,
    /// Only matches with a single plain trigger and a plain replacement can
    /// be edited without losing information.
    pub editable: bool,
}

/// The model of a `SnippetView`.
pub struct SnippetModel {
    pub trigger: Seq<char>,
    pub replacement: Seq<char>,
    pub label: Seq<char>,
    pub editable: bool,
}

impl View for SnippetView {
    type V = SnippetModel;

    open spec fn view(&self) -> SnippetModel {
        SnippetModel {
            trigger: self.trigger@,
            replacement: self.replacement@,
            label: self.label@,
            editable: self.editable,
        }
    }
}

/// The text stored under a string key, when it is a string.
pub open spec fn field_spec(m: Seq<(YamlView, YamlView)>, key: Seq<char>) -> Option<Seq<char>> {
    match map_get(m, key) {
        Some(v) => as_str_spec(v),
        None => None,
    }
}

/// The strings among a sequence of values, in order.
pub open spec fn strings_of(items: Seq<YamlView>) -> Seq<Seq<char>>
    decreases items.len(),
{
    if items.len() == 0 {
        seq![]
    } else {
        let rest = strings_of(items.drop_last());
        match as_str_spec(items.last()) {
            Some(s) => rest.push(s),
            None => rest,
        }
    }
}

/// The trigger text of a match item, and whether it is a single plain trigger.
pub open spec fn trigger_spec(m: Seq<(YamlView, YamlView)>) -> Option<(Seq<char>, bool)> {
    match field_spec(m, TRIGGER_KEY@) {
        Some(t) => Some((t, true)),
        None => {
            let listed = match map_get(m, TRIGGERS_KEY@) {
                Some(v) => as_sequence_spec(v),
                None => None,
            };
            match listed {
                Some(items) => {
                    let ts = strings_of(items);
                    if ts.len() == 0 {
                        None
                    } else {
                        Some((join_spec(ts, TRIGGER_SEPARATOR@), ts.len() == 1))
                    }
                },
                None => match field_spec(m, REGEX_KEY@) {
                    Some(r) => Some((REGEX_PREFIX@ + r, false)),
                    None => None,
                },
            }
        },
    }
}

/// The replacement text of a match item, and whether it is a plain replacement.
pub open spec fn replacement_spec(m: Seq<(YamlView, YamlView)>) -> (Seq<char>, bool) {
    if let Some(r) = field_spec(m, REPLACE_KEY@) {
        (r, true)
    } else if let Some(r) = field_spec(m, MARKDOWN_KEY@) {
        (r, false)
    } else if let Some(r) = field_spec(m, HTML_KEY@) {
        (r, false)
    } else if let Some(r) = field_spec(m, FORM_KEY@) {
        (r, false)
    } else if let Some(r) = field_spec(m, IMAGE_PATH_KEY@) {
        (IMAGE_PREFIX@ + r, false)
    } else {
        (seq![], false)
    }
}

/// How a match item is shown, or `None` for an item that has no trigger.
pub open spec fn snippet_view_spec(m: Seq<(YamlView, YamlView)>) -> Option<SnippetModel> {
    match trigger_spec(m) {
        Some((trigger, simple_trigger)) => {
            let (replacement, simple_replacement) = replacement_spec(m);
            let label = match field_spec(m, LABEL_KEY@) {
                Some(l) => l,
                None => seq![],
            };
            Some(
                SnippetModel {
                    trigger,
                    replacement,
                    label,
                    editable: simple_trigger && simple_replacement,
                },
            )
        },
        None => None,
    }
}

/// Whether the value at `i` is the only string among the values.
pub open spec fn only_string_at(items: Seq<YamlView>, i: int) -> bool {
    &&& 0 <= i < items.len()
    &&& as_str_spec(items[i]) is Some
    &&& forall|j: int| 0 <= j < items.len() && j != i ==> #[trigger] as_str_spec(items[j]) is None
}

/// Whether a sequence of values holds exactly one string.
pub open spec fn one_string(items: Seq<YamlView>) -> bool {
    exists|i: int| only_string_at(items, i)
}

/// Whether no value of a sequence is a string.
pub open spec fn no_string(items: Seq<YamlView>) -> bool {
    forall|j: int| 0 <= j < items.len() ==> #[trigger] as_str_spec(items[j]) is None
}

/// A sequence has no strings exactly when none of its values is one.
proof fn lemma_no_strings(items: Seq<YamlView>)
    ensures
        strings_of(items).len() == 0 <==> no_string(items),
    decreases items.len(),
{
    if items.len() > 0 {
        let pre = items.drop_last();
        lemma_no_strings(pre);
        assert forall|j: int| 0 <= j < pre.len() implies #[trigger] pre[j] == items[j] by {};
        if strings_of(items).len() == 0 {
            if as_str_spec(items.last()) is Some {
                assert(strings_of(items).len() == strings_of(pre).len() + 1);
            }
            assert forall|j: int| 0 <= j < items.len() implies #[trigger] as_str_spec(items[j])
                is None by {
                if j < pre.len() {
                    assert(pre[j] == items[j]);
                }
            };
        }
        if no_string(items) {
            assert(as_str_spec(items[items.len() - 1]) is None);
            assert forall|j: int| 0 <= j < pre.len() implies #[trigger] as_str_spec(pre[j]) is None by {
                assert(pre[j] == items[j]);
            };
        }
    }
}

/// A sequence has one string exactly when one of its values is a string.
proof fn lemma_one_string(items: Seq<YamlView>)
    ensures
        strings_of(items).len() == 1 <==> one_string(items),
    decreases items.len(),
{
    if items.len() > 0 {
        let pre = items.drop_last();
        let n = items.len() - 1;
        lemma_one_string(pre);
        lemma_no_strings(pre);
        assert forall|j: int| 0 <= j < pre.len() implies #[trigger] pre[j] == items[j] by {};
        if as_str_spec(items[n]) is Some {
            if strings_of(items).len() == 1 {
                assert forall|j: int| 0 <= j < items.len() && j != n implies #[trigger] as_str_spec(
                    items[j],
                ) is None by {
                    assert(pre[j] == items[j]);
                };
                assert(only_string_at(items, n));
            }
            if one_string(items) {
                let i = choose|i: int| only_string_at(items, i);
                if i != n {
                    assert(as_str_spec(items[n]) is None);
                }
                assert forall|j: int| 0 <= j < pre.len() implies #[trigger] as_str_spec(pre[j])
                    is None by {
                    assert(pre[j] == items[j]);
                };
            }
        } else {
            if one_string(pre) {
                let i = choose|i: int| only_string_at(pre, i);
                assert(pre[i] == items[i]);
                assert forall|j: int| 0 <= j < items.len() && j != i implies #[trigger] as_str_spec(
                    items[j],
                ) is None by {
                    if j < n {
                        assert(pre[j] == items[j]);
                    }
                };
                assert(only_string_at(items, i));
            }
            if one_string(items) {
                let i = choose|i: int| only_string_at(items, i);
                assert(pre[i] == items[i]);
                assert forall|j: int| 0 <= j < pre.len() && j != i implies #[trigger] as_str_spec(
                    pre[j],
                ) is None by {
                    assert(pre[j] == items[j]);
                };
                assert(only_string_at(pre, i));
            }
        }
    }
}

/// The strings of a sequence with a single string are that string.
proof fn lemma_only_string(items: Seq<YamlView>, i: int)
    requires
        only_string_at(items, i),
    ensures
        strings_of(items) == seq![as_str_spec(items[i])->0],
    decreases items.len(),
{
    let pre = items.drop_last();
    let n = items.len() - 1;
    assert forall|j: int| 0 <= j < pre.len() implies #[trigger] pre[j] == items[j] by {};
    if i == n {
        assert forall|j: int| 0 <= j < pre.len() implies #[trigger] as_str_spec(pre[j]) is None by {
            assert(pre[j] == items[j]);
        };
        lemma_no_strings(pre);
        assert(strings_of(pre) =~= Seq::<Seq<char>>::empty());
        assert(strings_of(items) =~= seq![as_str_spec(items[i])->0]);
    } else {
        assert(as_str_spec(items[n]) is None);
        assert(pre[i] == items[i]);
        assert forall|j: int| 0 <= j < pre.len() && j != i implies #[trigger] as_str_spec(pre[j])
            is None by {
            assert(pre[j] == items[j]);
        };
        lemma_only_string(pre, i);
    }
}

/// Law: a match item is shown as editable exactly when its replacement is
/// a plain `replace` string and its trigger is a single plain trigger: a
/// `trigger` string, or else a `triggers` list with exactly one string.
/// An item with several triggers, a `regex`, or a replacement taken from
/// `markdown`, `html`, `form` or `image_path` (or none) is not editable.
pub proof fn lemma_editable_items(m: Seq<(YamlView, YamlView)>)
    requires
        snippet_view_spec(m) is Some,
    ensures
        snippet_view_spec(m)->Some_0.editable <==> {
            &&& field_spec(m, REPLACE_KEY@) is Some
            &&& (field_spec(m, TRIGGER_KEY@) is Some || (map_get(m, TRIGGERS_KEY@) matches Some(v)
                && as_sequence_spec(v) matches Some(items) && one_string(items)))
        },
        snippet_view_spec(m)->Some_0.editable ==> {
            let shown = snippet_view_spec(m)->Some_0;
            &&& field_spec(m, REPLACE_KEY@) == Some(shown.replacement)
            &&& field_spec(m, TRIGGER_KEY@) is Some ==> field_spec(m, TRIGGER_KEY@) == Some(
                shown.trigger,
            )
            &&& field_spec(m, TRIGGER_KEY@) is None ==> (map_get(m, TRIGGERS_KEY@) matches Some(v)
                && as_sequence_spec(v) matches Some(items) && exists|i: int|
                only_string_at(items, i) && as_str_spec(items[i]) == Some(shown.trigger))
        },
{
    if field_spec(m, TRIGGER_KEY@) is None {
        if let Some(v) = map_get(m, TRIGGERS_KEY@) {
            if let Some(items) = as_sequence_spec(v) {
                lemma_one_string(items);
                if one_string(items) {
                    let i = choose|i: int| only_string_at(items, i);
                    lemma_only_string(items, i);
                    assert(join_spec(strings_of(items), TRIGGER_SEPARATOR@) == as_str_spec(
                        items[i],
                    )->0);
                }
            }
        }
    }
}

/// The string stored under `key`, when there is one.
pub fn string_field(item: &YamlMapping, key: &str) -> (res: Option<String>)
    ensures
        match res {
            Some(s) => field_spec(item@, key@) == Some(s@),
            None => field_spec(item@, key@) is None,
        },
{
    match item.get(key) {
        Some(v) => match v.as_str() {
            Some(s) => Some(s.clone()),
            None => None,
        },
        None => None,
    }
}

/// The strings of a sequence of values, in order.
fn strings_in(items: &Vec<YamlValue>) -> (res: Vec<String>)
    ensures
        res@.map_values(|s: String| s@) == strings_of(values_view(items@)),
{
    proof {
        lemma_values_view(items@);
    }
    let ghost views = values_view(items@);
    let mut res: Vec<String> = Vec::new();
    let mut i: usize = 0;
    while i < items.len()
        invariant
            i <= items.len(),
            views == values_view(items@),
            views.len() == items@.len(),
            forall|j: int| 0 <= j < items@.len() ==> #[trigger] views[j] == items@[j]@,
            res@.map_values(|s: String| s@) == strings_of(views.take(i as int)),
        decreases items.len() - i,
    {
        assert(views.take(i + 1).drop_last() =~= views.take(i as int));
        assert(views.take(i + 1).last() == items@[i as int]@);
        match items[i].as_str() {
            Some(s) => {
                res.push(s.clone());
                assert(res@.map_values(|s: String| s@) =~= strings_of(views.take(i as int)).push(
                    s@,
                ));
            },
            None => {},
        }
        i = i + 1;
    }
    assert(views.take(items.len() as int) =~= views);
    res
}

/// The trigger text of a match item and whether it is a single plain trigger.
fn trigger_of(item: &YamlMapping) -> (res: Option<(String, bool)>)
    ensures
        match res {
            Some((t, simple)) => trigger_spec(item@) == Some((t@, simple)),
            None => trigger_spec(item@) is None,
        },
{
    if let Some(trigger) = string_field(item, TRIGGER_KEY) {
        return Some((trigger, true));
    }
    let listed = match item.get(TRIGGERS_KEY) {
        Some(v) => v.as_sequence(),
        None => None,
    };
    match listed {
        Some(items) => {
            let triggers = strings_in(items);
            if triggers.len() == 0 {
                return None;
            }
            let joined = join(&triggers, TRIGGER_SEPARATOR);
            Some((joined, triggers.len() == 1))
        },
        None => match string_field(item, REGEX_KEY) {
            Some(r) => Some((concat(REGEX_PREFIX, r.as_str()), false)),
            None => None,
        },
    }
}

/// The replacement text of a match item and whether it is a plain replacement.
fn replacement_of(item: &YamlMapping) -> (res: (String, bool))
    ensures
        (res.0@, res.1) == replacement_spec(item@),
{
    if let Some(r) = string_field(item, REPLACE_KEY) {
        (r, true)
    } else if let Some(r) = string_field(item, MARKDOWN_KEY) {
        (r, false)
    } else if let Some(r) = string_field(item, HTML_KEY) {
        (r, false)
    } else if let Some(r) = string_field(item, FORM_KEY) {
        (r, false)
    } else if let Some(r) = string_field(item, IMAGE_PATH_KEY) {
        (concat(IMAGE_PREFIX, r.as_str()), false)
    } else {
        (String::new(), false)
    }
}

/// How a match item is shown in the library, or `None` when it has no
/// trigger (no `trigger`, no string in `triggers`, no `regex`).
pub fn snippet_view(item: &YamlMapping) -> (res: Option<SnippetView>)
    ensures
        match res {
            Some(v) => snippet_view_spec(item@) == Some(v@),
            None => snippet_view_spec(item@) is None,
        },
{
    let label = match string_field(item, LABEL_KEY) {
        Some(l) => l,
        None => String::new(),
    };
    match trigger_of(item) {
        Some((trigger, simple_trigger)) => {
            let (replacement, simple_replacement) = replacement_of(item);
            Some(
                SnippetView {
                    trigger,
                    replacement,
                    label,
                    editable: simple_trigger && simple_replacement,
                },
            )
        },
        None => None,
    }
}

/// A match item after the library wrote a snippet into it: a single
/// `trigger`, a plain `replace`, and the trimmed label (removed when empty).
pub open spec fn apply_fields_spec(
    m: Seq<(YamlView, YamlView)>,
    trigger: Seq<char>,
    replacement: Seq<char>,
    label: Seq<char>,
) -> Seq<(YamlView, YamlView)> {
    let m1 = map_remove(m, TRIGGERS_KEY@);
    let m2 = map_insert(m1, TRIGGER_KEY@, YamlView::Text(trigger));
    let m3 = map_insert(m2, REPLACE_KEY@, YamlView::Text(replacement));
    let l = trim_spec(label);
    if l.len() == 0 {
        map_remove(m3, LABEL_KEY@)
    } else {
        map_insert(m3, LABEL_KEY@, YamlView::Text(l))
    }
}

/// Writes a snippet into a match item.
pub fn apply_fields(item: &mut YamlMapping, trigger: &str, replacement: &str, label: &str)
    ensures
        final(item)@ == apply_fields_spec(old(item)@, trigger@, replacement@, label@),
{
    item.remove(TRIGGERS_KEY);
    item.insert(TRIGGER_KEY, YamlValue::Text(trigger.to_owned()));
    item.insert(REPLACE_KEY, YamlValue::Text(replacement.to_owned()));
    let label = trim(label);
    if label.as_str().is_empty() {
        item.remove(LABEL_KEY);
    } else {
        item.insert(LABEL_KEY, YamlValue::Text(label));
    }
}

/// Law: a snippet written into a match item reads back as written: the
/// trigger and replacement unchanged, the label trimmed, and the item
/// editable.
pub proof fn lemma_written_snippet_reads_back(
    m: Seq<(YamlView, YamlView)>,
    trigger: Seq<char>,
    replacement: Seq<char>,
    label: Seq<char>,
)
    requires
        string_keys_unique(m),
    ensures
        snippet_view_spec(apply_fields_spec(m, trigger, replacement, label)) == Some(
            SnippetModel { trigger, replacement, label: trim_spec(label), editable: true },
        ),
{
    reveal_strlit("trigger");
    reveal_strlit("replace");
    reveal_strlit("label");
    reveal_strlit("triggers");
    assert(REPLACE_KEY@[0] != TRIGGER_KEY@[0]);
    assert(LABEL_KEY@[0] != TRIGGER_KEY@[0]);
    assert(LABEL_KEY@[0] != REPLACE_KEY@[0]);
    let m1 = map_remove(m, TRIGGERS_KEY@);
    lemma_unique_after_remove(m, TRIGGERS_KEY@);
    let m2 = map_insert(m1, TRIGGER_KEY@, YamlView::Text(trigger));
    lemma_unique_after_insert(m1, TRIGGER_KEY@, YamlView::Text(trigger));
    lemma_get_insert_same(m1, TRIGGER_KEY@, YamlView::Text(trigger));
    let m3 = map_insert(m2, REPLACE_KEY@, YamlView::Text(replacement));
    lemma_unique_after_insert(m2, REPLACE_KEY@, YamlView::Text(replacement));
    lemma_get_insert_same(m2, REPLACE_KEY@, YamlView::Text(replacement));
    lemma_get_insert_other(m2, REPLACE_KEY@, YamlView::Text(replacement), TRIGGER_KEY@);
    let l = trim_spec(label);
    let m4 = apply_fields_spec(m, trigger, replacement, label);
    if l.len() == 0 {
        lemma_get_remove_same(m3, LABEL_KEY@);
        lemma_get_remove_other(m3, LABEL_KEY@, TRIGGER_KEY@);
        lemma_get_remove_other(m3, LABEL_KEY@, REPLACE_KEY@);
        assert(l =~= seq![]);
    } else {
        lemma_get_insert_same(m3, LABEL_KEY@, YamlView::Text(l));
        lemma_get_insert_other(m3, LABEL_KEY@, YamlView::Text(l), TRIGGER_KEY@);
        lemma_get_insert_other(m3, LABEL_KEY@, YamlView::Text(l), REPLACE_KEY@);
    }
    assert(field_spec(m4, TRIGGER_KEY@) == Some(trigger));
    assert(field_spec(m4, REPLACE_KEY@) == Some(replacement));
}

/// Writing a snippet into a mapping keeps its string keys unique.
pub proof fn lemma_apply_fields_unique(
    m: Seq<(YamlView, YamlView)>,
    trigger: Seq<char>,
    replacement: Seq<char>,
    label: Seq<char>,
)
    requires
        string_keys_unique(m),
    ensures
        string_keys_unique(apply_fields_spec(m, trigger, replacement, label)),
{
    let m1 = map_remove(m, TRIGGERS_KEY@);
    lemma_unique_after_remove(m, TRIGGERS_KEY@);
    let m2 = map_insert(m1, TRIGGER_KEY@, YamlView::Text(trigger));
    lemma_unique_after_insert(m1, TRIGGER_KEY@, YamlView::Text(trigger));
    let m3 = map_insert(m2, REPLACE_KEY@, YamlView::Text(replacement));
    lemma_unique_after_insert(m2, REPLACE_KEY@, YamlView::Text(replacement));
    let l = trim_spec(label);
    if l.len() == 0 {
        lemma_unique_after_remove(m3, LABEL_KEY@);
    } else {
        lemma_unique_after_insert(m3, LABEL_KEY@, YamlView::Text(l));
    }
}

/// A match item (a mapping, possibly under tags) after a snippet was
/// written into it.
pub open spec fn edited_item_spec(
    item: YamlView,
    trigger: Seq<char>,
    replacement: Seq<char>,
    label: Seq<char>,
) -> YamlView {
    with_entries(item, apply_fields_spec(as_mapping_spec(item)->0, trigger, replacement, label))
}

/// Writes a snippet into a match item that is a mapping (under any tags);
/// any other item is given back unchanged as `Err`.
pub fn apply_to_item(item: YamlValue, trigger: &str, replacement: &str, label: &str) -> (res:
    Result<YamlValue, YamlValue>)
    ensures
        match res {
            Ok(v) => as_mapping_spec(item@) is Some && v@ == edited_item_spec(
                item@,
                trigger@,
                replacement@,
                label@,
            ),
            Err(v) => as_mapping_spec(item@) is None && v@ == item@,
        },
    decreases item,
{
    match item {
        YamlValue::Tagged(t, inner) => match apply_to_item(*inner, trigger, replacement, label) {
            Ok(v) => Ok(YamlValue::Tagged(t, Box::new(v))),
            Err(v) => Err(YamlValue::Tagged(t, Box::new(v))),
        },
        YamlValue::Mapping(m) => {
            let mut m = m;
            apply_fields(&mut m, trigger, replacement, label);
            Ok(YamlValue::Mapping(m))
        },
        other => Err(other),
    }
}

/// Writes a snippet into item `index` of the sequence under the tags of `v`.
/// When there is no such item, or it is not a mapping, `v` is given back
/// unchanged as `Err`.
pub fn edit_item_at(v: YamlValue, index: usize, trigger: &str, replacement: &str, label: &str) -> (res:
    Result<YamlValue, YamlValue>)
    requires
        as_sequence_spec(v@) is Some,
    ensures
        ({
            let items = as_sequence_spec(v@)->0;
            match res {
                Ok(nv) => index < items.len() && as_mapping_spec(items[index as int]) is Some
                    && nv@ == with_items(
                    v@,
                    items.update(
                        index as int,
                        edited_item_spec(items[index as int], trigger@, replacement@, label@),
                    ),
                ),
                Err(nv) => !(index < items.len() && as_mapping_spec(items[index as int]) is Some)
                    && nv@ == v@,
            }
        }),
    decreases v,
{
    match v {
        YamlValue::Tagged(t, inner) => match edit_item_at(
            *inner,
            index,
            trigger,
            replacement,
            label,
        ) {
            Ok(nv) => Ok(YamlValue::Tagged(t, Box::new(nv))),
            Err(nv) => Err(YamlValue::Tagged(t, Box::new(nv))),
        },
        YamlValue::Sequence(items) => {
            let mut items = items;
            proof {
                lemma_values_view(items@);
            }
            let ghost before = items@;
            if index >= items.len() {
                return Err(YamlValue::Sequence(items));
            }
            let item = items.remove(index);
            match apply_to_item(item, trigger, replacement, label) {
                Ok(edited) => {
                    items.insert(index, edited);
                    proof {
                        lemma_values_view(items@);
                        assert(values_view(items@) =~= values_view(before).update(
                            index as int,
                            edited_item_spec(
                                values_view(before)[index as int],
                                trigger@,
                                replacement@,
                                label@,
                            ),
                        ));
                    }
                    Ok(YamlValue::Sequence(items))
                },
                Err(unchanged) => {
                    items.insert(index, unchanged);
                    proof {
                        lemma_values_view(items@);
                        assert(values_view(items@) =~= values_view(before));
                    }
                    Err(YamlValue::Sequence(items))
                },
            }
        },
        other => {
            assert(false);
            Err(other)
        },
    }
}

} // verus!
