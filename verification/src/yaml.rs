//! An in-memory YAML document as the snippet library reads and edits it.
//!
//! Mappings keep their entries in order, as the YAML text has them; a lookup
//! by a string key only matches keys that are plain (untagged) strings, and
//! removing a key moves the last entry into its place.

use vstd::prelude::*;
use serde_norway::value::{Tag, TaggedValue};
use serde_norway::{Mapping, Number, Value};

verus! {

#[verifier::external_type_specification]
#[verifier::external_body]
pub struct ExNumber(serde_norway::Number);

#[verifier::external_type_specification]
#[verifier::external_body]
pub struct ExTag(serde_norway::value::Tag);

#[verifier::external_type_specification]
#[verifier::external_body]
pub struct ExValue(serde_norway::Value);

/// A YAML value. Numbers and tags are carried through unchanged.
pub enum YamlValue {
    Null,
    Bool(bool),
    Number(Number),
    Text(String),
    Sequence(Vec<YamlValue>),
    Mapping(YamlMapping),
    Tagged(Tag, Box<YamlValue>),
}

/// A YAML mapping: its key/value entries in document order.
pub struct YamlMapping {
    pub entries: Vec<(YamlValue, YamlValue)>,
}

/// The mathematical model of a YAML value.
pub enum YamlView {
    Null,
    Bool(bool),
    Number(Number),
    Text(Seq<char>),
    List(Seq<YamlView>),
    Dict(Seq<(YamlView, YamlView)>),
    Tagged(Tag, Box<YamlView>),
}

/// The model of a value.
pub open spec fn value_view(v: YamlValue) -> YamlView
    decreases v,
{
    match v {
        YamlValue::Null => YamlView::Null,
        YamlValue::Bool(b) => YamlView::Bool(b),
        YamlValue::Number(n) => YamlView::Number(n),
        YamlValue::Text(s) => YamlView::Text(s@),
        YamlValue::Sequence(items) => YamlView::List(values_view(items@)),
        YamlValue::Mapping(m) => YamlView::Dict(entries_view(m.entries@)),
        YamlValue::Tagged(t, inner) => YamlView::Tagged(t, Box::new(value_view(*inner))),
    }
}

/// The models of a sequence of values.
pub open spec fn values_view(s: Seq<YamlValue>) -> Seq<YamlView>
    decreases s,
{
    if s.len() == 0 {
        seq![]
    } else {
        values_view(s.subrange(0, s.len() - 1)).push(value_view(s[s.len() - 1]))
    }
}

/// The models of a sequence of mapping entries.
pub open spec fn entries_view(s: Seq<(YamlValue, YamlValue)>) -> Seq<(YamlView, YamlView)>
    decreases s,
{
    if s.len() == 0 {
        seq![]
    } else {
        entries_view(s.subrange(0, s.len() - 1)).push(
            (value_view(s[s.len() - 1].0), value_view(s[s.len() - 1].1)),
        )
    }
}

impl View for YamlValue {
    type V = YamlView;

    open spec fn view(&self) -> YamlView {
        value_view(*self)
    }
}

impl View for YamlMapping {
    type V = Seq<(YamlView, YamlView)>;

    open spec fn view(&self) -> Seq<(YamlView, YamlView)> {
        entries_view(self.entries@)
    }
}

/// What `serde_norway` makes of a YAML text: the document it parses, or
/// the text of its error when the text is not valid YAML.
pub uninterp spec fn parsed_document(content: Seq<char>) -> Result<YamlView, Seq<char>>;

/// The library's value for a parsed `serde_norway::Value`: variant for
/// variant, mapping entries in the order the parser kept them.
#[verifier::external_body]
fn yaml_from_value(value: Value) -> YamlValue {
    match value {
        Value::Null => YamlValue::Null,
        Value::Bool(b) => YamlValue::Bool(b),
        Value::Number(n) => YamlValue::Number(n),
        Value::String(s) => YamlValue::Text(s),
        Value::Sequence(items) => YamlValue::Sequence(items.into_iter().map(yaml_from_value).collect()),
        Value::Mapping(m) => YamlValue::Mapping(YamlMapping {
            entries: m.into_iter().map(|(k, v)| (yaml_from_value(k), yaml_from_value(v))).collect(),
        }),
        Value::Tagged(t) => YamlValue::Tagged(t.tag, Box::new(yaml_from_value(t.value))),
    }
}

/// Parses a YAML text with `serde_norway::from_str::<serde_norway::Value>`.
/// Claimed of it: the result depends on the text alone (it is named
/// `parsed_document`), a refusal gives the error's text, and every mapping
/// of a parsed document has distinct keys (the parser refuses a duplicate
/// key, and `serde_norway::Mapping` holds each key once).
#[verifier::external_body]
pub(crate) fn parse_document(content: &str) -> (res: Result<YamlValue, String>)
    ensures
        match res {
            Ok(v) => parsed_document(content@) == Ok::<YamlView, Seq<char>>(v@),
            Err(e) => parsed_document(content@) == Err::<YamlView, Seq<char>>(e@),
        },
        res matches Ok(v) ==> keys_unique_deep(v@),
{
    match serde_norway::from_str::<Value>(content) {
        Ok(value) => Ok(yaml_from_value(value)),
        Err(error) => Err(error.to_string()),
    }
}

/// What `serde_norway` writes for a document: its YAML text, or nothing
/// when the serializer refuses it.
pub uninterp spec fn serialized_document(document: Seq<(YamlView, YamlView)>) -> Option<Seq<char>>;

/// The `serde_norway::Value` of a library value: variant for variant,
/// mapping entries in order.
#[verifier::external_body]
fn value_from_yaml(value: &YamlValue) -> Value {
    match value {
        YamlValue::Null => Value::Null,
        YamlValue::Bool(b) => Value::Bool(*b),
        YamlValue::Number(n) => Value::Number(n.clone()),
        YamlValue::Text(s) => Value::String(s.clone()),
        YamlValue::Sequence(items) => Value::Sequence(items.iter().map(value_from_yaml).collect()),
        YamlValue::Mapping(m) => Value::Mapping(
            m.entries.iter().map(|(k, v)| (value_from_yaml(k), value_from_yaml(v))).collect(),
        ),
        YamlValue::Tagged(t, v) => Value::Tagged(
            Box::new(TaggedValue { tag: t.clone(), value: value_from_yaml(v) }),
        ),
    }
}

/// Writes a document as YAML text with `serde_norway::to_string`.
/// Claimed of it: the text depends on the document alone (it is named
/// `serialized_document`), and a refusal gives `None`.
#[verifier::external_body]
pub(crate) fn serialize_document(document: &YamlMapping) -> (res: Option<String>)
    ensures
        match res {
            Some(text) => serialized_document(document@) == Some(text@),
            None => serialized_document(document@) is None,
        },
{
    let mapping: Mapping =
        document.entries.iter().map(|(k, v)| (value_from_yaml(k), value_from_yaml(v))).collect();
    serde_norway::to_string(&mapping).ok()
}

/// `values_view` is the element-wise model.
pub proof fn lemma_values_view(s: Seq<YamlValue>)
    ensures
        values_view(s).len() == s.len(),
        forall|i: int| 0 <= i < s.len() ==> #[trigger] values_view(s)[i] == value_view(s[i]),
    decreases s.len(),
{
    if s.len() > 0 {
        lemma_values_view(s.subrange(0, s.len() - 1));
    }
}

/// `entries_view` is the element-wise model.
pub proof fn lemma_entries_view(s: Seq<(YamlValue, YamlValue)>)
    ensures
        entries_view(s).len() == s.len(),
        forall|i: int|
            0 <= i < s.len() ==> #[trigger] entries_view(s)[i] == (
                value_view(s[i].0),
                value_view(s[i].1),
            ),
    decreases s.len(),
{
    if s.len() > 0 {
        lemma_entries_view(s.subrange(0, s.len() - 1));
    }
}

/// The value under any number of tags.
pub open spec fn untag(v: YamlView) -> YamlView
    decreases v,
{
    match v {
        YamlView::Tagged(_, inner) => untag(*inner),
        _ => v,
    }
}

/// The text of a (possibly tagged) string value.
pub open spec fn as_str_spec(v: YamlView) -> Option<Seq<char>> {
    match untag(v) {
        YamlView::Text(s) => Some(s),
        _ => None,
    }
}

/// The items of a (possibly tagged) sequence value.
pub open spec fn as_sequence_spec(v: YamlView) -> Option<Seq<YamlView>> {
    match untag(v) {
        YamlView::List(items) => Some(items),
        _ => None,
    }
}

/// The entries of a (possibly tagged) mapping value.
pub open spec fn as_mapping_spec(v: YamlView) -> Option<Seq<(YamlView, YamlView)>> {
    match untag(v) {
        YamlView::Dict(entries) => Some(entries),
        _ => None,
    }
}

/// Whether entry `i` is the first whose key is the plain string `key`.
pub open spec fn is_first_key(m: Seq<(YamlView, YamlView)>, key: Seq<char>, i: int) -> bool {
    &&& 0 <= i < m.len()
    &&& m[i].0 == YamlView::Text(key)
    &&& forall|j: int| 0 <= j < i ==> m[j].0 != YamlView::Text(key)
}

/// Whether some entry has the plain string `key` as its key.
pub open spec fn has_key(m: Seq<(YamlView, YamlView)>, key: Seq<char>) -> bool {
    exists|i: int| 0 <= i < m.len() && m[i].0 == YamlView::Text(key)
}

/// The position of the entry with key `key`.
pub open spec fn key_index(m: Seq<(YamlView, YamlView)>, key: Seq<char>) -> int {
    choose|i: int| is_first_key(m, key, i)
}

/// `Mapping::get` with a string key.
pub open spec fn map_get(m: Seq<(YamlView, YamlView)>, key: Seq<char>) -> Option<YamlView> {
    if has_key(m, key) {
        Some(m[key_index(m, key)].1)
    } else {
        None
    }
}

/// `Mapping::insert` with a string key: the value of an existing entry is
/// replaced in place, otherwise a new entry goes at the end.
pub open spec fn map_insert(m: Seq<(YamlView, YamlView)>, key: Seq<char>, v: YamlView) -> Seq<
    (YamlView, YamlView),
> {
    if has_key(m, key) {
        m.update(key_index(m, key), (YamlView::Text(key), v))
    } else {
        m.push((YamlView::Text(key), v))
    }
}

/// `Mapping::remove` with a string key: the last entry takes the place of
/// the removed one.
pub open spec fn map_remove(m: Seq<(YamlView, YamlView)>, key: Seq<char>) -> Seq<
    (YamlView, YamlView),
> {
    if has_key(m, key) {
        m.update(key_index(m, key), m.last()).drop_last()
    } else {
        m
    }
}

/// The first matching entry is the chosen one.
pub proof fn lemma_first_key_unique(m: Seq<(YamlView, YamlView)>, key: Seq<char>, i: int)
    requires
        is_first_key(m, key, i),
    ensures
        has_key(m, key),
        key_index(m, key) == i,
{
    let k = key_index(m, key);
    assert(is_first_key(m, key, k));
    if k < i {
        assert(m[k].0 != YamlView::Text(key));
    }
    if i < k {
        assert(m[i].0 != YamlView::Text(key));
    }
}

/// No two entries have the same plain string key (as in any parsed mapping).
pub open spec fn string_keys_unique(m: Seq<(YamlView, YamlView)>) -> bool {
    forall|i: int, j: int|
        #![trigger m[i].0, m[j].0]
        0 <= i < m.len() && 0 <= j < m.len() && i != j && m[i].0 is Text ==> m[i].0 != m[j].0
}

/// Every mapping in a value, at any depth and behind tags, has distinct
/// plain string keys (as every mapping that the YAML parser gives).
pub open spec fn keys_unique_deep(v: YamlView) -> bool
    decreases v,
{
    match v {
        YamlView::List(items) => forall|i: int|
            0 <= i < items.len() ==> keys_unique_deep(#[trigger] items[i]),
        YamlView::Dict(entries) => {
            &&& string_keys_unique(entries)
            &&& forall|i: int|
                0 <= i < entries.len() ==> keys_unique_deep(#[trigger] entries[i].0)
                    && keys_unique_deep(entries[i].1)
        },
        YamlView::Tagged(_, inner) => keys_unique_deep(*inner),
        _ => true,
    }
}

/// Looking through tags keeps the keys of every mapping distinct.
pub proof fn lemma_untag_keys_unique(v: YamlView)
    requires
        keys_unique_deep(v),
    ensures
        keys_unique_deep(untag(v)),
    decreases v,
{
    if let YamlView::Tagged(_, inner) = v {
        lemma_untag_keys_unique(*inner);
    }
}

/// Reading a key back after writing it gives the written value.
pub proof fn lemma_get_insert_same(m: Seq<(YamlView, YamlView)>, key: Seq<char>, v: YamlView)
    ensures
        map_get(map_insert(m, key, v), key) == Some(v),
{
    let m2 = map_insert(m, key, v);
    if has_key(m, key) {
        let i = key_index(m, key);
        let w = choose|w: int| 0 <= w < m.len() && m[w].0 == YamlView::Text(key);
        lemma_first_key_exists(m, key, w);
        assert(is_first_key(m2, key, i));
        lemma_first_key_unique(m2, key, i);
    } else {
        let i = m.len() as int;
        assert(is_first_key(m2, key, i));
        lemma_first_key_unique(m2, key, i);
    }
}

/// When a key is present, a first entry with that key exists.
pub proof fn lemma_first_key_exists(m: Seq<(YamlView, YamlView)>, key: Seq<char>, w: int)
    requires
        0 <= w < m.len(),
        m[w].0 == YamlView::Text(key),
    ensures
        is_first_key(m, key, key_index(m, key)),
    decreases w,
{
    if forall|j: int| 0 <= j < w ==> m[j].0 != YamlView::Text(key) {
        assert(is_first_key(m, key, w));
    } else {
        let j = choose|j: int| 0 <= j < w && m[j].0 == YamlView::Text(key);
        lemma_first_key_exists(m, key, j);
    }
}

/// The first entry with a key present in the mapping.
proof fn lemma_key_index(m: Seq<(YamlView, YamlView)>, key: Seq<char>)
    requires
        has_key(m, key),
    ensures
        is_first_key(m, key, key_index(m, key)),
{
    let w = choose|w: int| 0 <= w < m.len() && m[w].0 == YamlView::Text(key);
    lemma_first_key_exists(m, key, w);
}

/// Writing one key leaves the value of any other key as it was.
pub proof fn lemma_get_insert_other(
    m: Seq<(YamlView, YamlView)>,
    key: Seq<char>,
    v: YamlView,
    other: Seq<char>,
)
    requires
        key != other,
    ensures
        map_get(map_insert(m, key, v), other) == map_get(m, other),
{
    let m2 = map_insert(m, key, v);
    if has_key(m, key) {
        lemma_key_index(m, key);
    }
    assert(forall|j: int| 0 <= j < m.len() ==> (m2[j].0 == YamlView::Text(other) <==> m[j].0
        == YamlView::Text(other)));
    if has_key(m, other) {
        lemma_key_index(m, other);
        let i = key_index(m, other);
        assert(is_first_key(m2, other, i));
        lemma_first_key_unique(m2, other, i);
    } else {
        assert(!has_key(m2, other));
    }
}

/// Removing a key of a mapping with unique keys makes it absent.
pub proof fn lemma_get_remove_same(m: Seq<(YamlView, YamlView)>, key: Seq<char>)
    requires
        string_keys_unique(m),
    ensures
        map_get(map_remove(m, key), key) is None,
{
    let m2 = map_remove(m, key);
    if has_key(m, key) {
        lemma_key_index(m, key);
        let i = key_index(m, key);
        let last = m.len() - 1;
        assert forall|j: int| 0 <= j < m2.len() implies m2[j].0 != YamlView::Text(key) by {
            if j == i {
                assert(m2[j] == m[last]);
                assert(m[i].0 != m[last].0 || i == last);
            } else {
                assert(m2[j] == m[j]);
                assert(m[i].0 != m[j].0);
            }
        };
    }
}

/// Removing one key of a mapping with unique keys leaves the value of any
/// other key as it was.
pub proof fn lemma_get_remove_other(m: Seq<(YamlView, YamlView)>, key: Seq<char>, other: Seq<char>)
    requires
        string_keys_unique(m),
        key != other,
    ensures
        map_get(map_remove(m, key), other) == map_get(m, other),
{
    let m2 = map_remove(m, key);
    if has_key(m, key) {
        lemma_key_index(m, key);
        let i = key_index(m, key);
        let last = m.len() - 1;
        if has_key(m, other) {
            lemma_key_index(m, other);
            let o = key_index(m, other);
            let o2 = if o == last { i } else { o };
            assert(m2[o2] == m[o]);
            assert forall|j: int| 0 <= j < m2.len() && j != o2 implies m2[j].0 != YamlView::Text(
                other,
            ) by {
                if j == i {
                    assert(m2[j] == m[last]);
                    assert(m[o].0 != m[last].0 || o == last);
                } else {
                    assert(m2[j] == m[j]);
                    assert(m[o].0 != m[j].0);
                }
            };
            assert(is_first_key(m2, other, o2));
            lemma_first_key_unique(m2, other, o2);
        } else {
            assert forall|j: int| 0 <= j < m2.len() implies m2[j].0 != YamlView::Text(other) by {
                if j == i {
                    assert(m2[j] == m[last]);
                } else {
                    assert(m2[j] == m[j]);
                }
            };
        }
    }
}

/// Writing and removing string keys keeps string keys unique.
pub proof fn lemma_unique_after_insert(m: Seq<(YamlView, YamlView)>, key: Seq<char>, v: YamlView)
    requires
        string_keys_unique(m),
    ensures
        string_keys_unique(map_insert(m, key, v)),
{
    let m2 = map_insert(m, key, v);
    if has_key(m, key) {
        lemma_key_index(m, key);
        assert(forall|j: int| 0 <= j < m.len() ==> #[trigger] m2[j].0 == m[j].0);
    } else {
        assert forall|i: int, j: int|
            #![trigger m2[i].0, m2[j].0]
            0 <= i < m2.len() && 0 <= j < m2.len() && i != j && m2[i].0 is Text implies m2[i].0
            != m2[j].0 by {
            if i < m.len() && j < m.len() {
                assert(m2[i] == m[i] && m2[j] == m[j]);
            } else if i < m.len() {
                assert(m2[i] == m[i]);
            } else {
                assert(m2[j] == m[j]);
            }
        };
    }
}

/// Removing a key keeps string keys unique.
pub proof fn lemma_unique_after_remove(m: Seq<(YamlView, YamlView)>, key: Seq<char>)
    requires
        string_keys_unique(m),
    ensures
        string_keys_unique(map_remove(m, key)),
{
    let m2 = map_remove(m, key);
    if has_key(m, key) {
        lemma_key_index(m, key);
        let i = key_index(m, key);
        let last = m.len() - 1;
        assert forall|a: int, b: int|
            #![trigger m2[a].0, m2[b].0]
            0 <= a < m2.len() && 0 <= b < m2.len() && a != b && m2[a].0 is Text implies m2[a].0
            != m2[b].0 by {
            let sa = if a == i { last } else { a };
            let sb = if b == i { last } else { b };
            assert(m2[a] == m[sa]);
            assert(m2[b] == m[sb]);
        };
    }
}

impl YamlValue {
    /// `Value::as_str`: the text of a string, looking through tags.
    pub fn as_str(&self) -> (res: Option<&String>)
        ensures
            match res {
                Some(s) => as_str_spec(self@) == Some(s@),
                None => as_str_spec(self@) is None,
            },
        decreases self,
    {
        match self {
            YamlValue::Text(s) => Some(s),
            YamlValue::Tagged(_, inner) => inner.as_str(),
            _ => None,
        }
    }

    /// `Value::as_sequence`: the items of a sequence, looking through tags.
    pub fn as_sequence(&self) -> (res: Option<&Vec<YamlValue>>)
        ensures
            match res {
                Some(items) => as_sequence_spec(self@) == Some(values_view(items@)),
                None => as_sequence_spec(self@) is None,
            },
        decreases self,
    {
        match self {
            YamlValue::Sequence(items) => Some(items),
            YamlValue::Tagged(_, inner) => inner.as_sequence(),
            _ => None,
        }
    }

    /// `Value::as_mapping`: a mapping, looking through tags.
    pub fn as_mapping(&self) -> (res: Option<&YamlMapping>)
        ensures
            match res {
                Some(m) => as_mapping_spec(self@) == Some(m@),
                None => as_mapping_spec(self@) is None,
            },
        decreases self,
    {
        match self {
            YamlValue::Mapping(m) => Some(m),
            YamlValue::Tagged(_, inner) => inner.as_mapping(),
            _ => None,
        }
    }

    /// `Value::is_sequence`.
    pub fn is_sequence(&self) -> (res: bool)
        ensures
            res == (as_sequence_spec(self@) is Some),
    {
        self.as_sequence().is_some()
    }
}

impl YamlMapping {
    /// An empty mapping.
    pub fn new() -> (res: YamlMapping)
        ensures
            res@ == Seq::<(YamlView, YamlView)>::empty(),
    {
        YamlMapping { entries: Vec::new() }
    }

    /// Position of the first entry whose key is the plain string `key`.
    pub fn find(&self, key: &str) -> (res: Option<usize>)
        ensures
            match res {
                Some(i) => is_first_key(self@, key@, i as int),
                None => !has_key(self@, key@),
            },
    {
        proof {
            lemma_entries_view(self.entries@);
        }
        let mut i: usize = 0;
        while i < self.entries.len()
            invariant
                i <= self.entries.len(),
                self@.len() == self.entries@.len(),
                forall|j: int| 0 <= j < i ==> self@[j].0 != YamlView::Text(key@),
                forall|j: int|
                    0 <= j < self.entries@.len() ==> #[trigger] self@[j] == (
                        value_view(self.entries@[j].0),
                        value_view(self.entries@[j].1),
                    ),
            decreases self.entries.len() - i,
        {
            match &self.entries[i].0 {
                YamlValue::Text(s) => {
                    if crate::text::same_text(s.as_str(), key) {
                        assert(self@[i as int].0 == YamlView::Text(key@));
                        return Some(i);
                    }
                },
                _ => {},
            }
            assert(self@[i as int].0 != YamlView::Text(key@));
            i = i + 1;
        }
        None
    }

    /// `Mapping::get` with a string key.
    pub fn get(&self, key: &str) -> (res: Option<&YamlValue>)
        ensures
            match res {
                Some(v) => map_get(self@, key@) == Some(v@),
                None => map_get(self@, key@) is None,
            },
    {
        match self.find(key) {
            Some(i) => {
                proof {
                    lemma_first_key_unique(self@, key@, i as int);
                    lemma_entries_view(self.entries@);
                }
                Some(&self.entries[i].1)
            },
            None => None,
        }
    }

    /// `Mapping::insert` with a string key.
    pub fn insert(&mut self, key: &str, value: YamlValue)
        ensures
            final(self)@ == map_insert(old(self)@, key@, value@),
    {
        proof {
            lemma_entries_view(self.entries@);
        }
        let ghost old_view = self@;
        let k = YamlValue::Text(key.to_owned());
        assert(k@ == YamlView::Text(key@));
        match self.find(key) {
            Some(i) => {
                proof {
                    lemma_first_key_unique(old_view, key@, i as int);
                }
                self.entries.set(i, (k, value));
            },
            None => {
                self.entries.push((k, value));
            },
        }
        proof {
            lemma_entries_view(self.entries@);
        }
        assert(self@ =~= map_insert(old_view, key@, value@));
    }

    /// `Mapping::remove` with a string key.
    pub fn remove(&mut self, key: &str)
        ensures
            final(self)@ == map_remove(old(self)@, key@),
    {
        proof {
            lemma_entries_view(self.entries@);
        }
        let ghost old_view = self@;
        match self.find(key) {
            Some(i) => {
                proof {
                    lemma_first_key_unique(old_view, key@, i as int);
                }
                let _ = self.entries.swap_remove(i);
                proof {
                    lemma_entries_view(self.entries@);
                }
                assert(self@ =~= map_remove(old_view, key@));
            },
            None => {},
        }
    }
}

/// `v` with the items of the sequence under its tags replaced by `items`.
pub open spec fn with_items(v: YamlView, items: Seq<YamlView>) -> YamlView
    decreases v,
{
    match v {
        YamlView::Tagged(t, inner) => YamlView::Tagged(t, Box::new(with_items(*inner, items))),
        YamlView::List(_) => YamlView::List(items),
        _ => v,
    }
}

/// `v` with the entries of the mapping under its tags replaced by `entries`.
pub open spec fn with_entries(v: YamlView, entries: Seq<(YamlView, YamlView)>) -> YamlView
    decreases v,
{
    match v {
        YamlView::Tagged(t, inner) => YamlView::Tagged(
            t,
            Box::new(with_entries(*inner, entries)),
        ),
        YamlView::Dict(_) => YamlView::Dict(entries),
        _ => v,
    }
}

/// Replacing the items of a sequence value makes those its items.
pub proof fn lemma_with_items(v: YamlView, items: Seq<YamlView>)
    requires
        as_sequence_spec(v) is Some,
    ensures
        as_sequence_spec(with_items(v, items)) == Some(items),
    decreases v,
{
    match v {
        YamlView::Tagged(_, inner) => lemma_with_items(*inner, items),
        _ => {},
    }
}

/// Replacing the entries of a mapping value makes those its entries.
pub proof fn lemma_with_entries(v: YamlView, entries: Seq<(YamlView, YamlView)>)
    requires
        as_mapping_spec(v) is Some,
    ensures
        as_mapping_spec(with_entries(v, entries)) == Some(entries),
    decreases v,
{
    match v {
        YamlView::Tagged(_, inner) => lemma_with_entries(*inner, entries),
        _ => {},
    }
}

/// Appends an item to the sequence under the tags of `v`; gives the new value
/// and the position of the new item.
pub fn push_item(v: YamlValue, item: YamlValue) -> (res: (YamlValue, usize))
    requires
        as_sequence_spec(v@) is Some,
    ensures
        res.0@ == with_items(v@, as_sequence_spec(v@)->0.push(item@)),
        res.1 == as_sequence_spec(v@)->0.len(),
    decreases v,
{
    match v {
        YamlValue::Tagged(t, inner) => {
            let (nv, n) = push_item(*inner, item);
            (YamlValue::Tagged(t, Box::new(nv)), n)
        },
        YamlValue::Sequence(items) => {
            let mut items = items;
            proof {
                lemma_values_view(items@);
            }
            let ghost before = items@;
            let n = items.len();
            items.push(item);
            proof {
                lemma_values_view(items@);
                assert(values_view(items@) =~= values_view(before).push(item@));
            }
            (YamlValue::Sequence(items), n)
        },
        _ => {
            assert(false);
            (v, 0)
        },
    }
}

/// Removes item `index` of the sequence under the tags of `v`.
pub fn remove_item(v: YamlValue, index: usize) -> (res: YamlValue)
    requires
        as_sequence_spec(v@) is Some,
        index < as_sequence_spec(v@)->0.len(),
    ensures
        res@ == with_items(v@, as_sequence_spec(v@)->0.remove(index as int)),
    decreases v,
{
    match v {
        YamlValue::Tagged(t, inner) => {
            let nv = remove_item(*inner, index);
            YamlValue::Tagged(t, Box::new(nv))
        },
        YamlValue::Sequence(items) => {
            let mut items = items;
            proof {
                lemma_values_view(items@);
            }
            let ghost before = items@;
            let _ = items.remove(index);
            proof {
                lemma_values_view(items@);
                assert(values_view(items@) =~= values_view(before).remove(index as int));
            }
            YamlValue::Sequence(items)
        },
        _ => {
            assert(false);
            v
        },
    }
}

/// Takes entry `i` out of a mapping.
pub fn take_entry(m: &mut YamlMapping, i: usize) -> (res: (YamlValue, YamlValue))
    requires
        i < old(m)@.len(),
    ensures
        final(m)@ == old(m)@.remove(i as int),
        (res.0@, res.1@) == old(m)@[i as int],
{
    proof {
        lemma_entries_view(m.entries@);
    }
    let ghost before = m@;
    let e = m.entries.remove(i);
    proof {
        lemma_entries_view(m.entries@);
    }
    assert(m@ =~= before.remove(i as int));
    e
}

/// Puts an entry back into a mapping at position `i`.
pub fn put_entry(m: &mut YamlMapping, i: usize, key: YamlValue, value: YamlValue)
    requires
        i <= old(m)@.len(),
    ensures
        final(m)@ == old(m)@.insert(i as int, (key@, value@)),
{
    proof {
        lemma_entries_view(m.entries@);
    }
    let ghost before = m@;
    m.entries.insert(i, (key, value));
    proof {
        lemma_entries_view(m.entries@);
    }
    assert(m@ =~= before.insert(i as int, (key@, value@)));
}

} // verus!
