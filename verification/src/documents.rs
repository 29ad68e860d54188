//! Documents for machine-readable output, as JSON and TOML.

use vstd::prelude::*;
use vstd::string::*;

use crate::text::Text;
use crate::views;

verus! {

/// A document: texts, numbers and flags, in lists and in tables. A table holds its keys in the order
/// in which they were first set.
pub enum Tree {
    Text(Text),
    Number(int),
    Flag(bool),
    List(Seq<Tree>),
    Table(Seq<(Text, Tree)>),
}

/// Whether one of the fields has the key.
pub open spec fn has_key(fields: Seq<(Text, Tree)>, key: Text) -> bool {
    exists|i: int| 0 <= i < fields.len() && (#[trigger] fields[i]).0 == key
}

/// The fields once the key is set to the value: a key that is there keeps its place, a new one comes
/// last.
pub open spec fn put(fields: Seq<(Text, Tree)>, key: Text, value: Tree) -> Seq<(Text, Tree)> {
    if has_key(fields, key) {
        fields.map_values(
            |f: (Text, Tree)|
                if f.0 == key {
                    (key, value)
                } else {
                    f
                },
        )
    } else {
        fields.push((key, value))
    }
}

/// `serde_json::Value`, a JSON value.
#[verifier::external_type_specification]
#[verifier::external_body]
pub struct ExJsonValue(serde_json::Value);

/// `toml::Value`, a TOML value.
#[verifier::external_type_specification]
#[verifier::external_body]
pub struct ExTomlValue(toml::Value);

/// What a JSON value holds.
pub uninterp spec fn json_tree(v: serde_json::Value) -> Tree;

/// What a TOML value holds.
pub uninterp spec fn toml_tree(v: toml::Value) -> Tree;

/// What `serde_json::to_string_pretty` makes of a document: the text, or an error in words.
pub uninterp spec fn json_text(t: Tree) -> Result<Seq<char>, Seq<char>>;

/// What `toml::to_string_pretty` makes of a document: the text, or an error in words.
pub uninterp spec fn toml_text(t: Tree) -> Result<Seq<char>, Seq<char>>;

/// `serde_json::Value::String`: a value that holds the text.
#[verifier::external_body]
fn json_string(s: &str) -> (r: serde_json::Value)
    ensures
        json_tree(r) == Tree::Text(s@),
{
    serde_json::Value::String(s.to_owned())
}

/// `From<u32>` for `serde_json::Value`: a value that holds the number.
#[verifier::external_body]
fn json_number(n: u32) -> (r: serde_json::Value)
    ensures
        json_tree(r) == Tree::Number(n as int),
{
    serde_json::Value::from(n)
}

/// `serde_json::Value::Bool`: a value that holds the flag.
#[verifier::external_body]
fn json_boolean(b: bool) -> (r: serde_json::Value)
    ensures
        json_tree(r) == Tree::Flag(b),
{
    serde_json::Value::Bool(b)
}

/// `serde_json::Value::Array`: a value that holds the items in order.
#[verifier::external_body]
fn json_array(items: Vec<serde_json::Value>) -> (r: serde_json::Value)
    ensures
        json_tree(r) == Tree::List(items@.map_values(|v: serde_json::Value| json_tree(v))),
{
    serde_json::Value::Array(items)
}

/// `serde_json::Value::Object` of `serde_json::Map::new`: a value that holds an empty table.
#[verifier::external_body]
fn json_object() -> (r: serde_json::Value)
    ensures
        json_tree(r) == Tree::Table(Seq::empty()),
{
    serde_json::Value::Object(serde_json::Map::new())
}

/// `IndexMut` of `serde_json::Value` by a string: sets the key of the table to the value. Tables keep
/// the order in which their keys were first set (the feature `preserve_order`).
#[verifier::external_body]
fn json_set(object: &mut serde_json::Value, key: &str, value: serde_json::Value)
    requires
        json_tree(*old(object)) is Table,
    ensures
        json_tree(*final(object)) == Tree::Table(
            put(json_tree(*old(object))->Table_0, key@, json_tree(value)),
        ),
{
    object[key] = value;
}

/// `serde_json::to_string_pretty` of a value: the outcome depends on what the value holds alone, its
/// tables with the order of their keys. It is named [`json_text`].
#[verifier::external_body]
fn json_pretty(v: &serde_json::Value) -> (r: Result<String, String>)
    ensures
        views::result_view(r) == json_text(json_tree(*v)),
{
    serde_json::to_string_pretty(v).map_err(|e| e.to_string())
}

/// `toml::Value::String`: a value that holds the text.
#[verifier::external_body]
fn toml_string(s: &str) -> (r: toml::Value)
    ensures
        toml_tree(r) == Tree::Text(s@),
{
    toml::Value::String(s.to_owned())
}

/// `toml::Value::Integer`: a value that holds the number.
#[verifier::external_body]
fn toml_integer(n: i64) -> (r: toml::Value)
    ensures
        toml_tree(r) == Tree::Number(n as int),
{
    toml::Value::Integer(n)
}

/// `toml::Value::Boolean`: a value that holds the flag.
#[verifier::external_body]
fn toml_boolean(b: bool) -> (r: toml::Value)
    ensures
        toml_tree(r) == Tree::Flag(b),
{
    toml::Value::Boolean(b)
}

/// `toml::Value::Array`: a value that holds the items in order.
#[verifier::external_body]
fn toml_array(items: Vec<toml::Value>) -> (r: toml::Value)
    ensures
        toml_tree(r) == Tree::List(items@.map_values(|v: toml::Value| toml_tree(v))),
{
    toml::Value::Array(items)
}

/// `toml::Value::Table` of `toml::map::Map::new`: a value that holds an empty table.
#[verifier::external_body]
fn toml_table() -> (r: toml::Value)
    ensures
        toml_tree(r) == Tree::Table(Seq::empty()),
{
    toml::Value::Table(toml::map::Map::new())
}

/// `toml::map::Map::insert`: sets the key of the table to the value. Tables keep the order in which
/// their keys were first set (the feature `preserve_order`).
#[verifier::external_body]
fn toml_set(table: &mut toml::Value, key: &str, value: toml::Value)
    requires
        toml_tree(*old(table)) is Table,
    ensures
        toml_tree(*final(table)) == Tree::Table(
            put(toml_tree(*old(table))->Table_0, key@, toml_tree(value)),
        ),
{
    if let toml::Value::Table(entries) = table {
        entries.insert(key.to_owned(), value);
    }
}

/// `toml::to_string_pretty` of a value: the outcome depends on what the value holds alone, its tables
/// with the order of their keys. It is named [`toml_text`].
#[verifier::external_body]
fn toml_pretty(v: &toml::Value) -> (r: Result<String, String>)
    ensures
        views::result_view(r) == toml_text(toml_tree(*v)),
{
    toml::to_string_pretty(v).map_err(|e| e.to_string())
}

/// A field of a row.
#[derive(Debug, Eq, PartialEq)]
pub enum Scalar {
    Text(String),
    Number(u32),
}

/// What a [`Scalar`] holds.
pub enum ScalarView {
    Text(Text),
    Number(u32),
}

impl DeepView for Scalar {
    type V = ScalarView;

    open spec fn deep_view(&self) -> ScalarView {
        match self {
            Scalar::Text(s) => ScalarView::Text(s@),
            Scalar::Number(n) => ScalarView::Number(*n),
        }
    }
}

/// A row: fields by key.
pub type Row = Vec<(String, Scalar)>;

/// What a [`Row`] holds.
pub type RowView = Seq<(Text, ScalarView)>;

/// The field as a document.
pub open spec fn scalar_tree(s: ScalarView) -> Tree {
    match s {
        ScalarView::Text(s) => Tree::Text(s),
        ScalarView::Number(n) => Tree::Number(n as int),
    }
}

/// The fields by key; of fields with one key the last stays.
pub open spec fn row_entries(row: RowView) -> Seq<(Text, Tree)>
    decreases row.len(),
{
    if row.len() == 0 {
        Seq::empty()
    } else {
        put(row_entries(row.drop_last()), row.last().0, scalar_tree(row.last().1))
    }
}

/// The rows as a document: a list of tables.
pub open spec fn rows_tree(rows: Seq<RowView>) -> Tree {
    Tree::List(rows.map_values(|row: RowView| Tree::Table(row_entries(row))))
}

/// The sections by key.
pub open spec fn sections_entries(sections: Seq<(Text, Seq<RowView>)>) -> Seq<(Text, Tree)>
    decreases sections.len(),
{
    if sections.len() == 0 {
        Seq::empty()
    } else {
        put(
            sections_entries(sections.drop_last()),
            sections.last().0,
            rows_tree(sections.last().1),
        )
    }
}

/// The sections as a document: a table of lists of tables.
pub open spec fn sections_tree(sections: Seq<(Text, Seq<RowView>)>) -> Tree {
    Tree::Table(sections_entries(sections))
}

/// The texts as a document: a list.
pub open spec fn texts_tree(list: Seq<Text>) -> Tree {
    Tree::List(list.map_values(|s: Text| Tree::Text(s)))
}

/// A check as a document: whether it is ok and the issues, in this order or by key.
pub open spec fn check_tree(ok: bool, issues: Seq<Text>, by_key: bool) -> Tree {
    if by_key {
        Tree::Table(seq![("issues"@, texts_tree(issues)), ("ok"@, Tree::Flag(ok))])
    } else {
        Tree::Table(seq![("ok"@, Tree::Flag(ok)), ("issues"@, texts_tree(issues))])
    }
}

/// The fields of the checks.
pub open spec fn checks_entries(
    checks: Seq<(Text, (bool, Seq<Text>))>,
    by_key: bool,
) -> Seq<(Text, Tree)>
    decreases checks.len(),
{
    if checks.len() == 0 {
        Seq::empty()
    } else {
        let (key, (ok, issues)) = checks.last();
        put(checks_entries(checks.drop_last(), by_key), key, check_tree(ok, issues, by_key))
    }
}

/// The checks as a document: a table of checks.
pub open spec fn checks_tree(checks: Seq<(Text, (bool, Seq<Text>))>, by_key: bool) -> Tree {
    Tree::Table(checks_entries(checks, by_key))
}

proof fn lemma_two_fields(k: Text, a: Tree, l: Text, b: Tree)
    requires
        k.len() != l.len(),
    ensures
        put(put(Seq::empty(), k, a), l, b) == seq![(k, a), (l, b)],
{
    let one = put(Seq::empty(), k, a);
    assert(one =~= seq![(k, a)]);
    assert(!has_key(one, l));
    assert(put(one, l, b) =~= seq![(k, a), (l, b)]);
}

fn json_row(row: &Row) -> (r: serde_json::Value)
    ensures
        json_tree(r) == Tree::Table(row_entries(row.deep_view())),
{
    let ghost all = row.deep_view();
    let mut object = json_object();
    let mut i: usize = 0;
    while i < row.len()
        invariant
            i <= row@.len(),
            all == row.deep_view(),
            json_tree(object) == Tree::Table(row_entries(all.take(i as int))),
        decreases row@.len() - i,
    {
        assert(all[i as int] == (row@[i as int].0@, row@[i as int].1.deep_view()));
        assert(all.take(i + 1).drop_last() == all.take(i as int));
        let value = match &row[i].1 {
            Scalar::Text(s) => json_string(s.as_str()),
            Scalar::Number(n) => json_number(*n),
        };
        json_set(&mut object, row[i].0.as_str(), value);
        i += 1;
    }
    assert(all.take(all.len() as int) == all);
    object
}

fn json_rows(rows: &Vec<Row>) -> (r: serde_json::Value)
    ensures
        json_tree(r) == rows_tree(rows.deep_view()),
{
    let mut items: Vec<serde_json::Value> = Vec::new();
    let mut i: usize = 0;
    while i < rows.len()
        invariant
            i <= rows@.len(),
            items@.len() == i,
            forall|j: int|
                0 <= j < i ==> json_tree(#[trigger] items@[j]) == Tree::Table(
                    row_entries(rows@[j].deep_view()),
                ),
        decreases rows@.len() - i,
    {
        items.push(json_row(&rows[i]));
        i += 1;
    }
    proof {
        let all = rows.deep_view();
        assert(items@.map_values(|v: serde_json::Value| json_tree(v)) =~= all.map_values(
            |row: RowView| Tree::Table(row_entries(row)),
        ));
    }
    json_array(items)
}

fn toml_row(row: &Row) -> (r: toml::Value)
    ensures
        toml_tree(r) == Tree::Table(row_entries(row.deep_view())),
{
    let ghost all = row.deep_view();
    let mut table = toml_table();
    let mut i: usize = 0;
    while i < row.len()
        invariant
            i <= row@.len(),
            all == row.deep_view(),
            toml_tree(table) == Tree::Table(row_entries(all.take(i as int))),
        decreases row@.len() - i,
    {
        assert(all[i as int] == (row@[i as int].0@, row@[i as int].1.deep_view()));
        assert(all.take(i + 1).drop_last() == all.take(i as int));
        let value = match &row[i].1 {
            Scalar::Text(s) => toml_string(s.as_str()),
            Scalar::Number(n) => toml_integer(*n as i64),
        };
        toml_set(&mut table, row[i].0.as_str(), value);
        i += 1;
    }
    assert(all.take(all.len() as int) == all);
    table
}

fn toml_rows(rows: &Vec<Row>) -> (r: toml::Value)
    ensures
        toml_tree(r) == rows_tree(rows.deep_view()),
{
    let mut items: Vec<toml::Value> = Vec::new();
    let mut i: usize = 0;
    while i < rows.len()
        invariant
            i <= rows@.len(),
            items@.len() == i,
            forall|j: int|
                0 <= j < i ==> toml_tree(#[trigger] items@[j]) == Tree::Table(
                    row_entries(rows@[j].deep_view()),
                ),
        decreases rows@.len() - i,
    {
        items.push(toml_row(&rows[i]));
        i += 1;
    }
    proof {
        let all = rows.deep_view();
        assert(items@.map_values(|v: toml::Value| toml_tree(v)) =~= all.map_values(
            |row: RowView| Tree::Table(row_entries(row)),
        ));
    }
    toml_array(items)
}

/// The rows as JSON: an array of objects.
pub fn rows_to_json(rows: &Vec<Row>) -> (r: Result<String, String>)
    ensures
        views::result_view(r) == json_text(rows_tree(rows.deep_view())),
{
    json_pretty(&json_rows(rows))
}

/// The sections as JSON: an object of arrays of objects.
pub fn sections_to_json(sections: &Vec<(String, Vec<Row>)>) -> (r: Result<String, String>)
    ensures
        views::result_view(r) == json_text(sections_tree(sections.deep_view())),
{
    let ghost all = sections.deep_view();
    let mut object = json_object();
    let mut i: usize = 0;
    while i < sections.len()
        invariant
            i <= sections@.len(),
            all == sections.deep_view(),
            json_tree(object) == Tree::Table(sections_entries(all.take(i as int))),
        decreases sections@.len() - i,
    {
        assert(all[i as int] == (sections@[i as int].0@, sections@[i as int].1.deep_view()));
        assert(all.take(i + 1).drop_last() == all.take(i as int));
        json_set(&mut object, sections[i].0.as_str(), json_rows(&sections[i].1));
        i += 1;
    }
    assert(all.take(all.len() as int) == all);
    json_pretty(&object)
}

/// The sections as TOML: a table of arrays of tables.
pub fn sections_to_toml(sections: &Vec<(String, Vec<Row>)>) -> (r: Result<String, String>)
    ensures
        views::result_view(r) == toml_text(sections_tree(sections.deep_view())),
{
    let ghost all = sections.deep_view();
    let mut table = toml_table();
    let mut i: usize = 0;
    while i < sections.len()
        invariant
            i <= sections@.len(),
            all == sections.deep_view(),
            toml_tree(table) == Tree::Table(sections_entries(all.take(i as int))),
        decreases sections@.len() - i,
    {
        assert(all[i as int] == (sections@[i as int].0@, sections@[i as int].1.deep_view()));
        assert(all.take(i + 1).drop_last() == all.take(i as int));
        toml_set(&mut table, sections[i].0.as_str(), toml_rows(&sections[i].1));
        i += 1;
    }
    assert(all.take(all.len() as int) == all);
    toml_pretty(&table)
}

fn toml_texts(list: &Vec<String>) -> (r: toml::Value)
    ensures
        toml_tree(r) == texts_tree(list.deep_view()),
{
    let mut items: Vec<toml::Value> = Vec::new();
    let mut i: usize = 0;
    while i < list.len()
        invariant
            i <= list@.len(),
            items@.len() == i,
            forall|j: int|
                0 <= j < i ==> toml_tree(#[trigger] items@[j]) == Tree::Text(list@[j]@),
        decreases list@.len() - i,
    {
        items.push(toml_string(list[i].as_str()));
        i += 1;
    }
    proof {
        let all = list.deep_view();
        assert(items@.map_values(|v: toml::Value| toml_tree(v)) =~= all.map_values(
            |s: Text| Tree::Text(s),
        ));
    }
    toml_array(items)
}

/// The checks as TOML: a table of tables, each with the issues and whether it is ok, by key.
pub fn checks_to_toml(checks: &Vec<(String, (bool, Vec<String>))>) -> (r: Result<String, String>)
    ensures
        views::result_view(r) == toml_text(checks_tree(checks.deep_view(), true)),
{
    let ghost all = checks.deep_view();
    let mut table = toml_table();
    let mut i: usize = 0;
    while i < checks.len()
        invariant
            i <= checks@.len(),
            all == checks.deep_view(),
            toml_tree(table) == Tree::Table(checks_entries(all.take(i as int), true)),
        decreases checks@.len() - i,
    {
        assert(all[i as int] == checks@[i as int].deep_view());
        assert(all.take(i + 1).drop_last() == all.take(i as int));
        let mut check = toml_table();
        toml_set(&mut check, "issues", toml_texts(&checks[i].1.1));
        toml_set(&mut check, "ok", toml_boolean(checks[i].1.0));
        proof {
            let (ok, issues) = all[i as int].1;
            reveal_strlit("issues");
            reveal_strlit("ok");
            lemma_two_fields("issues"@, texts_tree(issues), "ok"@, Tree::Flag(ok));
        }
        toml_set(&mut table, checks[i].0.as_str(), check);
        i += 1;
    }
    assert(all.take(all.len() as int) == all);
    toml_pretty(&table)
}

fn json_texts(list: &Vec<String>) -> (r: serde_json::Value)
    ensures
        json_tree(r) == texts_tree(list.deep_view()),
{
    let mut items: Vec<serde_json::Value> = Vec::new();
    let mut i: usize = 0;
    while i < list.len()
        invariant
            i <= list@.len(),
            items@.len() == i,
            forall|j: int|
                0 <= j < i ==> json_tree(#[trigger] items@[j]) == Tree::Text(list@[j]@),
        decreases list@.len() - i,
    {
        items.push(json_string(list[i].as_str()));
        i += 1;
    }
    proof {
        let all = list.deep_view();
        assert(items@.map_values(|v: serde_json::Value| json_tree(v)) =~= all.map_values(
            |s: Text| Tree::Text(s),
        ));
    }
    json_array(items)
}

/// The checks as JSON: an object of objects, each with whether it is ok and the issues.
pub fn checks_to_json(checks: &Vec<(String, (bool, Vec<String>))>) -> (r: Result<String, String>)
    ensures
        views::result_view(r) == json_text(checks_tree(checks.deep_view(), false)),
{
    let ghost all = checks.deep_view();
    let mut object = json_object();
    let mut i: usize = 0;
    while i < checks.len()
        invariant
            i <= checks@.len(),
            all == checks.deep_view(),
            json_tree(object) == Tree::Table(checks_entries(all.take(i as int), false)),
        decreases checks@.len() - i,
    {
        assert(all[i as int] == checks@[i as int].deep_view());
        assert(all.take(i + 1).drop_last() == all.take(i as int));
        let mut check = json_object();
        json_set(&mut check, "ok", json_boolean(checks[i].1.0));
        json_set(&mut check, "issues", json_texts(&checks[i].1.1));
        proof {
            let (ok, issues) = all[i as int].1;
            reveal_strlit("issues");
            reveal_strlit("ok");
            lemma_two_fields("ok"@, Tree::Flag(ok), "issues"@, texts_tree(issues));
        }
        json_set(&mut object, checks[i].0.as_str(), check);
        i += 1;
    }
    assert(all.take(all.len() as int) == all);
    json_pretty(&object)
}

/// A field of a record.
#[derive(Debug, Eq, PartialEq)]
pub enum Entry {
    Text(String),
    Texts(Vec<String>),
}

/// What an [`Entry`] holds.
pub enum EntryView {
    Text(Text),
    Texts(Seq<Text>),
}

impl DeepView for Entry {
    type V = EntryView;

    open spec fn deep_view(&self) -> EntryView {
        match self {
            Entry::Text(s) => EntryView::Text(s@),
            Entry::Texts(list) => EntryView::Texts(list.deep_view()),
        }
    }
}

/// The field as a document.
pub open spec fn entry_tree(e: EntryView) -> Tree {
    match e {
        EntryView::Text(s) => Tree::Text(s),
        EntryView::Texts(list) => texts_tree(list),
    }
}

/// The fields of a record by key; of fields with one key the last stays.
pub open spec fn record_entries(fields: Seq<(Text, EntryView)>) -> Seq<(Text, Tree)>
    decreases fields.len(),
{
    if fields.len() == 0 {
        Seq::empty()
    } else {
        put(record_entries(fields.drop_last()), fields.last().0, entry_tree(fields.last().1))
    }
}

/// Fields with different keys stand in the record in their order.
pub proof fn lemma_record_entries(fields: Seq<(Text, EntryView)>)
    requires
        forall|i: int, j: int|
            #![trigger fields[i], fields[j]]
            0 <= i < j < fields.len() ==> fields[i].0 != fields[j].0,
    ensures
        record_entries(fields) == fields.map_values(
            |f: (Text, EntryView)| (f.0, entry_tree(f.1)),
        ),
    decreases fields.len(),
{
    let all = fields.map_values(|f: (Text, EntryView)| (f.0, entry_tree(f.1)));
    if fields.len() == 0 {
        assert(record_entries(fields) =~= all);
    } else {
        let front = fields.drop_last();
        let n = fields.len() - 1;
        assert forall|i: int, j: int|
            #![trigger front[i], front[j]]
            0 <= i < j < front.len() implies front[i].0 != front[j].0 by {
            assert(front[i] == fields[i] && front[j] == fields[j]);
        }
        lemma_record_entries(front);
        let before = record_entries(front);
        assert forall|i: int| 0 <= i < before.len() implies (#[trigger] before[i]).0
            != fields.last().0 by {
            assert(before[i].0 == front[i].0);
            assert(front[i] == fields[i] && fields.last() == fields[n]);
        }
        assert(record_entries(fields) =~= all);
    }
}

/// The record as a document: a table.
pub open spec fn record_tree(fields: Seq<(Text, EntryView)>) -> Tree {
    Tree::Table(record_entries(fields))
}

/// The record as a document with one section of the given name.
pub open spec fn section_tree(section: Text, fields: Seq<(Text, EntryView)>) -> Tree {
    Tree::Table(seq![(section, record_tree(fields))])
}

/// The record as JSON: an object.
pub fn record_to_json(fields: &Vec<(String, Entry)>) -> (r: Result<String, String>)
    ensures
        views::result_view(r) == json_text(record_tree(fields.deep_view())),
{
    let ghost all = fields.deep_view();
    let mut object = json_object();
    let mut i: usize = 0;
    while i < fields.len()
        invariant
            i <= fields@.len(),
            all == fields.deep_view(),
            json_tree(object) == Tree::Table(record_entries(all.take(i as int))),
        decreases fields@.len() - i,
    {
        assert(all[i as int] == (fields@[i as int].0@, fields@[i as int].1.deep_view()));
        assert(all.take(i + 1).drop_last() == all.take(i as int));
        let value = match &fields[i].1 {
            Entry::Text(s) => json_string(s.as_str()),
            Entry::Texts(list) => json_texts(list),
        };
        json_set(&mut object, fields[i].0.as_str(), value);
        i += 1;
    }
    assert(all.take(all.len() as int) == all);
    json_pretty(&object)
}

/// The record as TOML: a table with one section of the given name.
pub fn record_to_toml(section: &str, fields: &Vec<(String, Entry)>) -> (r: Result<String, String>)
    ensures
        views::result_view(r) == toml_text(section_tree(section@, fields.deep_view())),
{
    let ghost all = fields.deep_view();
    let mut table = toml_table();
    let mut i: usize = 0;
    while i < fields.len()
        invariant
            i <= fields@.len(),
            all == fields.deep_view(),
            toml_tree(table) == Tree::Table(record_entries(all.take(i as int))),
        decreases fields@.len() - i,
    {
        assert(all[i as int] == (fields@[i as int].0@, fields@[i as int].1.deep_view()));
        assert(all.take(i + 1).drop_last() == all.take(i as int));
        let value = match &fields[i].1 {
            Entry::Text(s) => toml_string(s.as_str()),
            Entry::Texts(list) => toml_texts(list),
        };
        toml_set(&mut table, fields[i].0.as_str(), value);
        i += 1;
    }
    assert(all.take(all.len() as int) == all);
    let mut root = toml_table();
    toml_set(&mut root, section, table);
    assert(put(Seq::empty(), section@, toml_tree(table)) =~= seq![(section@, toml_tree(table))]);
    toml_pretty(&root)
}

} // verus!
