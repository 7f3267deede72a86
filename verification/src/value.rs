//! TOML values: strings, integers, floats, booleans, date-times, arrays and
//! inline tables, each with its text and decor.

use vstd::prelude::*;

use crate::datetime::{datetime_text, Datetime};
use crate::encode::{string_repr_text, to_string_repr};
use crate::integer::{integer_text, Radix};
use crate::key::Key;
use crate::repr::{opt_str_view, or_default, Decor, Repr};

verus! {

/// A float, held as its TOML text without underscores (the text a float
/// conversion reads, such as `1e200`, `-0.01` or `nan`).
#[derive(Clone, Debug, PartialEq, Eq)]
pub struct Float {
    text: String,
}

impl View for Float {
    type V = Seq<char>;

    closed spec fn view(&self) -> Seq<char> {
        self.text@
    }
}

impl Float {
    /// A float from its text.
    pub fn from_text(text: String) -> (f: Float)
        ensures
            f@ == text@,
    {
        Float { text }
    }

    /// The float's text.
    pub fn as_text(&self) -> (s: &str)
        ensures
            s@ == self@,
    {
        self.text.as_str()
    }
}

/// A value that knows its default TOML text.
pub trait ValueRepr {
    /// The default TOML text of the value.
    spec fn repr_text(&self) -> Seq<char>;

    /// The default TOML text of the value.
    fn to_repr(&self) -> (r: Repr)
        ensures
            r@ == self.repr_text(),
    ;
}

impl ValueRepr for String {
    open spec fn repr_text(&self) -> Seq<char> {
        string_repr_text(self@, None, None)
    }

    fn to_repr(&self) -> (r: Repr) {
        to_string_repr(self.as_str(), None, None)
    }
}

impl ValueRepr for i64 {
    open spec fn repr_text(&self) -> Seq<char> {
        integer_text(*self as int, Radix::Decimal)
    }

    fn to_repr(&self) -> (r: Repr) {
        let f = crate::integer::TomlIntegerFormat::new().format(*self as i128);
        match f {
            Some(i) => Repr::new_unchecked(i.to_toml_value()),
            None => Repr::new_unchecked(String::new()),
        }
    }
}

impl ValueRepr for bool {
    open spec fn repr_text(&self) -> Seq<char> {
        if *self {
            seq!['t', 'r', 'u', 'e']
        } else {
            seq!['f', 'a', 'l', 's', 'e']
        }
    }

    fn to_repr(&self) -> (r: Repr) {
        let mut s = String::new();
        if *self {
            crate::text::push_char(&mut s, 't');
            crate::text::push_char(&mut s, 'r');
            crate::text::push_char(&mut s, 'u');
            crate::text::push_char(&mut s, 'e');
        } else {
            crate::text::push_char(&mut s, 'f');
            crate::text::push_char(&mut s, 'a');
            crate::text::push_char(&mut s, 'l');
            crate::text::push_char(&mut s, 's');
            crate::text::push_char(&mut s, 'e');
        }
        assert(s@ =~= self.repr_text());
        Repr::new_unchecked(s)
    }
}

impl ValueRepr for Float {
    open spec fn repr_text(&self) -> Seq<char> {
        self@
    }

    fn to_repr(&self) -> (r: Repr) {
        Repr::new_unchecked(self.text.clone())
    }
}

impl ValueRepr for Datetime {
    open spec fn repr_text(&self) -> Seq<char> {
        datetime_text(*self)
    }

    fn to_repr(&self) -> (r: Repr) {
        Repr::new_unchecked(self.to_toml_string())
    }
}

/// A value together with its TOML text (when it differs from the default)
/// and its decor.
#[derive(Debug)]
pub struct Formatted<T> {
    value: T,
    repr: Option<Repr>,
    decor: Decor,
}

impl<T: ValueRepr> Formatted<T> {
    /// The wrapped value.
    pub closed spec fn value_view(&self) -> T {
        self.value
    }

    /// The explicit TOML text, if any.
    pub closed spec fn repr_view(&self) -> Option<Repr> {
        self.repr
    }

    /// The decor.
    pub closed spec fn decor_view(&self) -> Decor {
        self.decor
    }

    /// The TOML text: the explicit one, else the default.
    pub open spec fn raw_text(&self) -> Seq<char> {
        match self.repr_view() {
            Some(r) => r@,
            None => self.value_view().repr_text(),
        }
    }

    /// A default-formatted value.
    pub fn new(value: T) -> (f: Self)
        ensures
            f.value_view() == value,
            f.repr_view() is None,
            f.decor_view().prefix_view() is None,
            f.decor_view().suffix_view() is None,
    {
        Formatted { value, repr: None, decor: Decor::empty() }
    }

    /// Sets the TOML text, trusted to encode the value.
    pub fn set_repr_unchecked(&mut self, repr: Repr)
        ensures
            final(self).repr_view() == Some(repr),
            final(self).value_view() == old(self).value_view(),
            final(self).decor_view() == old(self).decor_view(),
    {
        self.repr = Some(repr);
    }

    /// The wrapped value.
    pub fn value(&self) -> (v: &T)
        ensures
            *v == self.value_view(),
    {
        &self.value
    }

    /// The wrapped value.
    pub fn into_value(self) -> (v: T)
        ensures
            v == self.value_view(),
    {
        self.value
    }

    /// The TOML text of the value.
    pub fn to_repr(&self) -> (r: Repr)
        ensures
            r@ == self.raw_text(),
    {
        match &self.repr {
            Some(r) => r.duplicate(),
            None => self.value.to_repr(),
        }
    }

    /// The decor.
    pub fn decor(&self) -> (d: &Decor)
        ensures
            *d == self.decor_view(),
    {
        &self.decor
    }

    /// The TOML text of the value, without its decor.
    pub fn raw(&self) -> (s: String)
        ensures
            s@ == self.raw_text(),
    {
        let r = self.to_repr();
        r.as_raw().to_owned()
    }

    /// The whitespace and comments before the value, if set.
    pub fn prefix(&self) -> (p: Option<&str>)
        ensures
            opt_str_view(p) == self.decor_view().prefix_view(),
    {
        self.decor.prefix()
    }

    /// The whitespace and comments after the value, if set.
    pub fn suffix(&self) -> (p: Option<&str>)
        ensures
            opt_str_view(p) == self.decor_view().suffix_view(),
    {
        self.decor.suffix()
    }

    /// The decor, to change it.
    pub fn decor_mut(&mut self) -> (d: &mut Decor)
        ensures
            *d == old(self).decor_view(),
            final(self).decor_view() == *final(d),
            final(self).value_view() == old(self).value_view(),
            final(self).repr_view() == old(self).repr_view(),
    {
        &mut self.decor
    }

    /// Replaces the TOML text with the default one.
    pub fn fmt(&mut self)
        ensures
            final(self).repr_view() matches Some(r) && r@ == old(self).value_view().repr_text(),
            final(self).value_view() == old(self).value_view(),
            final(self).decor_view() == old(self).decor_view(),
    {
        self.repr = Some(self.value.to_repr());
    }
}

} // verus!

verus! {

/// A TOML value (the right-hand side of a key/value pair).
#[derive(Debug)]
pub enum Value {
    /// A string value.
    String(Formatted<String>),
    /// A 64-bit integer value.
    Integer(Formatted<i64>),
    /// A float value.
    Float(Formatted<Float>),
    /// A boolean value.
    Boolean(Formatted<bool>),
    /// A date-time value.
    Datetime(Formatted<Datetime>),
    /// An inline array of values.
    Array(Array),
    /// An inline table of key/value pairs.
    InlineTable(InlineTable),
}

/// An inline array: `[ value, value ]`.
#[derive(Debug)]
pub struct Array {
    pub(crate) values: Vec<Value>,
    /// Whitespace and comments in an empty array or after the trailing comma.
    pub(crate) trailing: String,
    pub(crate) trailing_comma: bool,
    /// Before `[` and after `]`.
    pub(crate) decor: Decor,
}

/// An inline table: `{ key = value, key = value }`.
#[derive(Debug)]
pub struct InlineTable {
    pub(crate) items: Vec<TableKeyValue>,
    /// Whitespace inside an empty table.
    pub(crate) preamble: String,
    /// Before `{` and after `}`.
    pub(crate) decor: Decor,
    /// Made implicitly by a dotted key.
    pub(crate) dotted: bool,
}

/// A key with the item it maps to.
#[derive(Debug)]
pub struct TableKeyValue {
    pub(crate) key: Key,
    pub(crate) value: Item,
}

/// What a key of a table maps to.
#[derive(Debug)]
pub enum Item {
    /// Nothing (a placeholder).
    Empty,
    /// A value.
    Value(Value),
    /// A table with a header.
    Table(Table),
    /// An array of tables.
    ArrayOfTables(ArrayOfTables),
}

/// A table with a header, or the root table of a document.
#[derive(Debug)]
pub struct Table {
    pub(crate) items: Vec<TableKeyValue>,
    /// Before and after the header.
    pub(crate) decor: Decor,
    /// Hidden when it has no key/value pairs.
    pub(crate) implicit: bool,
    /// Made by a dotted key rather than a header.
    pub(crate) dotted: bool,
    /// Where the table's header stood in the parsed document.
    pub(crate) position: Option<usize>,
}

/// An array of tables: `[[header]]` repeated.
#[derive(Debug)]
pub struct ArrayOfTables {
    pub(crate) values: Vec<Table>,
}

impl Array {
    /// The values.
    pub closed spec fn values_view(&self) -> Seq<Value> {
        self.values@
    }

    /// Whitespace and comments in an empty array or after the trailing comma.
    pub closed spec fn trailing_view(&self) -> Seq<char> {
        self.trailing@
    }

    /// A comma follows the last value.
    pub closed spec fn trailing_comma_view(&self) -> bool {
        self.trailing_comma
    }

    /// Before `[` and after `]`.
    pub closed spec fn decor_view(&self) -> Decor {
        self.decor
    }
}

impl InlineTable {
    /// The entries, in order.
    pub closed spec fn items_view(&self) -> Seq<TableKeyValue> {
        self.items@
    }

    /// Whitespace inside an empty table.
    pub closed spec fn preamble_view(&self) -> Seq<char> {
        self.preamble@
    }

    /// Before `{` and after `}`.
    pub closed spec fn decor_view(&self) -> Decor {
        self.decor
    }

    /// Made implicitly by a dotted key.
    pub closed spec fn dotted_view(&self) -> bool {
        self.dotted
    }
}

impl TableKeyValue {
    /// The key.
    pub closed spec fn key_view(&self) -> Key {
        self.key
    }

    /// The item.
    pub closed spec fn value_view(&self) -> Item {
        self.value
    }
}

impl Table {
    /// The entries, in order.
    pub closed spec fn items_view(&self) -> Seq<TableKeyValue> {
        self.items@
    }

    /// Before and after the header.
    pub closed spec fn decor_view(&self) -> Decor {
        self.decor
    }

    /// Hidden when it has no key/value pairs.
    pub closed spec fn implicit_view(&self) -> bool {
        self.implicit
    }

    /// Made by a dotted key rather than a header.
    pub closed spec fn dotted_view(&self) -> bool {
        self.dotted
    }

    /// Where the header stood in the parsed document.
    pub closed spec fn position_view(&self) -> Option<usize> {
        self.position
    }
}

impl ArrayOfTables {
    /// The tables, in order.
    pub closed spec fn values_view(&self) -> Seq<Table> {
        self.values@
    }
}

/// What a value means, apart from how it is written.
pub enum TomlValue {
    /// A string.
    String(Seq<char>),
    /// An integer.
    Integer(int),
    /// A float, by its text without underscores.
    Float(Seq<char>),
    /// A boolean.
    Boolean(bool),
    /// A date, a time or both.
    Datetime(Datetime),
    /// An array.
    Array(Seq<TomlValue>),
    /// An inline table: its keys and items, in order.
    InlineTable(Seq<(Seq<char>, TomlItem)>),
}

/// What an item means, apart from how it is written.
pub enum TomlItem {
    /// Nothing.
    Empty,
    /// A value.
    Value(TomlValue),
    /// A table.
    Table(TomlTable),
    /// An array of tables.
    ArrayOfTables(Seq<TomlTable>),
}

/// What a table means: its keys and items, in order, whether it was made
/// implicitly (by a header or a key of a table under it), and whether it was
/// made by a dotted key.
pub struct TomlTable {
    pub entries: Seq<(Seq<char>, TomlItem)>,
    pub implicit: bool,
    pub dotted: bool,
}

/// What a value means.
pub open spec fn value_model(v: Value) -> TomlValue
    decreases v, 0nat,
{
    match v {
        Value::String(f) => TomlValue::String(f.value_view()@),
        Value::Integer(f) => TomlValue::Integer(f.value_view() as int),
        Value::Float(f) => TomlValue::Float(f.value_view()@),
        Value::Boolean(f) => TomlValue::Boolean(f.value_view()),
        Value::Datetime(f) => TomlValue::Datetime(f.value_view()),
        Value::Array(a) => TomlValue::Array(values_model(a.values_view(), a.values_view().len())),
        Value::InlineTable(t) => TomlValue::InlineTable(
            entries_model(t.items_view(), t.items_view().len()),
        ),
    }
}

/// What the first `n` values mean.
pub open spec fn values_model(vals: Seq<Value>, n: nat) -> Seq<TomlValue>
    decreases vals, n,
{
    if n == 0 || n > vals.len() {
        Seq::empty()
    } else {
        values_model(vals, (n - 1) as nat).push(value_model(vals[n - 1]))
    }
}

/// The keys of the first `n` entries with what their items mean.
pub open spec fn entries_model(items: Seq<TableKeyValue>, n: nat) -> Seq<(Seq<char>, TomlItem)>
    decreases items, n,
{
    if n == 0 || n > items.len() {
        Seq::empty()
    } else {
        entries_model(items, (n - 1) as nat).push(
            (items[n - 1].key_view().value(), item_model(items[n - 1].value_view())),
        )
    }
}

/// What an item means.
pub open spec fn item_model(it: Item) -> TomlItem
    decreases it, 0nat,
{
    match it {
        Item::Empty => TomlItem::Empty,
        Item::Value(v) => TomlItem::Value(value_model(v)),
        Item::Table(t) => TomlItem::Table(
            TomlTable {
                entries: entries_model(t.items_view(), t.items_view().len()),
                implicit: t.implicit_view(),
                dotted: t.dotted_view(),
            },
        ),
        Item::ArrayOfTables(a) => TomlItem::ArrayOfTables(
            tables_model(a.values_view(), a.values_view().len()),
        ),
    }
}

/// What the first `n` tables mean.
pub open spec fn tables_model(ts: Seq<Table>, n: nat) -> Seq<TomlTable>
    decreases ts, n,
{
    if n == 0 || n > ts.len() {
        Seq::empty()
    } else {
        tables_model(ts, (n - 1) as nat).push(
            TomlTable {
                entries: entries_model(ts[n - 1].items_view(), ts[n - 1].items_view().len()),
                implicit: ts[n - 1].implicit_view(),
                dotted: ts[n - 1].dotted_view(),
            },
        )
    }
}

/// What a table means.
pub open spec fn table_model(t: Table) -> TomlTable {
    TomlTable {
        entries: entries_model(t.items_view(), t.items_view().len()),
        implicit: t.implicit_view(),
        dotted: t.dotted_view(),
    }
}

/// Appending a value leaves the texts and meanings of the earlier ones as
/// they were.
pub proof fn lemma_values_push(vals: Seq<Value>, v: Value, k: nat)
    requires
        k <= vals.len(),
    ensures
        values_text(vals.push(v), k) == values_text(vals, k),
        values_model(vals.push(v), k) == values_model(vals, k),
    decreases k,
{
    if k > 0 {
        lemma_values_push(vals, v, (k - 1) as nat);
        assert(vals.push(v)[k - 1] == vals[k - 1]);
    }
}

/// The meanings of the first `n` values, one by one.
pub proof fn lemma_values_model(vals: Seq<Value>, n: nat)
    requires
        n <= vals.len(),
    ensures
        values_model(vals, n).len() == n,
        forall|j: int| 0 <= j < n ==> #[trigger] values_model(vals, n)[j] == value_model(vals[j]),
    decreases n,
{
    if n > 0 {
        lemma_values_model(vals, (n - 1) as nat);
    }
}

/// Appending an entry leaves the texts and meanings of the earlier ones as
/// they were.
pub proof fn lemma_entries_push(items: Seq<TableKeyValue>, kv: TableKeyValue, k: nat)
    requires
        k <= items.len(),
    ensures
        entries_model(items.push(kv), k) == entries_model(items, k),
        inline_items_text(items.push(kv), k) == inline_items_text(items, k),
    decreases k,
{
    if k > 0 {
        lemma_entries_push(items, kv, (k - 1) as nat);
        assert(items.push(kv)[k - 1] == items[k - 1]);
    }
}

/// The meanings of the first `n` entries, one by one.
pub proof fn lemma_entries_model(items: Seq<TableKeyValue>, n: nat)
    requires
        n <= items.len(),
    ensures
        entries_model(items, n).len() == n,
        forall|j: int|
            0 <= j < n ==> #[trigger] entries_model(items, n)[j] == (
                items[j].key_view().value(),
                item_model(items[j].value_view()),
            ),
    decreases n,
{
    if n > 0 {
        lemma_entries_model(items, (n - 1) as nat);
    }
}

/// A table's entries are smaller than the table.
pub proof fn lemma_table_items_decrease(t: Table)
    ensures
        decreases_to!(t => t.items_view()),
{
}

/// An entry's item is smaller than the entry.
pub proof fn lemma_entry_item_decreases(kv: TableKeyValue)
    ensures
        decreases_to!(kv => kv.value_view()),
{
}

/// An array of tables' tables are smaller than the array.
pub proof fn lemma_array_tables_decrease(a: ArrayOfTables)
    ensures
        decreases_to!(a => a.values_view()),
{
}

/// `key = value`: the default decor around a value.
pub open spec fn default_value_decor() -> (Seq<char>, Seq<char>) {
    (seq![' '], Seq::empty())
}

/// `{ key = value }`: the default decor around a key of an inline table.
pub open spec fn default_inline_key_decor() -> (Seq<char>, Seq<char>) {
    (seq![' '], seq![' '])
}

/// The decor of a value.
pub open spec fn value_decor(v: Value) -> Decor {
    match v {
        Value::String(f) => f.decor_view(),
        Value::Integer(f) => f.decor_view(),
        Value::Float(f) => f.decor_view(),
        Value::Boolean(f) => f.decor_view(),
        Value::Datetime(f) => f.decor_view(),
        Value::Array(a) => a.decor_view(),
        Value::InlineTable(t) => t.decor_view(),
    }
}

/// The TOML text of a value with its decor.
pub open spec fn value_text(v: Value) -> Seq<char>
    decreases v, 1nat,
{
    value_decor(v).around(value_repr_text(v), default_value_decor())
}

/// The TOML text of a value without its decor.
pub open spec fn value_repr_text(v: Value) -> Seq<char>
    decreases v, 0nat,
{
    match v {
        Value::String(f) => f.raw_text(),
        Value::Integer(f) => f.raw_text(),
        Value::Float(f) => f.raw_text(),
        Value::Boolean(f) => f.raw_text(),
        Value::Datetime(f) => f.raw_text(),
        Value::Array(a) => seq!['['] + values_text(a.values_view(), a.values_view().len()) + (
        if a.trailing_comma_view() && a.values_view().len() > 0 {
            seq![',']
        } else {
            Seq::empty()
        }) + a.trailing_view() + seq![']'],
        Value::InlineTable(t) => seq!['{'] + t.preamble_view() + inline_items_text(
            t.items_view(),
            t.items_view().len(),
        ) + seq!['}'],
    }
}

/// The texts of the first `n` values, separated by commas.
pub open spec fn values_text(vals: Seq<Value>, n: nat) -> Seq<char>
    decreases vals, n,
{
    if n == 0 || n > vals.len() {
        Seq::empty()
    } else {
        values_text(vals, (n - 1) as nat) + (if n > 1 {
            seq![',']
        } else {
            Seq::empty()
        }) + value_text(vals[n - 1])
    }
}

/// `key=value` for an entry that holds a value (nothing for other items).
pub open spec fn inline_item_text(kv: TableKeyValue) -> Seq<char>
    decreases kv, 0nat,
{
    match kv.value_view() {
        Item::Value(v) => kv.key_view().decor_view().around(
            kv.key_view().repr_view()@,
            default_inline_key_decor(),
        ) + seq!['='] + value_text(v),
        _ => Seq::empty(),
    }
}

/// `key=value` for each of the first `n` items that holds a value,
/// separated by commas.
pub open spec fn inline_items_text(items: Seq<TableKeyValue>, n: nat) -> Seq<char>
    decreases items, n,
{
    if n == 0 || n > items.len() {
        Seq::empty()
    } else {
        let prev = inline_items_text(items, (n - 1) as nat);
        if items[n - 1].value_view() is Value {
            prev + (if prev.len() > 0 {
                seq![',']
            } else {
                Seq::empty()
            }) + inline_item_text(items[n - 1])
        } else {
            prev
        }
    }
}

} // verus!

verus! {

impl<T: ValueRepr> Formatted<T> {
    /// Writes the value's TOML text surrounded by its decor (or the default).
    pub fn display(&self, out: &mut String)
        ensures
            final(out)@ == old(out)@ + self.decor_view().around(self.raw_text(), default_value_decor()),
    {
        let r = self.to_repr();
        proof {
            reveal_strlit(" ");
            reveal_strlit("");
        }
        self.decor.display(out, r.as_raw(), " ", "");
    }
}

/// Writes the TOML text of a value.
fn write_value(v: &Value, out: &mut String)
    ensures
        final(out)@ == old(out)@ + value_text(*v),
    decreases v, 0nat,
{
    match v {
        Value::String(f) => f.display(out),
        Value::Integer(f) => f.display(out),
        Value::Float(f) => f.display(out),
        Value::Boolean(f) => f.display(out),
        Value::Datetime(f) => f.display(out),
        Value::Array(a) => {
            let mut inner = String::new();
            crate::text::push_char(&mut inner, '[');
            write_values(&a.values, &mut inner);
            if a.trailing_comma && a.values.len() > 0 {
                crate::text::push_char(&mut inner, ',');
            }
            inner.append(a.trailing.as_str());
            crate::text::push_char(&mut inner, ']');
            proof {
                reveal_strlit(" ");
                reveal_strlit("");
            }
            a.decor.display(out, inner.as_str(), " ", "");
            assert(inner@ =~= seq!['['] + values_text(a.values_view(), a.values_view().len()) + (
            if a.trailing_comma_view() && a.values_view().len() > 0 {
                seq![',']
            } else {
                Seq::empty()
            }) + a.trailing_view() + seq![']']);
        },
        Value::InlineTable(t) => {
            let mut inner = String::new();
            crate::text::push_char(&mut inner, '{');
            inner.append(t.preamble.as_str());
            write_inline_items(&t.items, &mut inner);
            crate::text::push_char(&mut inner, '}');
            proof {
                reveal_strlit(" ");
                reveal_strlit("");
            }
            t.decor.display(out, inner.as_str(), " ", "");
            assert(inner@ =~= seq!['{'] + t.preamble_view() + inline_items_text(
                t.items_view(),
                t.items_view().len(),
            ) + seq!['}']);
        },
    }
}

fn write_values(vals: &Vec<Value>, out: &mut String)
    ensures
        final(out)@ == old(out)@ + values_text(vals@, vals@.len()),
    decreases vals, vals@.len(),
{
    let ghost start = out@;
    let mut i: usize = 0;
    while i < vals.len()
        invariant
            i <= vals@.len(),
            out@ == start + values_text(vals@, i as nat),
        decreases vals@.len() - i,
    {
        if i > 0 {
            crate::text::push_char(out, ',');
        }
        proof {
            assert(decreases_to!(vals => vals@[i as int]));
        }
        write_value(&vals[i], out);
        assert(out@ =~= start + values_text(vals@, (i + 1) as nat));
        i = i + 1;
    }
}

fn write_inline_items(items: &Vec<TableKeyValue>, out: &mut String)
    ensures
        final(out)@ == old(out)@ + inline_items_text(items@, items@.len()),
    decreases items, items@.len(),
{
    let ghost start = out@;
    let mut i: usize = 0;
    let mut any = false;
    while i < items.len()
        invariant
            i <= items@.len(),
            out@ == start + inline_items_text(items@, i as nat),
            any == (inline_items_text(items@, i as nat).len() > 0),
        decreases items@.len() - i,
    {
        let kv = &items[i];
        let ghost before = out@;
        match &kv.value {
            Item::Value(v) => {
                if any {
                    crate::text::push_char(out, ',');
                }
                proof {
                    reveal_strlit(" ");
                }
                kv.key.display_with_decor(out, " ", " ");
                crate::text::push_char(out, '=');
                proof {
                    assert(decreases_to!(items => items@[i as int]));
                    assert(decreases_to!(items@[i as int] => items@[i as int].value));
                }
                write_value(v, out);
                assert(inline_item_text(*kv) == kv.key_view().decor_view().around(
                    kv.key_view().repr_view()@,
                    default_inline_key_decor(),
                ) + seq!['='] + value_text(*v));
                assert(out@ =~= before + (if any {
                    seq![',']
                } else {
                    Seq::empty()
                }) + inline_item_text(*kv));
                any = true;
            },
            _ => {},
        }
        assert(out@ =~= start + inline_items_text(items@, (i + 1) as nat));
        i = i + 1;
    }
}

impl<T: ValueRepr> Formatted<T> {
    /// Sets the decor.
    pub fn set_decor(&mut self, decor: Decor)
        ensures
            final(self).decor_view() == decor,
            final(self).value_view() == old(self).value_view(),
            final(self).repr_view() == old(self).repr_view(),
    {
        self.decor = decor;
    }
}

/// `a` is `b` but for the whitespace and comments around it.
pub open spec fn same_but_decor(a: Value, b: Value) -> bool {
    match (a, b) {
        (Value::String(x), Value::String(y)) => x.value_view() == y.value_view() && x.repr_view()
            == y.repr_view(),
        (Value::Integer(x), Value::Integer(y)) => x.value_view() == y.value_view()
            && x.repr_view() == y.repr_view(),
        (Value::Float(x), Value::Float(y)) => x.value_view() == y.value_view() && x.repr_view()
            == y.repr_view(),
        (Value::Boolean(x), Value::Boolean(y)) => x.value_view() == y.value_view()
            && x.repr_view() == y.repr_view(),
        (Value::Datetime(x), Value::Datetime(y)) => x.value_view() == y.value_view()
            && x.repr_view() == y.repr_view(),
        (Value::Array(x), Value::Array(y)) => x.values_view() == y.values_view()
            && x.trailing_view() == y.trailing_view() && x.trailing_comma_view()
            == y.trailing_comma_view(),
        (Value::InlineTable(x), Value::InlineTable(y)) => x.items_view() == y.items_view()
            && x.preamble_view() == y.preamble_view() && x.dotted_view() == y.dotted_view(),
        _ => false,
    }
}

/// `a` is `b` with the prefix `p` and the suffix `s` around it.
pub open spec fn decorated_as(a: Value, b: Value, p: Seq<char>, s: Seq<char>) -> bool {
    &&& same_but_decor(a, b)
    &&& value_decor(a).prefix_view() == Some(p)
    &&& value_decor(a).suffix_view() == Some(s)
}

/// Values that differ only in their decor mean the same and have the same
/// text inside the decor.
pub proof fn lemma_same_but_decor(a: Value, b: Value)
    requires
        same_but_decor(a, b),
    ensures
        value_model(a) == value_model(b),
        value_repr_text(a) == value_repr_text(b),
{
}

impl Array {
    /// Takes the values out, leaving none.
    pub(crate) fn take_values(&mut self) -> (v: Vec<Value>)
        ensures
            v@ == old(self).values_view(),
            final(self).values_view() == Seq::<Value>::empty(),
            final(self).trailing_view() == old(self).trailing_view(),
            final(self).trailing_comma_view() == old(self).trailing_comma_view(),
            final(self).decor_view() == old(self).decor_view(),
    {
        let mut v = Vec::new();
        std::mem::swap(&mut v, &mut self.values);
        v
    }

    /// Puts values in, replacing the ones there were.
    pub(crate) fn set_values(&mut self, v: Vec<Value>)
        ensures
            final(self).values_view() == v@,
            final(self).trailing_view() == old(self).trailing_view(),
            final(self).trailing_comma_view() == old(self).trailing_comma_view(),
            final(self).decor_view() == old(self).decor_view(),
    {
        self.values = v;
    }

    /// Sets whether a comma follows the last value.
    pub(crate) fn set_trailing_comma(&mut self, b: bool)
        ensures
            final(self).values_view() == old(self).values_view(),
            final(self).trailing_view() == old(self).trailing_view(),
            final(self).trailing_comma_view() == b,
            final(self).decor_view() == old(self).decor_view(),
    {
        self.trailing_comma = b;
    }
}

impl Table {
    /// The item of the entry at `j`, to change it in place.
    pub(crate) fn item_mut(&mut self, j: usize) -> (r: &mut Item)
        requires
            j < old(self).items_view().len(),
        ensures
            *r == old(self).items_view()[j as int].value_view(),
            final(self).items_view().len() == old(self).items_view().len(),
            forall|i: int|
                0 <= i < old(self).items_view().len() && i != j ==> #[trigger] final(self).items_view()[i]
                    == old(self).items_view()[i],
            final(self).items_view()[j as int].key_view() == old(self).items_view()[j as int].key_view(),
            final(self).items_view()[j as int].value_view() == *final(r),
            final(self).decor_view() == old(self).decor_view(),
            final(self).implicit_view() == old(self).implicit_view(),
            final(self).dotted_view() == old(self).dotted_view(),
            final(self).position_view() == old(self).position_view(),
    {
        &mut self.items[j].value
    }
}

impl ArrayOfTables {
    /// The table at `index`, if there is one, to change it in place.
    pub fn get_mut(&mut self, index: usize) -> (r: Option<&mut Table>)
        ensures
            r is Some <==> index < old(self).values_view().len(),
            r is None ==> *final(self) == *old(self),
            r matches Some(t) ==> *t == old(self).values_view()[index as int]
                && final(self).values_view() == old(self).values_view().update(
                index as int,
                *final(t),
            ),
    {
        if index < self.values.len() {
            Some(&mut self.values[index])
        } else {
            None
        }
    }

    /// Takes the tables out, leaving none.
    pub(crate) fn take_tables(&mut self) -> (v: Vec<Table>)
        ensures
            v@ == old(self).values_view(),
            final(self).values_view() == Seq::<Table>::empty(),
    {
        let mut v = Vec::new();
        std::mem::swap(&mut v, &mut self.values);
        v
    }

    /// Puts tables in, replacing the ones there were.
    pub(crate) fn set_tables(&mut self, v: Vec<Table>)
        ensures
            final(self).values_view() == v@,
    {
        self.values = v;
    }
}

impl Array {
    /// An array of the given values, with what follows the last of them, and
    /// the default decor.
    pub fn from_parts(values: Vec<Value>, trailing_comma: bool, trailing: String) -> (a: Array)
        ensures
            a.values_view() == values@,
            a.trailing_comma_view() == trailing_comma,
            a.trailing_view() == trailing@,
            a.decor_view().prefix_view() is None,
            a.decor_view().suffix_view() is None,
    {
        Array { values, trailing, trailing_comma, decor: Decor::empty() }
    }
}

impl InlineTable {
    /// An inline table of the given entries, with the whitespace inside it
    /// when empty, and the default decor.
    pub fn from_parts(items: Vec<TableKeyValue>, preamble: String, dotted: bool) -> (t: InlineTable)
        ensures
            t.items_view() == items@,
            t.preamble_view() == preamble@,
            t.dotted_view() == dotted,
            t.decor_view().prefix_view() is None,
            t.decor_view().suffix_view() is None,
    {
        InlineTable { items, preamble, decor: Decor::empty(), dotted }
    }
}

impl InlineTable {
    /// The item of the entry at `j`, to change it in place.
    pub(crate) fn item_mut(&mut self, j: usize) -> (r: &mut Item)
        requires
            j < old(self).items_view().len(),
        ensures
            *r == old(self).items_view()[j as int].value_view(),
            final(self).items_view().len() == old(self).items_view().len(),
            forall|i: int|
                0 <= i < old(self).items_view().len() && i != j ==> #[trigger] final(self).items_view()[i]
                    == old(self).items_view()[i],
            final(self).items_view()[j as int].key_view() == old(self).items_view()[j as int].key_view(),
            final(self).items_view()[j as int].value_view() == *final(r),
            final(self).preamble_view() == old(self).preamble_view(),
            final(self).decor_view() == old(self).decor_view(),
            final(self).dotted_view() == old(self).dotted_view(),
    {
        &mut self.items[j].value
    }

    /// The entries, in order.
    pub fn items(&self) -> (v: &Vec<TableKeyValue>)
        ensures
            v@ == self.items_view(),
    {
        &self.items
    }

    /// Takes the entries out, leaving none.
    pub fn take_items(&mut self) -> (items: Vec<TableKeyValue>)
        ensures
            items@ == old(self).items_view(),
            final(self).items_view() == Seq::<TableKeyValue>::empty(),
            final(self).preamble_view() == old(self).preamble_view(),
            final(self).decor_view() == old(self).decor_view(),
            final(self).dotted_view() == old(self).dotted_view(),
    {
        let mut items = Vec::new();
        std::mem::swap(&mut items, &mut self.items);
        items
    }

    /// Puts entries in, replacing the ones there were.
    pub fn set_items(&mut self, items: Vec<TableKeyValue>)
        ensures
            final(self).items_view() == items@,
            final(self).preamble_view() == old(self).preamble_view(),
            final(self).decor_view() == old(self).decor_view(),
            final(self).dotted_view() == old(self).dotted_view(),
    {
        self.items = items;
    }
}

impl TableKeyValue {
    /// A key with its item.
    pub fn new(key: Key, value: Item) -> (kv: TableKeyValue)
        ensures
            kv.key_view() == key,
            kv.value_view() == value,
    {
        TableKeyValue { key, value }
    }
}

impl TableKeyValue {
    /// The key.
    pub fn key(&self) -> (k: &Key)
        ensures
            *k == self.key_view(),
    {
        &self.key
    }

    /// The item.
    pub fn value(&self) -> (v: &Item)
        ensures
            *v == self.value_view(),
    {
        &self.value
    }
}

impl Array {
    /// The values, in order.
    pub fn values(&self) -> (v: &Vec<Value>)
        ensures
            v@ == self.values_view(),
    {
        &self.values
    }
}

impl Item {
    /// Whether the item is nothing.
    pub fn is_none(&self) -> (b: bool)
        ensures
            b == (*self is Empty),
    {
        match self {
            Item::Empty => true,
            _ => false,
        }
    }

    /// Whether the item is a value.
    pub fn is_value(&self) -> (b: bool)
        ensures
            b == (*self is Value),
    {
        match self {
            Item::Value(_) => true,
            _ => false,
        }
    }

    /// Whether the item is a table.
    pub fn is_table(&self) -> (b: bool)
        ensures
            b == (*self is Table),
    {
        match self {
            Item::Table(_) => true,
            _ => false,
        }
    }

    /// Whether the item is an array of tables.
    pub fn is_array_of_tables(&self) -> (b: bool)
        ensures
            b == (*self is ArrayOfTables),
    {
        match self {
            Item::ArrayOfTables(_) => true,
            _ => false,
        }
    }

    /// The value, if the item is one.
    pub fn as_value(&self) -> (r: Option<&Value>)
        ensures
            r is Some <==> *self is Value,
            r matches Some(v) ==> *self == Item::Value(*v),
    {
        match self {
            Item::Value(v) => Some(v),
            _ => None,
        }
    }

    /// The value, if the item is one, to change it in place.
    pub(crate) fn as_value_mut(&mut self) -> (r: Option<&mut Value>)
        ensures
            r is Some <==> *old(self) is Value,
            r is None ==> *final(self) == *old(self),
            r matches Some(v) ==> *old(self) == Item::Value(*v) && *final(self) == Item::Value(
                *final(v),
            ),
    {
        match self {
            Item::Value(v) => Some(v),
            _ => None,
        }
    }

    /// The table, if the item is one.
    pub fn as_table(&self) -> (r: Option<&Table>)
        ensures
            r is Some <==> *self is Table,
            r matches Some(t) ==> *self == Item::Table(*t),
    {
        match self {
            Item::Table(t) => Some(t),
            _ => None,
        }
    }

    /// The array of tables, if the item is one.
    pub fn as_array_of_tables(&self) -> (r: Option<&ArrayOfTables>)
        ensures
            r is Some <==> *self is ArrayOfTables,
            r matches Some(a) ==> *self == Item::ArrayOfTables(*a),
    {
        match self {
            Item::ArrayOfTables(a) => Some(a),
            _ => None,
        }
    }
}

impl Table {
    /// An empty table, shown, not made by a dotted key, with the given decor
    /// and position.
    pub fn with_decor_and_pos(decor: Decor, position: Option<usize>) -> (t: Table)
        ensures
            t.items_view() == Seq::<TableKeyValue>::empty(),
            t.decor_view() == decor,
            !t.implicit_view(),
            !t.dotted_view(),
            t.position_view() == position,
    {
        Table { items: Vec::new(), decor, implicit: false, dotted: false, position }
    }

    /// The entries, in order.
    pub fn items(&self) -> (v: &Vec<TableKeyValue>)
        ensures
            v@ == self.items_view(),
    {
        &self.items
    }

    /// Takes the entries out, leaving none.
    pub fn take_items(&mut self) -> (items: Vec<TableKeyValue>)
        ensures
            items@ == old(self).items_view(),
            final(self).items_view() == Seq::<TableKeyValue>::empty(),
            final(self).decor_view() == old(self).decor_view(),
            final(self).implicit_view() == old(self).implicit_view(),
            final(self).dotted_view() == old(self).dotted_view(),
            final(self).position_view() == old(self).position_view(),
    {
        let mut items = Vec::new();
        std::mem::swap(&mut items, &mut self.items);
        items
    }

    /// Puts entries in, replacing the ones there were.
    pub fn set_items(&mut self, items: Vec<TableKeyValue>)
        ensures
            final(self).items_view() == items@,
            final(self).decor_view() == old(self).decor_view(),
            final(self).implicit_view() == old(self).implicit_view(),
            final(self).dotted_view() == old(self).dotted_view(),
            final(self).position_view() == old(self).position_view(),
    {
        self.items = items;
    }

    /// Whether the table is hidden when it has no key/value pairs.
    pub fn is_implicit(&self) -> (b: bool)
        ensures
            b == self.implicit_view(),
    {
        self.implicit
    }

    /// Sets whether the table is hidden when it has no key/value pairs.
    pub fn set_implicit(&mut self, implicit: bool)
        ensures
            final(self).implicit_view() == implicit,
            final(self).items_view() == old(self).items_view(),
            final(self).decor_view() == old(self).decor_view(),
            final(self).dotted_view() == old(self).dotted_view(),
            final(self).position_view() == old(self).position_view(),
    {
        self.implicit = implicit;
    }

    /// Whether the table was made by a dotted key.
    pub fn is_dotted(&self) -> (b: bool)
        ensures
            b == self.dotted_view(),
    {
        self.dotted
    }

    /// Sets whether the table was made by a dotted key.
    pub fn set_dotted(&mut self, dotted: bool)
        ensures
            final(self).dotted_view() == dotted,
            final(self).items_view() == old(self).items_view(),
            final(self).decor_view() == old(self).decor_view(),
            final(self).implicit_view() == old(self).implicit_view(),
            final(self).position_view() == old(self).position_view(),
    {
        self.dotted = dotted;
    }

    /// Where the header stood in the parsed document.
    pub fn position(&self) -> (p: Option<usize>)
        ensures
            p == self.position_view(),
    {
        self.position
    }

    /// Sets where the header stands among the tables of the document.
    pub fn set_position(&mut self, position: usize)
        ensures
            final(self).position_view() == Some(position),
            final(self).items_view() == old(self).items_view(),
            final(self).decor_view() == old(self).decor_view(),
            final(self).implicit_view() == old(self).implicit_view(),
            final(self).dotted_view() == old(self).dotted_view(),
    {
        self.position = Some(position);
    }

    /// The whitespace and comments before and after the header.
    pub fn header_decor(&self) -> (d: &Decor)
        ensures
            *d == self.decor_view(),
    {
        &self.decor
    }

    /// Sets the whitespace and comments before and after the header.
    pub fn set_header_decor(&mut self, decor: Decor)
        ensures
            final(self).decor_view() == decor,
            final(self).items_view() == old(self).items_view(),
            final(self).implicit_view() == old(self).implicit_view(),
            final(self).dotted_view() == old(self).dotted_view(),
            final(self).position_view() == old(self).position_view(),
    {
        self.decor = decor;
    }
}

impl ArrayOfTables {
    /// An array of the given tables.
    pub fn from_tables(values: Vec<Table>) -> (a: ArrayOfTables)
        ensures
            a.values_view() == values@,
    {
        ArrayOfTables { values }
    }

    /// The tables, in order.
    pub fn tables(&self) -> (v: &Vec<Table>)
        ensures
            v@ == self.values_view(),
    {
        &self.values
    }

    /// The tables, in order.
    pub fn into_tables(self) -> (v: Vec<Table>)
        ensures
            v@ == self.values_view(),
    {
        self.values
    }
}

impl TableKeyValue {
    /// The key and the item.
    pub fn into_parts(self) -> (r: (Key, Item))
        ensures
            r.0 == self.key_view(),
            r.1 == self.value_view(),
    {
        (self.key, self.value)
    }
}

/// A value other than an array or an inline table.
pub open spec fn is_scalar(v: Value) -> bool {
    !(v is Array) && !(v is InlineTable)
}

impl Value {
    /// Sets the TOML text of a value other than an array or an inline table,
    /// trusted to encode it; arrays and inline tables are left as they are.
    pub fn set_repr_unchecked(&mut self, raw: &str)
        ensures
            value_model(*final(self)) == value_model(*old(self)),
            value_decor(*final(self)) == value_decor(*old(self)),
            is_scalar(*old(self)) ==> value_repr_text(*final(self)) == raw@,
            !is_scalar(*old(self)) ==> *final(self) == *old(self),
    {
        match self {
            Value::String(f) => f.set_repr_unchecked(Repr::new_unchecked(raw.to_owned())),
            Value::Integer(f) => f.set_repr_unchecked(Repr::new_unchecked(raw.to_owned())),
            Value::Float(f) => f.set_repr_unchecked(Repr::new_unchecked(raw.to_owned())),
            Value::Boolean(f) => f.set_repr_unchecked(Repr::new_unchecked(raw.to_owned())),
            Value::Datetime(f) => f.set_repr_unchecked(Repr::new_unchecked(raw.to_owned())),
            Value::Array(_) => {},
            Value::InlineTable(_) => {},
        }
    }

    /// Replaces the whitespace and comments around the value, keeping all
    /// else.
    pub fn set_decor(&mut self, d: Decor)
        ensures
            same_but_decor(*final(self), *old(self)),
            value_decor(*final(self)) == d,
    {
        match self {
            Value::String(f) => f.set_decor(d),
            Value::Integer(f) => f.set_decor(d),
            Value::Float(f) => f.set_decor(d),
            Value::Boolean(f) => f.set_decor(d),
            Value::Datetime(f) => f.set_decor(d),
            Value::Array(a) => {
                a.decor = d;
            },
            Value::InlineTable(t) => {
                t.decor = d;
            },
        }
    }

    /// Sets the whitespace and comments around the value.
    pub fn decorate(&mut self, prefix: &str, suffix: &str)
        ensures
            decorated_as(*final(self), *old(self), prefix@, suffix@),
            value_model(*final(self)) == value_model(*old(self)),
            value_repr_text(*final(self)) == value_repr_text(*old(self)),
    {
        let d = Decor::new(prefix, suffix);
        self.set_decor(d);
        proof {
            lemma_same_but_decor(*final(self), *old(self));
        }
    }

    /// The value with the given whitespace and comments around it.
    pub fn decorated(self, prefix: &str, suffix: &str) -> (v: Value)
        ensures
            decorated_as(v, self, prefix@, suffix@),
            value_model(v) == value_model(self),
            value_repr_text(v) == value_repr_text(self),
            value_decor(v).prefix_view() == Some(prefix@),
            value_decor(v).suffix_view() == Some(suffix@),
    {
        let mut v = self;
        v.decorate(prefix, suffix);
        v
    }

    /// The string, if the value is one.
    pub fn as_str(&self) -> (r: Option<&str>)
        ensures
            r is Some <==> value_model(*self) is String,
            r matches Some(t) ==> value_model(*self) == TomlValue::String(t@),
    {
        match self {
            Value::String(f) => Some(f.value().as_str()),
            _ => None,
        }
    }

    /// Whether the value is a string.
    pub fn is_str(&self) -> (b: bool)
        ensures
            b == value_model(*self) is String,
    {
        self.as_str().is_some()
    }

    /// The integer, if the value is one.
    pub fn as_integer(&self) -> (r: Option<i64>)
        ensures
            r is Some <==> value_model(*self) is Integer,
            r matches Some(n) ==> value_model(*self) == TomlValue::Integer(n as int),
    {
        match self {
            Value::Integer(f) => Some(*f.value()),
            _ => None,
        }
    }

    /// Whether the value is an integer.
    pub fn is_integer(&self) -> (b: bool)
        ensures
            b == value_model(*self) is Integer,
    {
        self.as_integer().is_some()
    }

    /// The float, if the value is one.
    pub fn as_float(&self) -> (r: Option<&Float>)
        ensures
            r is Some <==> value_model(*self) is Float,
            r matches Some(x) ==> value_model(*self) == TomlValue::Float(x@),
    {
        match self {
            Value::Float(f) => Some(f.value()),
            _ => None,
        }
    }

    /// Whether the value is a float.
    pub fn is_float(&self) -> (b: bool)
        ensures
            b == value_model(*self) is Float,
    {
        self.as_float().is_some()
    }

    /// The boolean, if the value is one.
    pub fn as_bool(&self) -> (r: Option<bool>)
        ensures
            r is Some <==> value_model(*self) is Boolean,
            r matches Some(b) ==> value_model(*self) == TomlValue::Boolean(b),
    {
        match self {
            Value::Boolean(f) => Some(*f.value()),
            _ => None,
        }
    }

    /// Whether the value is a boolean.
    pub fn is_bool(&self) -> (b: bool)
        ensures
            b == value_model(*self) is Boolean,
    {
        self.as_bool().is_some()
    }

    /// The date-time, if the value is one.
    pub fn as_date_time(&self) -> (r: Option<&Datetime>)
        ensures
            r is Some <==> value_model(*self) is Datetime,
            r matches Some(d) ==> value_model(*self) == TomlValue::Datetime(*d),
    {
        match self {
            Value::Datetime(f) => Some(f.value()),
            _ => None,
        }
    }

    /// Whether the value is a date-time.
    pub fn is_date_time(&self) -> (b: bool)
        ensures
            b == value_model(*self) is Datetime,
    {
        self.as_date_time().is_some()
    }

    /// The date-time, if the value is one with a date, a time and an offset.
    pub fn as_offset_datetime(&self) -> (r: Option<&Datetime>)
        ensures
            r is Some <==> (value_model(*self) matches TomlValue::Datetime(d) && d.date is Some
                && d.time is Some && d.offset is Some),
            r matches Some(d) ==> value_model(*self) == TomlValue::Datetime(*d),
    {
        match self.as_date_time() {
            Some(d) => if d.is_offset_date_time() {
                Some(d)
            } else {
                None
            },
            None => None,
        }
    }

    /// Whether the value is a date-time with a date, a time and an offset.
    pub fn is_offset_datetime(&self) -> (b: bool)
        ensures
            b == (value_model(*self) matches TomlValue::Datetime(d) && d.date is Some
                && d.time is Some && d.offset is Some),
    {
        self.as_offset_datetime().is_some()
    }

    /// The date-time, if the value is a date and a time without offset.
    pub fn as_local_datetime(&self) -> (r: Option<&Datetime>)
        ensures
            r is Some <==> (value_model(*self) matches TomlValue::Datetime(d) && d.date is Some
                && d.time is Some && d.offset is None),
            r matches Some(d) ==> value_model(*self) == TomlValue::Datetime(*d),
    {
        match self.as_date_time() {
            Some(d) => if d.is_local_date_time() {
                Some(d)
            } else {
                None
            },
            None => None,
        }
    }

    /// Whether the value is a date and a time without offset.
    pub fn is_local_datetime(&self) -> (b: bool)
        ensures
            b == (value_model(*self) matches TomlValue::Datetime(d) && d.date is Some
                && d.time is Some && d.offset is None),
    {
        self.as_local_datetime().is_some()
    }

    /// The date-time, if the value is a date alone.
    pub fn as_local_date(&self) -> (r: Option<&Datetime>)
        ensures
            r is Some <==> (value_model(*self) matches TomlValue::Datetime(d) && d.date is Some
                && d.time is None),
            r matches Some(d) ==> value_model(*self) == TomlValue::Datetime(*d),
    {
        match self.as_date_time() {
            Some(d) => if d.is_local_date() {
                Some(d)
            } else {
                None
            },
            None => None,
        }
    }

    /// Whether the value is a date alone.
    pub fn is_local_date(&self) -> (b: bool)
        ensures
            b == (value_model(*self) matches TomlValue::Datetime(d) && d.date is Some
                && d.time is None),
    {
        self.as_local_date().is_some()
    }

    /// The date-time, if the value is a time alone.
    pub fn as_local_time(&self) -> (r: Option<&Datetime>)
        ensures
            r is Some <==> (value_model(*self) matches TomlValue::Datetime(d) && d.date is None
                && d.time is Some),
            r matches Some(d) ==> value_model(*self) == TomlValue::Datetime(*d),
    {
        match self.as_date_time() {
            Some(d) => if d.is_local_time() {
                Some(d)
            } else {
                None
            },
            None => None,
        }
    }

    /// Whether the value is a time alone.
    pub fn is_local_time(&self) -> (b: bool)
        ensures
            b == (value_model(*self) matches TomlValue::Datetime(d) && d.date is None
                && d.time is Some),
    {
        self.as_local_time().is_some()
    }

    /// The array, if the value is one.
    pub fn as_array(&self) -> (r: Option<&Array>)
        ensures
            r is Some <==> *self is Array,
            r matches Some(a) ==> *self == Value::Array(*a),
    {
        match self {
            Value::Array(a) => Some(a),
            _ => None,
        }
    }

    /// The array, if the value is one, to change it in place.
    pub fn as_array_mut(&mut self) -> (r: Option<&mut Array>)
        ensures
            r is Some <==> *old(self) is Array,
            r is None ==> *final(self) == *old(self),
            r matches Some(a) ==> *old(self) == Value::Array(*a) && *final(self) == Value::Array(
                *final(a),
            ),
    {
        match self {
            Value::Array(a) => Some(a),
            _ => None,
        }
    }

    /// The inline table, if the value is one, to change it in place.
    pub fn as_inline_table_mut(&mut self) -> (r: Option<&mut InlineTable>)
        ensures
            r is Some <==> *old(self) is InlineTable,
            r is None ==> *final(self) == *old(self),
            r matches Some(t) ==> *old(self) == Value::InlineTable(*t) && *final(self)
                == Value::InlineTable(*final(t)),
    {
        match self {
            Value::InlineTable(t) => Some(t),
            _ => None,
        }
    }

    /// Whether the value is an array.
    pub fn is_array(&self) -> (b: bool)
        ensures
            b == *self is Array,
    {
        self.as_array().is_some()
    }

    /// The inline table, if the value is one.
    pub fn as_inline_table(&self) -> (r: Option<&InlineTable>)
        ensures
            r is Some <==> *self is InlineTable,
            r matches Some(t) ==> *self == Value::InlineTable(*t),
    {
        match self {
            Value::InlineTable(t) => Some(t),
            _ => None,
        }
    }

    /// Whether the value is an inline table.
    pub fn is_inline_table(&self) -> (b: bool)
        ensures
            b == *self is InlineTable,
    {
        self.as_inline_table().is_some()
    }

    /// The whitespace and comments around the value.
    pub fn decor(&self) -> (d: &Decor)
        ensures
            *d == value_decor(*self),
    {
        match self {
            Value::String(f) => f.decor(),
            Value::Integer(f) => f.decor(),
            Value::Float(f) => f.decor(),
            Value::Boolean(f) => f.decor(),
            Value::Datetime(f) => f.decor(),
            Value::Array(a) => &a.decor,
            Value::InlineTable(t) => &t.decor,
        }
    }

    /// The TOML text of the value, with its decor.
    pub fn to_toml_string(&self) -> (s: String)
        ensures
            s@ == value_text(*self),
    {
        let mut out = String::new();
        write_value(self, &mut out);
        out
    }
}

} // verus!
