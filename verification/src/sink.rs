//! What the relational sink is told: the names of its columns and the text
//! of its statements.
//!
//! The table of correlated records has three fixed columns and one column
//! for every attribute key that was ever seen, added when the key is first
//! seen. This module computes which columns a record still needs and spells
//! the statements; running them is the caller's part.
use crate::http::{pair_views, Attrs};
use crate::scan::same_text;
use vstd::prelude::*;
use vstd::string::StringExecFns;

verus! {

/// The text with every `from` replaced by `to`.
pub open spec fn replaced(text: Seq<char>, from: char, to: Seq<char>) -> Seq<char>
    decreases text.len(),
{
    if text.len() == 0 {
        text
    } else if text.last() == from {
        replaced(text.drop_last(), from, to) + to
    } else {
        replaced(text.drop_last(), from, to).push(text.last())
    }
}

/// The name of the column that holds the attribute `key`: `_group` for
/// `group`, which the sink reserves, and else the key with every `-`, which
/// a column name cannot hold, replaced by `_`.
pub open spec fn sanitized(key: Seq<char>) -> Seq<char> {
    if key == "group"@ {
        "_group"@
    } else {
        replaced(key, '-', "_"@)
    }
}

/// The texts joined, with `separator` between one and the next.
pub open spec fn joined(parts: Seq<Seq<char>>, separator: Seq<char>) -> Seq<char>
    decreases parts.len(),
{
    if parts.len() == 0 {
        Seq::empty()
    } else if parts.len() == 1 {
        parts[0]
    } else {
        joined(parts.drop_last(), separator) + separator + parts.last()
    }
}

/// The models of a list of strings.
pub open spec fn texts(strings: Seq<String>) -> Seq<Seq<char>> {
    Seq::new(strings.len(), |i: int| strings[i]@)
}

/// The keys of a list of attributes.
pub open spec fn keys_of(pairs: Seq<(Seq<char>, Seq<u8>)>) -> Seq<Seq<char>> {
    Seq::new(pairs.len(), |i: int| pairs[i].0)
}

/// Tells of a key whether it has no column yet.
pub open spec fn is_new(known: Seq<Seq<char>>) -> spec_fn(Seq<char>) -> bool {
    |key: Seq<char>| !known.contains(key)
}

/// The columns of a record: one for each of its keys, by its sanitized
/// name, and then the three fixed columns.
pub open spec fn columns_of(keys: Seq<Seq<char>>) -> Seq<Seq<char>> {
    Seq::new(keys.len(), |i: int| sanitized(keys[i])) + seq![
        "datetime"@,
        "mac_addr"@,
        "friendly_name"@,
    ]
}

/// The statement that makes the table, with its three fixed columns.
pub open spec fn create_table_text() -> Seq<char> {
    "CREATE TABLE http_logs (datetime TEXT, mac_addr TEXT, friendly_name TEXT);"@
}

/// The statement that adds the column of the attribute `key`.
pub open spec fn add_column_text(key: Seq<char>) -> Seq<char> {
    "ALTER TABLE http_logs ADD "@ + sanitized(key) + " TEXT"@
}

/// The statement that inserts a row with the given columns: the columns,
/// and one placeholder for each, both separated by commas.
pub open spec fn insert_text(columns: Seq<Seq<char>>) -> Seq<char> {
    "INSERT INTO http_logs ("@ + joined(columns, ","@) + ") VALUES ("@ + joined(
        Seq::new(columns.len(), |i: int| "?"@),
        ","@,
    ) + ")"@
}

/// Gives the name of the column that holds the attribute `key`.
pub fn sanitize_col_name(key: &str) -> (name: String)
    ensures
        name@ == sanitized(key@),
{
    if same_text(key, "group") {
        String::from_str("_group")
    } else {
        replace(key, '-', "_")
    }
}

/// Joins the texts, with `separator` between one and the next.
pub fn join(parts: &Vec<String>, separator: &str) -> (text: String)
    ensures
        text@ == joined(texts(parts@), separator@),
{
    let ghost all = texts(parts@);
    let mut text = String::new();
    let mut i: usize = 0;
    while i < parts.len()
        invariant
            i <= parts@.len(),
            all == texts(parts@),
            text@ == joined(all.take(i as int), separator@),
        decreases parts@.len() - i,
    {
        assert(all.take(i + 1).drop_last() =~= all.take(i as int));
        if i > 0 {
            text.append(separator);
        }
        text.append(parts[i].as_str());
        i += 1;
    }
    assert(all.take(i as int) =~= all);
    text
}

/// Spells the statement that makes the table.
pub fn create_table_statement() -> (text: String)
    ensures
        text@ == create_table_text(),
{
    String::from_str("CREATE TABLE http_logs (datetime TEXT, mac_addr TEXT, friendly_name TEXT);")
}

/// Spells the statement that adds the column of the attribute `key`.
pub fn add_column_statement(key: &str) -> (text: String)
    ensures
        text@ == add_column_text(key@),
{
    let name = sanitize_col_name(key);
    let mut text = String::from_str("ALTER TABLE http_logs ADD ");
    text.append(name.as_str());
    text.append(" TEXT");
    text
}

/// Lists the columns of a record, in the order of its attributes, with the
/// three fixed columns at the end.
pub fn insert_columns(attrs: &Attrs) -> (columns: Vec<String>)
    ensures
        texts(columns@) == columns_of(keys_of(attrs.listing())),
{
    let pairs = attrs.pairs();
    let ghost keys = keys_of(pair_views(pairs@));
    let mut columns: Vec<String> = Vec::new();
    let mut i: usize = 0;
    while i < pairs.len()
        invariant
            i <= pairs@.len(),
            keys == keys_of(pair_views(pairs@)),
            columns@.len() == i,
            forall|j: int| 0 <= j < i ==> (#[trigger] columns@[j])@ == sanitized(keys[j]),
        decreases pairs@.len() - i,
    {
        columns.push(sanitize_col_name(pairs[i].0.as_str()));
        i += 1;
    }
    columns.push(String::from_str("datetime"));
    columns.push(String::from_str("mac_addr"));
    columns.push(String::from_str("friendly_name"));
    columns
}

/// Spells the statement that inserts a row with the given columns.
pub fn insert_statement(columns: &Vec<String>) -> (text: String)
    ensures
        text@ == insert_text(texts(columns@)),
{
    let mut marks: Vec<String> = Vec::new();
    let mut i: usize = 0;
    while i < columns.len()
        invariant
            i <= columns@.len(),
            marks@.len() == i,
            forall|j: int| 0 <= j < i ==> (#[trigger] marks@[j])@ == "?"@,
        decreases columns@.len() - i,
    {
        marks.push(String::from_str("?"));
        i += 1;
    }
    assert(texts(marks@) =~= Seq::new(texts(columns@).len(), |i: int| "?"@));
    let names = join(columns, ",");
    let places = join(&marks, ",");
    let mut text = String::from_str("INSERT INTO http_logs (");
    text.append(names.as_str());
    text.append(") VALUES (");
    text.append(places.as_str());
    text.append(")");
    text
}

/// The attribute keys that have a column in the table, in the order in
/// which the columns were added.
pub struct Schema {
    keys: Vec<String>,
}

impl View for Schema {
    type V = Seq<Seq<char>>;

    closed spec fn view(&self) -> Seq<Seq<char>> {
        texts(self.keys@)
    }
}

impl Schema {
    /// The schema of the table as it is made: no attribute has a column.
    pub fn new() -> (r: Schema)
        ensures
            r@ == Seq::<Seq<char>>::empty(),
    {
        Schema { keys: Vec::new() }
    }

    /// Tells whether the attribute `key` has a column.
    pub fn has(&self, key: &str) -> (r: bool)
        ensures
            r == self@.contains(key@),
    {
        let mut i: usize = 0;
        while i < self.keys.len()
            invariant
                i <= self.keys@.len(),
                forall|j: int| 0 <= j < i ==> self@[j] != key@,
            decreases self.keys@.len() - i,
        {
            if same_text(self.keys[i].as_str(), key) {
                assert(self@[i as int] == key@);
                return true;
            }
            i += 1;
        }
        false
    }

    /// Lists the keys of a record that have no column yet, in the order of
    /// its attributes. The caller adds a column for each and then tells the
    /// schema with [`Schema::add`].
    pub fn missing(&self, attrs: &Attrs) -> (keys: Vec<String>)
        ensures
            texts(keys@) == keys_of(attrs.listing()).filter(is_new(self@)),
    {
        let pairs = attrs.pairs();
        let ghost all = keys_of(pair_views(pairs@));
        let mut keys: Vec<String> = Vec::new();
        let mut i: usize = 0;
        while i < pairs.len()
            invariant
                i <= pairs@.len(),
                all == keys_of(pair_views(pairs@)),
                texts(keys@) == all.take(i as int).filter(is_new(self@)),
            decreases pairs@.len() - i,
        {
            proof {
                reveal(Seq::filter);
                assert(all.take(i + 1).drop_last() =~= all.take(i as int));
            }
            if !self.has(pairs[i].0.as_str()) {
                keys.push(pairs[i].0.clone());
            }
            i += 1;
        }
        assert(all.take(i as int) =~= all);
        keys
    }

    /// Takes note that the attribute `key` has a column now.
    pub fn add(&mut self, key: String)
        ensures
            final(self)@ == old(self)@.push(key@),
    {
        self.keys.push(key);
    }
}

/// `str::replace` of the standard library, with a character as the pattern:
/// the text with every occurrence of `from` replaced by `to`.
#[verifier::external_body]
fn replace(text: &str, from: char, to: &str) -> (changed: String)
    ensures
        changed@ == replaced(text@, from, to@),
{
    text.replace(from, to)
}

} // verus!
