//! The section/key structure of a WireGuard configuration: `[Section]`
//! headers followed by `Key = Value` lines, with `#` and `;` comments.
use vstd::prelude::*;

use crate::error::{ErrorView, WireGuardError};
use crate::text::{
    all_ascii_alnum, all_ascii_alpha, ascii_lower_text, chars_all_alnum, chars_all_alpha,
    chars_eq_ignore_case, chars_of, eq_ignore_ascii_case, find_char, find_from, lines, lines_of,
    lower_chars, pieces_view, string_of, sub_chars, trim, trim_chars,
};


verus! {

// ---------------------------------------------------------------------------
// Key/value tables
// ---------------------------------------------------------------------------

/// A table from text keys to values in which no key occurs twice; the
/// order of its entries carries no meaning (it stands for a `HashMap`).
/// vstd specifies `HashMap` only for key types with a key model, which
/// `String` lacks, so the table is a vector under that invariant.
pub struct Table<V> {
    entries: Vec<(String, V)>,
}

/// The keys and values of one section.
pub type KeyValues = Table<String>;

impl<V: View> View for Table<V> {
    type V = Map<Seq<char>, V::V>;

    closed spec fn view(&self) -> Map<Seq<char>, V::V> {
        Map::new(
            |k: Seq<char>| exists|i: int| 0 <= i < self.entries@.len() && #[trigger] self.entries@[i].0@ == k,
            |k: Seq<char>|
                self.entries@[choose|i: int|
                    0 <= i < self.entries@.len() && #[trigger] self.entries@[i].0@ == k].1@,
        )
    }
}

impl<V: View> Table<V> {
    /// No key occurs twice.
    pub closed spec fn wf(&self) -> bool {
        forall|i: int, j: int|
            0 <= i < self.entries@.len() && 0 <= j < self.entries@.len() && i != j
                ==> #[trigger] self.entries@[i].0@ != #[trigger] self.entries@[j].0@
    }

    proof fn lemma_entry(&self, i: int)
        requires
            self.wf(),
            0 <= i < self.entries@.len(),
        ensures
            self@.contains_key(self.entries@[i].0@),
            self@[self.entries@[i].0@] == self.entries@[i].1@,
    {
        let k = self.entries@[i].0@;
        assert(exists|j: int| 0 <= j < self.entries@.len() && #[trigger] self.entries@[j].0@ == k);
        let c = choose|j: int| 0 <= j < self.entries@.len() && #[trigger] self.entries@[j].0@ == k;
        assert(c == i);
    }

    /// `v` is one of the stored values.
    pub closed spec fn has_value(&self, v: V) -> bool {
        exists|i: int| 0 <= i < self.entries@.len() && #[trigger] self.entries@[i].1 == v
    }

    /// An empty table.
    pub fn new() -> (r: Table<V>)
        ensures
            r.wf(),
            r@ == Map::<Seq<char>, V::V>::empty(),
            forall|v: V| !r.has_value(v),
    {
        let r = Table { entries: Vec::new() };
        assert(r@ =~= Map::<Seq<char>, V::V>::empty());
        r
    }

    /// The number of keys.
    pub fn len(&self) -> (r: usize)
        requires
            self.wf(),
        ensures
            r == self@.dom().len(),
    {
        proof {
            self.lemma_dom_len();
        }
        self.entries.len()
    }

    proof fn lemma_dom_len(&self)
        requires
            self.wf(),
        ensures
            self@.dom().finite(),
            self@.dom().len() == self.entries@.len(),
        decreases self.entries@.len(),
    {
        let keys = self.entries@.map_values(|e: (String, V)| e.0@);
        assert(keys.no_duplicates()) by {
            assert forall|i: int, j: int|
                0 <= i < keys.len() && 0 <= j < keys.len() && i != j implies keys[i] != keys[j] by {
                assert(self.entries@[i].0@ != self.entries@[j].0@);
            }
        }
        assert(self@.dom() =~= keys.to_set()) by {
            assert forall|k: Seq<char>| self@.dom().contains(k) implies keys.to_set().contains(k) by {
                let i = choose|i: int| 0 <= i < self.entries@.len() && #[trigger] self.entries@[i].0@ == k;
                assert(keys[i] == k);
            }
            assert forall|k: Seq<char>| keys.to_set().contains(k) implies self@.dom().contains(k) by {
                let i = choose|i: int| 0 <= i < keys.len() && keys[i] == k;
                assert(self.entries@[i].0@ == k);
            }
        }
        keys.unique_seq_to_set();
    }

    fn position(&self, key: &String) -> (r: Option<usize>)
        requires
            self.wf(),
        ensures
            r matches Some(i) ==> i < self.entries@.len() && self.entries@[i as int].0@ == key@,
            r is None ==> !self@.contains_key(key@),
    {
        let mut i: usize = 0;
        while i < self.entries.len()
            invariant
                i <= self.entries@.len(),
                forall|j: int| 0 <= j < i ==> #[trigger] self.entries@[j].0@ != key@,
            decreases self.entries@.len() - i,
        {
            if self.entries[i].0 == *key {
                return Some(i);
            }
            i = i + 1;
        }
        None
    }

    /// The value stored under `key`, if any.
    pub fn get(&self, key: &str) -> (r: Option<&V>)
        requires
            self.wf(),
        ensures
            r is Some <==> self@.contains_key(key@),
            r matches Some(v) ==> v@ == self@[key@] && self.has_value(*v),
    {
        let k = key.to_owned();
        match self.position(&k) {
            Some(i) => {
                proof {
                    self.lemma_entry(i as int);
                }
                Some(&self.entries[i].1)
            },
            None => None,
        }
    }

    /// Stores `value` under `key`, replacing an earlier value
    /// (`HashMap::insert`).
    pub fn insert(&mut self, key: String, value: V)
        requires
            old(self).wf(),
        ensures
            final(self).wf(),
            final(self)@ == old(self)@.insert(key@, value@),
            forall|v: V| #[trigger] final(self).has_value(v) ==> old(self).has_value(v) || v == value,
    {
        let ghost k = key@;
        let ghost v = value@;
        match self.position(&key) {
            Some(i) => {
                let ghost before = self.entries@;
                self.entries[i] = (key, value);
                proof {
                    assert(self.entries@ == before.update(i as int, self.entries@[i as int]));
                    assert(self.wf()) by {
                        assert forall|a: int, b: int|
                            0 <= a < self.entries@.len() && 0 <= b < self.entries@.len() && a != b
                                implies #[trigger] self.entries@[a].0@
                                != #[trigger] self.entries@[b].0@ by {
                            assert(before[a].0@ != before[b].0@);
                        }
                    }
                    self.lemma_entry(i as int);
                    assert forall|q: Seq<char>| q != k implies (self@.contains_key(q)
                        == old(self)@.contains_key(q)) by {
                        if self@.contains_key(q) {
                            let j = choose|j: int|
                                0 <= j < self.entries@.len() && #[trigger] self.entries@[j].0@ == q;
                            assert(before[j].0@ == q);
                        }
                        if old(self)@.contains_key(q) {
                            let j = choose|j: int|
                                0 <= j < before.len() && #[trigger] before[j].0@ == q;
                            assert(self.entries@[j].0@ == q);
                        }
                    }
                    assert forall|q: Seq<char>| q != k && #[trigger] self@.contains_key(q) implies self@[q]
                        == old(self)@[q] by {
                        let j = choose|j: int|
                            0 <= j < self.entries@.len() && #[trigger] self.entries@[j].0@ == q;
                        self.lemma_entry(j);
                        old(self).lemma_entry(j);
                    }
                    assert(self@ =~= old(self)@.insert(k, v));
                }
            },
            None => {
                let ghost before = self.entries@;
                self.entries.push((key, value));
                proof {
                    let n = before.len() as int;
                    assert(self.wf()) by {
                        assert forall|a: int, b: int|
                            0 <= a < self.entries@.len() && 0 <= b < self.entries@.len() && a != b
                                implies #[trigger] self.entries@[a].0@
                                != #[trigger] self.entries@[b].0@ by {
                            if a < n && b < n {
                                assert(before[a].0@ != before[b].0@);
                            } else if a == n {
                                assert(!old(self)@.contains_key(k));
                                assert(self.entries@[b] == before[b]);
                            } else {
                                assert(!old(self)@.contains_key(k));
                                assert(self.entries@[a] == before[a]);
                            }
                        }
                    }
                    self.lemma_entry(n);
                    assert forall|q: Seq<char>| q != k implies (self@.contains_key(q)
                        == old(self)@.contains_key(q)) by {
                        if self@.contains_key(q) {
                            let j = choose|j: int|
                                0 <= j < self.entries@.len() && #[trigger] self.entries@[j].0@ == q;
                            assert(j < n);
                            assert(before[j].0@ == q);
                        }
                        if old(self)@.contains_key(q) {
                            let j = choose|j: int|
                                0 <= j < before.len() && #[trigger] before[j].0@ == q;
                            assert(self.entries@[j].0@ == q);
                        }
                    }
                    assert forall|q: Seq<char>| q != k && #[trigger] self@.contains_key(q) implies self@[q]
                        == old(self)@[q] by {
                        let j = choose|j: int|
                            0 <= j < self.entries@.len() && #[trigger] self.entries@[j].0@ == q;
                        assert(j < n);
                        self.lemma_entry(j);
                        old(self).lemma_entry(j);
                    }
                    assert(self@ =~= old(self)@.insert(k, v));
                }
            },
        }
    }

    /// Takes out the value stored under `key`, if any (`HashMap::remove`).
    pub fn remove(&mut self, key: &String) -> (r: Option<V>)
        requires
            old(self).wf(),
        ensures
            final(self).wf(),
            final(self)@ == old(self)@.remove(key@),
            r is Some <==> old(self)@.contains_key(key@),
            r matches Some(v) ==> v@ == old(self)@[key@] && old(self).has_value(v),
            forall|v: V| #[trigger] final(self).has_value(v) ==> old(self).has_value(v),
    {
        let ghost k = key@;
        match self.position(key) {
            None => {
                assert(self@ =~= old(self)@.remove(k));
                None
            },
            Some(i) => {
                proof {
                    self.lemma_entry(i as int);
                }
                let ghost before = self.entries@;
                let e = self.entries.remove(i);
                proof {
                    assert(self.entries@ == before.remove(i as int));
                    assert(self.wf()) by {
                        assert forall|a: int, b: int|
                            0 <= a < self.entries@.len() && 0 <= b < self.entries@.len() && a != b
                                implies #[trigger] self.entries@[a].0@
                                != #[trigger] self.entries@[b].0@ by {
                            let a2 = if a < i { a } else { a + 1 };
                            let b2 = if b < i { b } else { b + 1 };
                            assert(self.entries@[a] == before[a2]);
                            assert(self.entries@[b] == before[b2]);
                            assert(before[a2].0@ != before[b2].0@);
                        }
                    }
                    assert forall|q: Seq<char>| q != k implies (self@.contains_key(q)
                        == old(self)@.contains_key(q)) by {
                        if self@.contains_key(q) {
                            let j = choose|j: int|
                                0 <= j < self.entries@.len() && #[trigger] self.entries@[j].0@ == q;
                            let j2 = if j < i { j } else { j + 1 };
                            assert(before[j2].0@ == q);
                        }
                        if old(self)@.contains_key(q) {
                            let j = choose|j: int|
                                0 <= j < before.len() && #[trigger] before[j].0@ == q;
                            assert(j != i);
                            let j2 = if j < i { j } else { j - 1 };
                            assert(self.entries@[j2].0@ == q);
                        }
                    }
                    assert(!self@.contains_key(k)) by {
                        if self@.contains_key(k) {
                            let j = choose|j: int|
                                0 <= j < self.entries@.len() && #[trigger] self.entries@[j].0@ == k;
                            let j2 = if j < i { j } else { j + 1 };
                            assert(before[j2].0@ == k);
                            assert(before[i as int].0@ == k);
                        }
                    }
                    assert forall|q: Seq<char>| #[trigger] self@.contains_key(q) implies self@[q]
                        == old(self)@[q] by {
                        let j = choose|j: int|
                            0 <= j < self.entries@.len() && #[trigger] self.entries@[j].0@ == q;
                        let j2 = if j < i { j } else { j + 1 };
                        self.lemma_entry(j);
                        old(self).lemma_entry(j2);
                    }
                    assert(self@ =~= old(self)@.remove(k));
                    assert forall|v: V| #[trigger] self.has_value(v) implies old(self).has_value(v) by {
                        let j = choose|j: int| 0 <= j < self.entries@.len() && #[trigger] self.entries@[j].1 == v;
                        let j2 = if j < i { j } else { j + 1 };
                        assert(before[j2].1 == v);
                    }
                }
                Some(e.1)
            },
        }
    }
}

// ---------------------------------------------------------------------------
// Sections
// ---------------------------------------------------------------------------

/// The sections of a configuration, each a table of keys and values
/// (a `HashMap` from section name to `HashMap` from key to value).
pub struct Sections {
    table: Table<KeyValues>,
}

impl View for Sections {
    type V = Map<Seq<char>, Map<Seq<char>, Seq<char>>>;

    closed spec fn view(&self) -> Map<Seq<char>, Map<Seq<char>, Seq<char>>> {
        self.table@
    }
}

/// The table of a section, or an empty one.
pub open spec fn section_or_empty(
    m: Map<Seq<char>, Map<Seq<char>, Seq<char>>>,
    name: Seq<char>,
) -> Map<Seq<char>, Seq<char>> {
    if m.contains_key(name) {
        m[name]
    } else {
        Map::empty()
    }
}

impl Sections {
    /// No section name occurs twice, nor any key twice within a section.
    pub closed spec fn wf(&self) -> bool {
        &&& self.table.wf()
        &&& forall|v: KeyValues| #[trigger] self.table.has_value(v) ==> v.wf()
    }

    /// No sections.
    pub fn new() -> (r: Sections)
        ensures
            r.wf(),
            r@ == Map::<Seq<char>, Map<Seq<char>, Seq<char>>>::empty(),
    {
        Sections { table: Table::new() }
    }

    /// The number of sections.
    pub fn len(&self) -> (r: usize)
        requires
            self.wf(),
        ensures
            r == self@.dom().len(),
    {
        self.table.len()
    }

    /// The table of the section `name`, if there is one.
    pub fn get(&self, name: &str) -> (r: Option<&KeyValues>)
        requires
            self.wf(),
        ensures
            r is Some <==> self@.contains_key(name@),
            r matches Some(t) ==> t.wf() && t@ == self@[name@],
    {
        self.table.get(name)
    }

    /// Makes sure that a section `name` exists
    /// (`entry(name).or_insert_with(HashMap::new)`).
    pub fn add_section(&mut self, name: String)
        requires
            old(self).wf(),
        ensures
            final(self).wf(),
            final(self)@ == old(self)@.insert(name@, section_or_empty(old(self)@, name@)),
    {
        let ghost n = name@;
        match self.table.remove(&name) {
            Some(t) => {
                self.table.insert(name, t);
            },
            None => {
                self.table.insert(name, Table::new());
            },
        }
        assert(self@ =~= old(self)@.insert(n, section_or_empty(old(self)@, n)));
    }

    /// Stores `value` under `key` in section `name`, creating the section
    /// when it is missing.
    pub fn add_entry(&mut self, name: String, key: String, value: String)
        requires
            old(self).wf(),
        ensures
            final(self).wf(),
            final(self)@ == old(self)@.insert(
                name@,
                section_or_empty(old(self)@, name@).insert(key@, value@),
            ),
    {
        let ghost n = name@;
        let mut t = match self.table.remove(&name) {
            Some(t) => t,
            None => Table::new(),
        };
        t.insert(key, value);
        self.table.insert(name, t);
        assert(self@ =~= old(self)@.insert(n, section_or_empty(old(self)@, n).insert(key@, value@)));
    }
}

// ---------------------------------------------------------------------------
// Lines of the format
// ---------------------------------------------------------------------------

/// The section named by a header line `[Name]` (already trimmed): the name
/// between the brackets, trimmed, must be ASCII letters only (possibly
/// none); it is returned in lower case.
pub open spec fn section_header(line: Seq<char>) -> Option<Seq<char>> {
    if line.len() >= 2 && line[0] == '[' && line.last() == ']' {
        let name = trim(line.subrange(1, line.len() - 1));
        if all_ascii_alpha(name) {
            Some(ascii_lower_text(name))
        } else {
            None
        }
    } else {
        None
    }
}

/// The key and value of a line `Key = Value` (already trimmed), split at the
/// first `=`: the trimmed key must be non-empty ASCII letters and digits and
/// is returned in lower case; the value is trimmed.
pub open spec fn key_value(line: Seq<char>) -> Option<(Seq<char>, Seq<char>)> {
    match find_from(line, '=', 0) {
        None => None,
        Some(p) => {
            let key = trim(line.take(p));
            if key.len() == 0 || !all_ascii_alnum(key) {
                None
            } else {
                Some((ascii_lower_text(key), trim(line.skip(p + 1))))
            }
        },
    }
}

/// What has been read of a configuration: its sections and the section that
/// key/value lines currently belong to.
pub struct SectionsModel {
    pub sections: Map<Seq<char>, Map<Seq<char>, Seq<char>>>,
    pub current: Option<Seq<char>>,
}

/// Nothing read yet.
pub open spec fn sections_start() -> SectionsModel {
    SectionsModel { sections: Map::empty(), current: None }
}

/// Reads one raw line: blank lines and lines starting with `#` or `;` are
/// skipped; a header opens (or reopens) a section; a key/value line is
/// stored in the current section, a later value replacing an earlier one;
/// any other line, or a key/value line before the first header, is ignored.
pub open spec fn section_step(st: SectionsModel, raw: Seq<char>) -> SectionsModel {
    let line = trim(raw);
    if line.len() == 0 || line[0] == '#' || line[0] == ';' {
        st
    } else {
        match section_header(line) {
            Some(name) => SectionsModel {
                sections: st.sections.insert(name, section_or_empty(st.sections, name)),
                current: Some(name),
            },
            None => match (st.current, key_value(line)) {
                (Some(sec), Some(kv)) => SectionsModel {
                    sections: st.sections.insert(
                        sec,
                        section_or_empty(st.sections, sec).insert(kv.0, kv.1),
                    ),
                    current: st.current,
                },
                _ => st,
            },
        }
    }
}

/// The state after reading the lines `ls` in order.
pub open spec fn read_lines(ls: Seq<Seq<char>>) -> SectionsModel {
    ls.fold_left(sections_start(), |st: SectionsModel, l: Seq<char>| section_step(st, l))
}

/// The sections of a configuration text.
pub open spec fn sections_of(content: Seq<char>) -> Map<Seq<char>, Map<Seq<char>, Seq<char>>> {
    read_lines(lines(content)).sections
}

/// How many of the lines `ls`, trimmed, equal `target` ignoring ASCII case.
pub open spec fn count_matching(ls: Seq<Seq<char>>, target: Seq<char>) -> nat
    decreases ls.len(),
{
    if ls.len() == 0 {
        0
    } else {
        count_matching(ls.drop_last(), target) + if eq_ignore_ascii_case(
            trim(ls.last()),
            target,
        ) {
            1nat
        } else {
            0nat
        }
    }
}

/// `[name]`.
pub open spec fn header_text(name: Seq<char>) -> Seq<char> {
    seq!['['] + name + seq![']']
}

/// The number of header lines `[name]` (any ASCII case, surrounding white
/// space allowed, none inside the brackets).
pub open spec fn section_count(content: Seq<char>, name: Seq<char>) -> nat {
    count_matching(lines(content), header_text(name))
}

/// The value under `key` in `m`, trimmed, if there is one and it is not empty.
pub open spec fn optional_value(m: Map<Seq<char>, Seq<char>>, key: Seq<char>) -> Option<Seq<char>> {
    if m.contains_key(key) && trim(m[key]).len() > 0 {
        Some(trim(m[key]))
    } else {
        None
    }
}

/// The value under `key` in `m` as `optional_value` gives it, or the error
/// that names the missing key.
pub open spec fn required_value(m: Map<Seq<char>, Seq<char>>, key: Seq<char>) -> Result<Seq<char>, ErrorView> {
    match optional_value(m, key) {
        Some(v) => Ok(v),
        None => Err(ErrorView::MissingField(key)),
    }
}

fn section_header_chars(line: &[char]) -> (r: Option<Vec<char>>)
    ensures
        r matches Some(n) ==> section_header(line@) == Some(n@),
        r is None ==> section_header(line@) is None,
{
    let n = line.len();
    if n >= 2 && line[0] == '[' && line[n - 1] == ']' {
        let inner = sub_chars(line, 1, n - 1);
        let name = trim_chars(inner.as_slice());
        if chars_all_alpha(name.as_slice()) {
            Some(lower_chars(name.as_slice()))
        } else {
            None
        }
    } else {
        None
    }
}

fn key_value_chars(line: &[char]) -> (r: Option<(Vec<char>, Vec<char>)>)
    ensures
        r matches Some(kv) ==> key_value(line@) == Some((kv.0@, kv.1@)),
        r is None ==> key_value(line@) is None,
{
    match find_char(line, '=') {
        None => None,
        Some(p) => {
            let n = line.len();
            assert(p < n);
            let raw_key = sub_chars(line, 0, p);
            let key = trim_chars(raw_key.as_slice());
            if key.len() == 0 || !chars_all_alnum(key.as_slice()) {
                None
            } else {
                let raw_value = sub_chars(line, p + 1, n);
                assert(raw_key@ =~= line@.take(p as int));
                assert(raw_value@ =~= line@.skip(p + 1));
                Some((lower_chars(key.as_slice()), trim_chars(raw_value.as_slice())))
            }
        },
    }
}

/// The lower-case name of a section header line such as `[Peer]`, or `None`
/// when the line is not a header.
pub fn parse_section_header(line: &str) -> (r: Option<String>)
    ensures
        r matches Some(n) ==> section_header(line@) == Some(n@),
        r is None ==> section_header(line@) is None,
{
    let chars = chars_of(line);
    match section_header_chars(chars.as_slice()) {
        Some(name) => Some(string_of(name.as_slice())),
        None => None,
    }
}

/// The lower-case key and the trimmed value of a line `Key = Value`, or
/// `None` when the line is not one.
pub fn parse_key_value(line: &str) -> (r: Option<(String, String)>)
    ensures
        r matches Some(kv) ==> key_value(line@) == Some((kv.0@, kv.1@)),
        r is None ==> key_value(line@) is None,
{
    let chars = chars_of(line);
    match key_value_chars(chars.as_slice()) {
        Some(kv) => Some((string_of(kv.0.as_slice()), string_of(kv.1.as_slice()))),
        None => None,
    }
}

/// Reads a configuration text into its sections.
pub fn parse_sections(content: &str) -> (r: Sections)
    ensures
        r.wf(),
        r@ == sections_of(content@),
{
    let chars = chars_of(content);
    let ls = lines_of(chars.as_slice());
    let ghost all = pieces_view(ls@);
    let mut sections = Sections::new();
    let mut current: Option<String> = None;
    let mut i: usize = 0;
    assert(all.take(0) =~= Seq::<Seq<char>>::empty());
    while i < ls.len()
        invariant
            i <= ls@.len(),
            all == pieces_view(ls@),
            all == lines(content@),
            sections.wf(),
            ({
                let st = read_lines(all.take(i as int));
                &&& sections@ == st.sections
                &&& match current {
                    Some(c) => st.current == Some(c@),
                    None => st.current is None,
                }
            }),
        decreases ls@.len() - i,
    {
        let ghost prev = read_lines(all.take(i as int));
        proof {
            assert(all.take(i + 1).drop_last() =~= all.take(i as int));
            assert(all.take(i + 1).last() == ls@[i as int]@);
        }
        let line = trim_chars(ls[i].as_slice());
        if line.len() == 0 || line[0] == '#' || line[0] == ';' {
        } else {
            match section_header_chars(line.as_slice()) {
                Some(name) => {
                    let name_text = string_of(name.as_slice());
                    sections.add_section(name_text.clone());
                    current = Some(name_text);
                },
                None => {
                    match &current {
                        Some(sec) => {
                            match key_value_chars(line.as_slice()) {
                                Some(kv) => {
                                    let key = string_of(kv.0.as_slice());
                                    let value = string_of(kv.1.as_slice());
                                    sections.add_entry(sec.clone(), key, value);
                                },
                                None => {},
                            }
                        },
                        None => {},
                    }
                },
            }
        }
        i = i + 1;
    }
    assert(all.take(ls@.len() as int) =~= all);
    sections
}

/// The number of header lines `[section_name]` in `content`, compared
/// ignoring ASCII case after trimming each line.
pub fn count_sections(content: &str, section_name: &str) -> (r: usize)
    ensures
        r == section_count(content@, section_name@),
{
    let chars = chars_of(content);
    let ls = lines_of(chars.as_slice());
    let name = chars_of(section_name);
    let mut target: Vec<char> = Vec::new();
    target.push('[');
    let mut j: usize = 0;
    while j < name.len()
        invariant
            j <= name@.len(),
            target@ == seq!['['] + name@.take(j as int),
        decreases name@.len() - j,
    {
        target.push(name[j]);
        j = j + 1;
        assert(target@ =~= seq!['['] + name@.take(j as int));
    }
    target.push(']');
    assert(target@ =~= header_text(section_name@));
    let ghost all = pieces_view(ls@);
    let mut count: usize = 0;
    let mut i: usize = 0;
    while i < ls.len()
        invariant
            i <= ls@.len(),
            all == pieces_view(ls@),
            all == lines(content@),
            target@ == header_text(section_name@),
            count == count_matching(all.take(i as int), target@),
            count <= i,
        decreases ls@.len() - i,
    {
        proof {
            assert(all.take(i + 1).drop_last() =~= all.take(i as int));
            assert(all.take(i + 1).last() == ls@[i as int]@);
        }
        let line = trim_chars(ls[i].as_slice());
        if chars_eq_ignore_case(line.as_slice(), target.as_slice()) {
            count = count + 1;
        }
        i = i + 1;
    }
    assert(all.take(ls@.len() as int) =~= all);
    count
}

/// The value under `key`, trimmed, when it is present and not empty.
pub fn optional(map: &KeyValues, key: &str) -> (r: Option<String>)
    requires
        map.wf(),
    ensures
        r matches Some(v) ==> optional_value(map@, key@) == Some(v@),
        r is None ==> optional_value(map@, key@) is None,
{
    match map.get(key) {
        None => None,
        Some(v) => {
            let chars = chars_of(v.as_str());
            let t = trim_chars(chars.as_slice());
            if t.len() == 0 {
                None
            } else {
                Some(string_of(t.as_slice()))
            }
        },
    }
}

/// The value under `key` as `optional` gives it, or the error naming `key`.
pub fn required(map: &KeyValues, key: &str) -> (r: Result<String, WireGuardError>)
    requires
        map.wf(),
    ensures
        crate::error::string_result_view(r) == required_value(map@, key@),
{
    match optional(map, key) {
        Some(v) => Ok(v),
        None => Err(WireGuardError::MissingField(key.to_owned())),
    }
}

} // verus!
