//! The INI-like `info` files in which BlueZ stores a bond.
use vstd::prelude::*;
use crate::config::{last_index, lemma_last_index_bounds, lemma_last_index_push, lemma_last_index_same_keys};
use crate::text::{
    all_hex, chars_of, decimal, is_hex_digit, is_ws, lemma_trim_end_prefix, lemma_trim_piece, lemma_trim_start_suffix, push_chars, slice_range, str_eq,
    string_of, trim, trim_chars, trim_end, trim_offset, trim_start,
};

verus! {

/// One `key=value` line.
#[derive(Debug, PartialEq, Eq)]
pub struct InfoEntry {
    pub key: String,
    pub value: String,
}

/// One `[name]` section; a later entry for the same key supersedes an earlier one.
#[derive(Debug, PartialEq, Eq)]
pub struct InfoSection {
    pub name: String,
    pub entries: Vec<InfoEntry>,
}

/// The sections of a file; a later section of the same name supersedes an earlier one.
#[derive(Debug, PartialEq, Eq)]
pub struct InfoSections {
    pub sections: Vec<InfoSection>,
}

pub type EntryMap = Map<Seq<char>, Seq<char>>;

pub type SectionMap = Map<Seq<char>, EntryMap>;

pub open spec fn info_entry_key() -> spec_fn(InfoEntry) -> Seq<char> {
    |e: InfoEntry| e.key@
}

pub open spec fn info_section_key() -> spec_fn(InfoSection) -> Seq<char> {
    |s: InfoSection| s.name@
}

pub open spec fn entries_view(s: Seq<InfoEntry>) -> EntryMap {
    Map::new(
        |k: Seq<char>| last_index(s, info_entry_key(), k) >= 0,
        |k: Seq<char>| s[last_index(s, info_entry_key(), k)].value@,
    )
}

pub open spec fn sections_view(s: Seq<InfoSection>) -> SectionMap {
    Map::new(
        |k: Seq<char>| last_index(s, info_section_key(), k) >= 0,
        |k: Seq<char>| entries_view(s[last_index(s, info_section_key(), k)].entries@),
    )
}

impl View for InfoSections {
    type V = SectionMap;

    open spec fn view(&self) -> SectionMap {
        sections_view(self.sections@)
    }
}

/// The entries of section `name`, empty when there is none.
pub open spec fn section_or_empty(m: SectionMap, name: Seq<char>) -> EntryMap {
    if m.contains_key(name) {
        m[name]
    } else {
        Map::empty()
    }
}

/// The value of `key` in section `name`, if any.
pub open spec fn info_value(m: SectionMap, name: Seq<char>, key: Seq<char>) -> Option<Seq<char>> {
    if m.contains_key(name) && m[name].contains_key(key) {
        Some(m[name][key])
    } else {
        None
    }
}

fn find_entry(entries: &Vec<InfoEntry>, key: &str) -> (r: Option<usize>)
    ensures
        match r {
            Some(i) => i as int == last_index(entries@, info_entry_key(), key@) && i < entries.len(),
            None => last_index(entries@, info_entry_key(), key@) == -1,
        },
{
    let mut i: usize = entries.len();
    while i > 0
        invariant
            i <= entries.len(),
            forall|j: int| i <= j < entries.len() ==> entries@[j].key@ != key@,
        decreases i,
    {
        if str_eq(entries[i - 1].key.as_str(), key) {
            proof {
                lemma_last_index_bounds(entries@, info_entry_key(), key@);
                assert(info_entry_key()(entries@[i - 1]) == key@);
            }
            return Some(i - 1);
        }
        i = i - 1;
    }
    proof {
        lemma_last_index_bounds(entries@, info_entry_key(), key@);
        let li = last_index(entries@, info_entry_key(), key@);
        if li >= 0 {
            assert(info_entry_key()(entries@[li]) == key@);
        }
    }
    None
}

fn find_section(sections: &Vec<InfoSection>, name: &str) -> (r: Option<usize>)
    ensures
        match r {
            Some(i) => i as int == last_index(sections@, info_section_key(), name@) && i
                < sections.len(),
            None => last_index(sections@, info_section_key(), name@) == -1,
        },
{
    let mut i: usize = sections.len();
    while i > 0
        invariant
            i <= sections.len(),
            forall|j: int| i <= j < sections.len() ==> sections@[j].name@ != name@,
        decreases i,
    {
        if str_eq(sections[i - 1].name.as_str(), name) {
            proof {
                lemma_last_index_bounds(sections@, info_section_key(), name@);
                assert(info_section_key()(sections@[i - 1]) == name@);
            }
            return Some(i - 1);
        }
        i = i - 1;
    }
    proof {
        lemma_last_index_bounds(sections@, info_section_key(), name@);
        let li = last_index(sections@, info_section_key(), name@);
        if li >= 0 {
            assert(info_section_key()(sections@[li]) == name@);
        }
    }
    None
}

proof fn lemma_entries_view_push(s: Seq<InfoEntry>, x: InfoEntry)
    ensures
        entries_view(s.push(x)) == entries_view(s).insert(x.key@, x.value@),
{
    assert forall|q: Seq<char>| true implies last_index(s.push(x), info_entry_key(), q) == if x.key@
        == q {
        s.len() as int
    } else {
        last_index(s, info_entry_key(), q)
    } by {
        lemma_last_index_push(s, info_entry_key(), x, q);
    }
    assert forall|q: Seq<char>| last_index(s, info_entry_key(), q) >= 0 implies #[trigger] s.push(x)[last_index(s, info_entry_key(), q)] == s[last_index(s, info_entry_key(), q)] by {
        lemma_last_index_bounds(s, info_entry_key(), q);
    }
    assert(entries_view(s.push(x)) =~= entries_view(s).insert(x.key@, x.value@));
}

proof fn lemma_sections_view_push(s: Seq<InfoSection>, x: InfoSection)
    ensures
        sections_view(s.push(x)) == sections_view(s).insert(x.name@, entries_view(x.entries@)),
{
    assert forall|q: Seq<char>| true implies last_index(s.push(x), info_section_key(), q) == if x.name@
        == q {
        s.len() as int
    } else {
        last_index(s, info_section_key(), q)
    } by {
        lemma_last_index_push(s, info_section_key(), x, q);
    }
    assert forall|q: Seq<char>| last_index(s, info_section_key(), q) >= 0 implies #[trigger] s.push(x)[last_index(s, info_section_key(), q)] == s[last_index(s, info_section_key(), q)] by {
        lemma_last_index_bounds(s, info_section_key(), q);
    }
    assert(sections_view(s.push(x)) =~= sections_view(s).insert(x.name@, entries_view(x.entries@)));
}

/// Sets `key` to `value` in an entry list.
fn put_entry(entries: &mut Vec<InfoEntry>, key: String, value: String)
    ensures
        entries_view(final(entries)@) == entries_view(old(entries)@).insert(key@, value@),
        (forall|j: int| 0 <= j < old(entries)@.len() ==> info_entry_ok(#[trigger] old(entries)@[j]))
            && info_entry_ok(InfoEntry { key, value }) ==> forall|j: int|
            0 <= j < final(entries)@.len() ==> info_entry_ok(#[trigger] final(entries)@[j]),
{
    let ghost s0 = entries@;
    let ghost k = key@;
    match find_entry(entries, key.as_str()) {
        Some(i) => {
            let e = InfoEntry { key, value };
            entries.set(i, e);
            proof {
                lemma_last_index_bounds(s0, info_entry_key(), k);
                assert forall|j: int| 0 <= j < entries@.len() implies info_entry_key()(
                    #[trigger] entries@[j],
                ) == info_entry_key()(s0[j]) by {}
                assert forall|q: Seq<char>| true implies last_index(entries@, info_entry_key(), q)
                    == last_index(s0, info_entry_key(), q) by {
                    lemma_last_index_same_keys(entries@, s0, info_entry_key(), q);
                }
                assert forall|q: Seq<char>| #[trigger] last_index(s0, info_entry_key(), q) >= 0 && q
                    != k implies entries@[last_index(s0, info_entry_key(), q)] == s0[last_index(
                    s0,
                    info_entry_key(),
                    q,
                )] by {
                    lemma_last_index_bounds(s0, info_entry_key(), q);
                }
                assert(entries_view(entries@) =~= entries_view(s0).insert(k, e.value@));
            }
        },
        None => {
            let e = InfoEntry { key, value };
            entries.push(e);
            proof {
                lemma_entries_view_push(s0, e);
            }
        },
    }
}

impl InfoSections {
    /// No sections.
    pub fn new() -> (r: Self)
        ensures
            r@ == SectionMap::empty(),
            info_sections_ok(r.sections@),
    {
        let r = InfoSections { sections: Vec::new() };
        assert(r@ =~= SectionMap::empty());
        r
    }

    /// The value of `key` in section `section`, if any.
    pub fn get(&self, section: &str, key: &str) -> (r: Option<&String>)
        ensures
            opt_view_str(r) == info_value(self@, section@, key@),
    {
        match find_section(&self.sections, section) {
            Some(i) => {
                proof {
                    lemma_last_index_bounds(self.sections@, info_section_key(), section@);
                }
                let entries = &self.sections[i].entries;
                match find_entry(entries, key) {
                    Some(j) => {
                        proof {
                            lemma_last_index_bounds(entries@, info_entry_key(), key@);
                        }
                        Some(&entries[j].value)
                    },
                    None => None,
                }
            },
            None => None,
        }
    }

    /// Whether section `section` exists.
    pub fn has_section(&self, section: &str) -> (r: bool)
        ensures
            r == self@.contains_key(section@),
    {
        find_section(&self.sections, section).is_some()
    }

    /// Creates section `name` without entries unless it exists.
    pub fn ensure_section(&mut self, name: String)
        ensures
            final(self)@ == if old(self)@.contains_key(name@) {
                old(self)@
            } else {
                old(self)@.insert(name@, EntryMap::empty())
            },
            info_sections_ok(old(self).sections@) && !name@.contains('\n') ==> info_sections_ok(
                final(self).sections@,
            ),
    {
        if find_section(&self.sections, name.as_str()).is_none() {
            let s = InfoSection { name, entries: Vec::new() };
            let ghost s0 = self.sections@;
            self.sections.push(s);
            proof {
                lemma_sections_view_push(s0, s);
                assert(entries_view(s.entries@) =~= EntryMap::empty());
                lemma_last_index_bounds(s0, info_section_key(), s.name@);
                if info_sections_ok(s0) && !s.name@.contains('\n') {
                    let t = self.sections@;
                    assert forall|a: int| 0 <= a < t.len() implies ((#[trigger] t[a]).name@.len() > 0
                        || t[a].entries@.len() == 0) && !t[a].name@.contains('\n') by {
                        if a < s0.len() {
                            assert(t[a] == s0[a]);
                        }
                    }
                    assert forall|a: int, b: int| 0 <= a < t.len() && 0 <= b < t[a].entries@.len() implies info_entry_ok(
                        #[trigger] t[a].entries@[b],
                    ) by {
                        if a < s0.len() {
                            assert(t[a] == s0[a]);
                        }
                    }
                    assert forall|a: int, b: int| 0 <= a < b < t.len() implies (#[trigger] t[a]).name@ != (#[trigger] t[b]).name@ by {
                        assert(t[a] == s0[a]);
                        if b < s0.len() {
                            assert(t[b] == s0[b]);
                        } else {
                            assert(info_section_key()(s0[a]) != s.name@);
                        }
                    }
                }
            }
        }
    }

    /// Sets `key` to `value` in section `section`, creating the section if needed.
    pub fn set(&mut self, section: &str, key: String, value: String)
        ensures
            final(self)@ == old(self)@.insert(
                section@,
                section_or_empty(old(self)@, section@).insert(key@, value@),
            ),
            info_sections_ok(old(self).sections@) && section@.len() > 0 && !section@.contains('\n')
                && info_entry_ok(InfoEntry { key, value }) ==> info_sections_ok(final(self).sections@),
    {
        let ghost s0 = self.sections@;
        match find_section(&self.sections, section) {
            Some(i) => {
                proof {
                    lemma_last_index_bounds(s0, info_section_key(), section@);
                }
                let ghost new_entry = InfoEntry { key, value };
                let mut entries = clone_entries(&self.sections[i].entries);
                proof {
                    if info_sections_ok(s0) {
                        assert forall|j: int| 0 <= j < entries@.len() implies info_entry_ok(
                            #[trigger] entries@[j],
                        ) by {
                            assert(info_entry_ok(s0[i as int].entries@[j]));
                        }
                    }
                }
                put_entry(&mut entries, key, value);
                let name = self.sections[i].name.clone();
                let s = InfoSection { name, entries };
                self.sections.set(i, s);
                proof {
                    if info_sections_ok(s0) && section@.len() > 0 && !section@.contains('\n')
                        && info_entry_ok(new_entry) {
                        let t = self.sections@;
                        assert forall|a: int| 0 <= a < t.len() implies ((#[trigger] t[a]).name@.len() > 0
                            || t[a].entries@.len() == 0) && !t[a].name@.contains('\n') by {
                            assert(t[a].name@ == s0[a].name@);
                            if a != i {
                                assert(t[a] == s0[a]);
                            }
                        }
                        assert forall|a: int, b: int| 0 <= a < t.len() && 0 <= b < t[a].entries@.len() implies info_entry_ok(
                            #[trigger] t[a].entries@[b],
                        ) by {
                            if a != i {
                                assert(t[a] == s0[a]);
                            }
                        }
                        assert forall|a: int, b: int| 0 <= a < b < t.len() implies (#[trigger] t[a]).name@ != (#[trigger] t[b]).name@ by {
                            assert(t[a].name@ == s0[a].name@);
                            assert(t[b].name@ == s0[b].name@);
                        }
                    }
                    assert forall|j: int| 0 <= j < self.sections@.len() implies info_section_key()(
                        #[trigger] self.sections@[j],
                    ) == info_section_key()(s0[j]) by {}
                    assert forall|q: Seq<char>| true implies last_index(self.sections@, info_section_key(), q)
                        == last_index(s0, info_section_key(), q) by {
                        lemma_last_index_same_keys(self.sections@, s0, info_section_key(), q);
                    }
                    assert forall|q: Seq<char>| #[trigger] last_index(s0, info_section_key(), q) >= 0
                        && q != section@ implies self.sections@[last_index(s0, info_section_key(), q)]
                        == s0[last_index(s0, info_section_key(), q)] by {
                        lemma_last_index_bounds(s0, info_section_key(), q);
                    }
                    assert(self@ =~= old(self)@.insert(
                        section@,
                        section_or_empty(old(self)@, section@).insert(key@, value@),
                    ));
                }
            },
            None => {
                let mut entries: Vec<InfoEntry> = Vec::new();
                proof {
                    assert(entries_view(entries@) =~= EntryMap::empty());
                }
                let ghost new_entry = InfoEntry { key, value };
                put_entry(&mut entries, key, value);
                let s = InfoSection { name: string_of(chars_of(section).as_slice()), entries };
                self.sections.push(s);
                proof {
                    lemma_sections_view_push(s0, s);
                    lemma_last_index_bounds(s0, info_section_key(), section@);
                    if info_sections_ok(s0) && section@.len() > 0 && !section@.contains('\n')
                        && info_entry_ok(new_entry) {
                        let t = self.sections@;
                        assert forall|a: int| 0 <= a < t.len() implies ((#[trigger] t[a]).name@.len() > 0
                            || t[a].entries@.len() == 0) && !t[a].name@.contains('\n') by {
                            if a < s0.len() {
                                assert(t[a] == s0[a]);
                            }
                        }
                        assert forall|a: int, b: int| 0 <= a < t.len() && 0 <= b < t[a].entries@.len() implies info_entry_ok(
                            #[trigger] t[a].entries@[b],
                        ) by {
                            if a < s0.len() {
                                assert(t[a] == s0[a]);
                            }
                        }
                        assert forall|a: int, b: int| 0 <= a < b < t.len() implies (#[trigger] t[a]).name@ != (#[trigger] t[b]).name@ by {
                            assert(t[a] == s0[a]);
                            if b < s0.len() {
                                assert(t[b] == s0[b]);
                            } else {
                                assert(info_section_key()(s0[a]) != section@);
                            }
                        }
                    }
                }
            },
        }
    }
}

/// The view of an optional string reference.
pub open spec fn opt_view_str(o: Option<&String>) -> Option<Seq<char>> {
    match o {
        Some(s) => Some(s@),
        None => None,
    }
}

fn clone_entries(v: &Vec<InfoEntry>) -> (r: Vec<InfoEntry>)
    ensures
        r@ == v@,
{
    let mut r: Vec<InfoEntry> = Vec::new();
    let mut i: usize = 0;
    while i < v.len()
        invariant
            i <= v.len(),
            r@ == v@.take(i as int),
        decreases v.len() - i,
    {
        let e = InfoEntry { key: v[i].key.clone(), value: v[i].value.clone() };
        r.push(e);
        assert(r@ =~= v@.take(i + 1));
        i = i + 1;
    }
    assert(v@.take(v.len() as int) =~= v@);
    r
}


/// The index of the first `c` in `s`, or -1.
pub open spec fn find_char(s: Seq<char>, c: char) -> int
    decreases s.len(),
{
    if s.len() == 0 {
        -1
    } else if s[0] == c {
        0
    } else if find_char(s.drop_first(), c) < 0 {
        -1
    } else {
        find_char(s.drop_first(), c) + 1
    }
}

/// The lines of a text: the pieces between `\n` characters (the last may be empty).
pub open spec fn split_lines(s: Seq<char>) -> Seq<Seq<char>>
    decreases s.len(),
{
    if s.len() == 0 {
        seq![Seq::empty()]
    } else {
        let prev = split_lines(s.drop_last());
        if s.last() == '\n' {
            prev.push(Seq::empty())
        } else {
            prev.update(prev.len() - 1, prev.last().push(s.last()))
        }
    }
}

/// The reader state: the section being read and the sections so far.
pub struct InfoModel {
    pub current: Seq<char>,
    pub sections: SectionMap,
}

/// Reading one line. Blank lines and `#` comments are skipped; `[name]` starts a
/// section; `key=value` (split at the first `=`, both sides trimmed) is stored in the
/// current section, and ignored before any section.
pub open spec fn info_step(m: InfoModel, line: Seq<char>) -> InfoModel {
    let t = trim(line);
    if t.len() == 0 || t[0] == '#' {
        m
    } else if t[0] == '[' && t.last() == ']' {
        let name = t.subrange(1, t.len() - 1);
        InfoModel {
            current: name,
            sections: if m.sections.contains_key(name) {
                m.sections
            } else {
                m.sections.insert(name, EntryMap::empty())
            },
        }
    } else if find_char(t, '=') >= 0 && m.current.len() > 0 {
        let p = find_char(t, '=');
        InfoModel {
            current: m.current,
            sections: m.sections.insert(
                m.current,
                section_or_empty(m.sections, m.current).insert(
                    trim(t.take(p)),
                    trim(t.skip(p + 1)),
                ),
            ),
        }
    } else {
        m
    }
}

/// Reading lines in order from an empty state.
pub open spec fn info_fold(lines: Seq<Seq<char>>) -> InfoModel
    decreases lines.len(),
{
    if lines.len() == 0 {
        InfoModel { current: Seq::empty(), sections: SectionMap::empty() }
    } else {
        info_step(info_fold(lines.drop_last()), lines.last())
    }
}

/// The sections of an `info` file.
pub open spec fn spec_parse_info(content: Seq<char>) -> SectionMap {
    info_fold(split_lines(content)).sections
}

/// The index of the first `c` in `v`, if any.
fn find_char_exec(v: &[char], c: char) -> (r: Option<usize>)
    ensures
        match r {
            Some(i) => i == find_char(v@, c) && i < v.len(),
            None => find_char(v@, c) == -1,
        },
{
    let mut i: usize = 0;
    while i < v.len()
        invariant
            i <= v.len(),
            forall|j: int| 0 <= j < i ==> v@[j] != c,
        decreases v.len() - i,
    {
        if v[i] == c {
            proof {
                lemma_find_char_at(v@, c, i as int);
            }
            return Some(i);
        }
        i = i + 1;
    }
    proof {
        lemma_find_char_none(v@, c);
    }
    None
}

proof fn lemma_find_char_at(s: Seq<char>, c: char, i: int)
    requires
        0 <= i < s.len(),
        s[i] == c,
        forall|j: int| 0 <= j < i ==> s[j] != c,
    ensures
        find_char(s, c) == i,
    decreases i,
{
    if i > 0 {
        assert forall|j: int| 0 <= j < i - 1 implies s.drop_first()[j] != c by {
            assert(s.drop_first()[j] == s[j + 1]);
        }
        lemma_find_char_at(s.drop_first(), c, i - 1);
    }
}

proof fn lemma_find_char_none(s: Seq<char>, c: char)
    requires
        forall|j: int| 0 <= j < s.len() ==> s[j] != c,
    ensures
        find_char(s, c) == -1,
    decreases s.len(),
{
    if s.len() > 0 {
        assert forall|j: int| 0 <= j < s.drop_first().len() implies s.drop_first()[j] != c by {
            assert(s.drop_first()[j] == s[j + 1]);
        }
        lemma_find_char_none(s.drop_first(), c);
    }
}

proof fn lemma_find_char_found(s: Seq<char>, c: char)
    requires
        find_char(s, c) >= 0,
    ensures
        find_char(s, c) < s.len(),
        s[find_char(s, c)] == c,
        forall|k: int| 0 <= k < find_char(s, c) ==> s[k] != c,
    decreases s.len(),
{
    if s[0] != c {
        lemma_find_char_found(s.drop_first(), c);
        assert forall|k: int| 0 <= k < find_char(s, c) implies s[k] != c by {
            if k > 0 {
                assert(s[k] == s.drop_first()[k - 1]);
            }
        }
    }
}

/// A piece of a text without newlines has none.
proof fn lemma_piece_no_newline(s: Seq<char>, i: int, j: int)
    requires
        0 <= i <= j <= s.len(),
        !s.contains('\n'),
    ensures
        !s.subrange(i, j).contains('\n'),
{
    if s.subrange(i, j).contains('\n') {
        let k = choose|k: int| 0 <= k < j - i && s.subrange(i, j)[k] == '\n';
        assert(s[i + k] == '\n');
    }
}

/// The entry read from a trimmed line `t` that is neither a comment nor a section
/// header, split at its first `=`, reads back as written.
proof fn lemma_read_entry_ok(t: Seq<char>)
    requires
        trim(t) == t,
        t.len() > 0,
        t[0] != '#',
        !(t[0] == '[' && t.last() == ']'),
        !t.contains('\n'),
        find_char(t, '=') >= 0,
    ensures
        ({
            let p = find_char(t, '=');
            let key = trim(t.take(p));
            let value = trim(t.skip(p + 1));
            &&& info_text(key)
            &&& info_text(value)
            &&& !key.contains('=')
            &&& !(key.len() > 0 && key[0] == '#')
            &&& !(key.len() > 0 && key[0] == '[' && value.len() > 0 && value.last() == ']')
        }),
{
    let p = find_char(t, '=');
    lemma_find_char_found(t, '=');
    lemma_trimmed_ends(t);
    let x = t.take(p);
    let y = t.skip(p + 1);
    let key = trim(x);
    let value = trim(y);
    lemma_trim_piece(x);
    lemma_trim_piece(y);
    let o = trim_offset(x);
    let q = trim_offset(y);
    assert(x =~= t.subrange(0, p));
    assert(y =~= t.subrange(p + 1, t.len() as int));
    assert(key =~= t.subrange(o, o + key.len()));
    assert(value =~= t.subrange(p + 1 + q, p + 1 + q + value.len()));
    lemma_piece_no_newline(t, o, o + key.len());
    lemma_piece_no_newline(t, p + 1 + q, p + 1 + q + value.len());
    if key.contains('=') {
        let k = choose|k: int| 0 <= k < key.len() && key[k] == '=';
        assert(t[o + k] == '=');
    }
    if key.len() > 0 {
        assert(x[0] == t[0]);
        assert(trim_start(x) == x);
        assert(key[0] == t[0]);
    }
    if value.len() > 0 {
        let u = trim_start(y);
        lemma_trim_start_suffix(y);
        lemma_trim_end_prefix(u);
        assert(u.last() == y.last());
        assert(y.last() == t.last());
        assert(trim_end(u) == u);
        assert(value.last() == t.last());
    }
}

/// Reads one line into `sections` (`info_step`).
fn read_line(sections: &mut InfoSections, current: &mut Vec<char>, line: &[char])
    ensures
        (InfoModel { current: final(current)@, sections: final(sections)@ }) == info_step(
            InfoModel { current: old(current)@, sections: old(sections)@ },
            line@,
        ),
        info_sections_ok(old(sections).sections@) && !old(current)@.contains('\n') && !line@.contains('\n')
            ==> info_sections_ok(final(sections).sections@) && !final(current)@.contains('\n'),
{
    let t = trim_chars(line);
    proof {
        lemma_trim_piece(line@);
        if !line@.contains('\n') {
            lemma_piece_no_newline(line@, trim_offset(line@), trim_offset(line@) + t@.len());
        }
    }
    if t.len() == 0 || t[0] == '#' {
        return;
    }
    if t[0] == '[' && t[t.len() - 1] == ']' {
        let name = slice_range(t.as_slice(), 1, t.len() - 1);
        proof {
            if !line@.contains('\n') {
                lemma_piece_no_newline(t@, 1, t@.len() - 1);
            }
        }
        *current = name;
        let n = string_of(current.as_slice());
        sections.ensure_section(n);
        return;
    }
    let found = find_char_exec(t.as_slice(), '=');
    if found.is_some() && current.len() > 0 {
        let p = found.unwrap();
        let key = trim_chars(slice_range(t.as_slice(), 0, p).as_slice());
        let value = trim_chars(slice_range(t.as_slice(), p + 1, t.len()).as_slice());
        proof {
            assert(t@.subrange(0, p as int) =~= t@.take(p as int));
            assert(t@.subrange(p + 1, t@.len() as int) =~= t@.skip(p + 1));
            if !line@.contains('\n') {
                lemma_read_entry_ok(t@);
            }
        }
        let name = string_of(current.as_slice());
        sections.set(name.as_str(), string_of(key.as_slice()), string_of(value.as_slice()));
    }
}


proof fn lemma_split_lines_push(s: Seq<char>, c: char)
    ensures
        split_lines(s).len() >= 1,
        c == '\n' ==> split_lines(s.push(c)) == split_lines(s).push(Seq::empty()),
        c != '\n' ==> split_lines(s.push(c)).drop_last() == split_lines(s).drop_last()
            && split_lines(s.push(c)).last() == split_lines(s).last().push(c),
    decreases s.len(),
{
    assert(s.push(c).drop_last() =~= s);
    if s.len() > 0 {
        lemma_split_lines_push(s.drop_last(), s.last());
        assert(s.drop_last().push(s.last()) =~= s);
    }
    let p = split_lines(s);
    if c != '\n' {
        assert(p.update(p.len() - 1, p.last().push(c)).drop_last() =~= p.drop_last());
    }
}

impl InfoSections {
    /// Parses the text of a BlueZ `info` file (see `info_step`).
    pub fn parse(content: &str) -> (r: InfoSections)
        ensures
            r@ == spec_parse_info(content@),
            info_sections_ok(r.sections@),
    {
        let chars = chars_of(content);
        let mut sections = InfoSections::new();
        let mut current: Vec<char> = Vec::new();
        let mut line: Vec<char> = Vec::new();
        let mut i: usize = 0;
        proof {
            assert(chars@.take(0) =~= Seq::<char>::empty());
            assert(split_lines(Seq::<char>::empty()).drop_last() =~= Seq::<Seq<char>>::empty());
            assert(line@ =~= Seq::<char>::empty());
            assert(current@ =~= Seq::<char>::empty());
        }
        while i < chars.len()
            invariant
                i <= chars.len(),
                (InfoModel { current: current@, sections: sections@ }) == info_fold(
                    split_lines(chars@.take(i as int)).drop_last(),
                ),
                line@ == split_lines(chars@.take(i as int)).last(),
                info_sections_ok(sections.sections@),
                !current@.contains('\n'),
                !line@.contains('\n'),
            decreases chars.len() - i,
        {
            let c = chars[i];
            proof {
                lemma_split_lines_push(chars@.take(i as int), c);
                assert(chars@.take(i + 1) =~= chars@.take(i as int).push(c));
            }
            if c == '\n' {
                proof {
                    let lines = split_lines(chars@.take(i as int));
                    assert(lines.drop_last().push(lines.last()) =~= lines);
                    assert(lines.push(Seq::<char>::empty()).drop_last() =~= lines);
                }
                read_line(&mut sections, &mut current, line.as_slice());
                line = Vec::new();
                assert(line@ =~= Seq::<char>::empty());
            } else {
                let ghost l0 = line@;
                line.push(c);
                proof {
                    if line@.contains('\n') {
                        let k = choose|k: int| 0 <= k < line@.len() && line@[k] == '\n';
                        assert(k < l0.len() ==> l0[k] == '\n');
                    }
                }
            }
            i = i + 1;
        }
        proof {
            assert(chars@.take(chars.len() as int) =~= chars@);
            let lines = split_lines(chars@);
            lemma_split_lines_push(Seq::<char>::empty(), ' ');
            if chars@.len() > 0 {
                lemma_split_lines_push(chars@.drop_last(), chars@.last());
                assert(chars@.drop_last().push(chars@.last()) =~= chars@);
            }
        }
        read_line(&mut sections, &mut current, line.as_slice());
        sections
    }
}


/// The text of one `key=value` line per entry, in order.
pub open spec fn render_entries(s: Seq<InfoEntry>) -> Seq<char>
    decreases s.len(),
{
    if s.len() == 0 {
        Seq::empty()
    } else {
        render_entries(s.drop_last()) + s.last().key@ + seq!['='] + s.last().value@ + seq!['\n']
    }
}

/// The text of an `info` file: each section as a `[name]` line, its entries, and a
/// blank line.
pub open spec fn render_sections(s: Seq<InfoSection>) -> Seq<char>
    decreases s.len(),
{
    if s.len() == 0 {
        Seq::empty()
    } else {
        render_sections(s.drop_last()) + seq!['['] + s.last().name@ + seq![']', '\n']
            + render_entries(s.last().entries@) + seq!['\n']
    }
}

impl InfoSections {
    /// The text of the file, sections and entries in their stored order.
    pub fn render(&self) -> (r: String)
        ensures
            r@ == render_sections(self.sections@),
    {
        let mut r = String::new();
        let mut i: usize = 0;
        while i < self.sections.len()
            invariant
                i <= self.sections.len(),
                r@ == render_sections(self.sections@.take(i as int)),
            decreases self.sections.len() - i,
        {
            let s = &self.sections[i];
            let ghost before = r@;
            push_chars(&mut r, &['[']);
            push_chars(&mut r, chars_of(s.name.as_str()).as_slice());
            push_chars(&mut r, &[']', '\n']);
            let mut j: usize = 0;
            let ghost head = r@;
            while j < s.entries.len()
                invariant
                    j <= s.entries.len(),
                    r@ == head + render_entries(s.entries@.take(j as int)),
                decreases s.entries.len() - j,
            {
                let e = &s.entries[j];
                push_chars(&mut r, chars_of(e.key.as_str()).as_slice());
                push_chars(&mut r, &['=']);
                push_chars(&mut r, chars_of(e.value.as_str()).as_slice());
                push_chars(&mut r, &['\n']);
                proof {
                    let t = s.entries@.take(j + 1);
                    assert(t.drop_last() =~= s.entries@.take(j as int));
                }
                j = j + 1;
                assert(r@ =~= head + render_entries(s.entries@.take(j as int)));
            }
            assert(s.entries@.take(s.entries.len() as int) =~= s.entries@);
            push_chars(&mut r, &['\n']);
            proof {
                let t = self.sections@.take(i + 1);
                assert(t.drop_last() =~= self.sections@.take(i as int));
            }
            i = i + 1;
            assert(r@ =~= render_sections(self.sections@.take(i as int)));
        }
        assert(self.sections@.take(self.sections.len() as int) =~= self.sections@);
        r
    }
}


/// The lines of a text (`split_lines`), as character vectors.
pub fn text_lines(content: &str) -> (r: Vec<Vec<char>>)
    ensures
        r@.map_values(|l: Vec<char>| l@) == split_lines(content@),
{
    let chars = chars_of(content);
    let mut r: Vec<Vec<char>> = Vec::new();
    let mut line: Vec<char> = Vec::new();
    let mut i: usize = 0;
    proof {
        assert(chars@.take(0) =~= Seq::<char>::empty());
        assert(split_lines(Seq::<char>::empty()).drop_last() =~= Seq::<Seq<char>>::empty());
        assert(r@.map_values(|l: Vec<char>| l@) =~= Seq::<Seq<char>>::empty());
        assert(line@ =~= Seq::<char>::empty());
    }
    while i < chars.len()
        invariant
            i <= chars.len(),
            chars@ == content@,
            r@.map_values(|l: Vec<char>| l@) == split_lines(chars@.take(i as int)).drop_last(),
            line@ == split_lines(chars@.take(i as int)).last(),
        decreases chars.len() - i,
    {
        let c = chars[i];
        let ghost before = r@.map_values(|l: Vec<char>| l@);
        proof {
            lemma_split_lines_push(chars@.take(i as int), c);
            assert(chars@.take(i + 1) =~= chars@.take(i as int).push(c));
        }
        if c == '\n' {
            let done = line;
            r.push(done);
            line = Vec::new();
            proof {
                let lines = split_lines(chars@.take(i as int));
                assert(lines.drop_last().push(lines.last()) =~= lines);
                assert(lines.push(Seq::<char>::empty()).drop_last() =~= lines);
                assert(r@.map_values(|l: Vec<char>| l@) =~= before.push(lines.last()));
            }
            assert(line@ =~= Seq::<char>::empty());
        } else {
            line.push(c);
        }
        i = i + 1;
    }
    proof {
        assert(chars@.take(chars.len() as int) =~= chars@);
        lemma_split_lines_push(chars@, ' ');
        let lines = split_lines(chars@);
        assert(lines.drop_last().push(lines.last()) =~= lines);
    }
    let ghost before = r@.map_values(|l: Vec<char>| l@);
    r.push(line);
    assert(r@.map_values(|l: Vec<char>| l@) =~= before.push(split_lines(chars@).last()));
    r
}


/// A value that reads back as written when stored in a line: one line, without
/// surrounding whitespace.
pub open spec fn info_text(t: Seq<char>) -> bool {
    trim(t) == t && !t.contains('\n')
}

/// An entry that reads back as written: key and value are `info_text`, the key has no
/// `=`, and the line is neither a comment nor a section header.
pub open spec fn info_entry_ok(e: InfoEntry) -> bool {
    &&& info_text(e.key@)
    &&& info_text(e.value@)
    &&& !e.key@.contains('=')
    &&& !(e.key@.len() > 0 && e.key@[0] == '#')
    &&& !(e.key@.len() > 0 && e.key@[0] == '[' && e.value@.len() > 0 && e.value@.last() == ']')
}

/// Sections that read back as written: names of one line (an unnamed section holds
/// no entries), entries that read back, and no name twice.
pub open spec fn info_sections_ok(s: Seq<InfoSection>) -> bool {
    &&& forall|i: int|
        0 <= i < s.len() ==> ((#[trigger] s[i]).name@.len() > 0 || s[i].entries@.len() == 0)
            && !s[i].name@.contains('\n')
    &&& forall|i: int, j: int|
        0 <= i < s.len() && 0 <= j < s[i].entries@.len() ==> info_entry_ok(#[trigger] s[i].entries@[j])
    &&& forall|i: int, j: int| 0 <= i < j < s.len() ==> (#[trigger] s[i]).name@ != (#[trigger] s[j]).name@
}

pub open spec fn entry_line(e: InfoEntry) -> Seq<char> {
    e.key@ + seq!['='] + e.value@
}

pub open spec fn header_line(x: InfoSection) -> Seq<char> {
    seq!['['] + x.name@ + seq![']']
}

pub open spec fn entry_lines(e: Seq<InfoEntry>) -> Seq<Seq<char>>
    decreases e.len(),
{
    if e.len() == 0 {
        Seq::empty()
    } else {
        entry_lines(e.drop_last()).push(entry_line(e.last()))
    }
}

/// The lines of `render_sections(s)`.
pub open spec fn render_lines(s: Seq<InfoSection>) -> Seq<Seq<char>>
    decreases s.len(),
{
    if s.len() == 0 {
        Seq::empty()
    } else {
        render_lines(s.drop_last()) + seq![header_line(s.last())] + entry_lines(s.last().entries@) + seq![
            Seq::<char>::empty(),
        ]
    }
}

proof fn lemma_trim_start_len(s: Seq<char>)
    ensures
        trim_start(s).len() <= s.len(),
        s.len() > 0 && is_ws(s[0]) ==> trim_start(s).len() < s.len(),
    decreases s.len(),
{
    if s.len() > 0 && is_ws(s[0]) {
        lemma_trim_start_len(s.drop_first());
    }
}

proof fn lemma_trim_end_len(s: Seq<char>)
    ensures
        trim_end(s).len() <= s.len(),
        s.len() > 0 && is_ws(s.last()) ==> trim_end(s).len() < s.len(),
    decreases s.len(),
{
    if s.len() > 0 && is_ws(s.last()) {
        lemma_trim_end_len(s.drop_last());
    }
}

/// A nonempty text equal to its trim starts and ends with non-whitespace.
proof fn lemma_trimmed_ends(t: Seq<char>)
    requires
        trim(t) == t,
        t.len() > 0,
    ensures
        !is_ws(t[0]),
        !is_ws(t.last()),
{
    lemma_trim_start_len(t);
    lemma_trim_end_len(trim_start(t));
    if !is_ws(t[0]) {
        assert(trim_start(t) == t);
        lemma_trim_end_len(t);
    }
}

/// A text starting and ending with non-whitespace is its own trim.
proof fn lemma_trim_noop(t: Seq<char>)
    requires
        t.len() > 0,
        !is_ws(t[0]),
        !is_ws(t.last()),
    ensures
        trim(t) == t,
{
    assert(trim_start(t) == t);
    assert(trim_end(t) == t);
}

/// Appending text without a newline to text that ends a line extends the last line.
proof fn lemma_split_append_piece(p: Seq<char>, lines: Seq<Seq<char>>, l: Seq<char>)
    requires
        split_lines(p) == lines.push(Seq::<char>::empty()),
        !l.contains('\n'),
    ensures
        split_lines(p + l) == lines.push(l),
    decreases l.len(),
{
    if l.len() == 0 {
        assert(p + l =~= p);
        assert(l =~= Seq::<char>::empty());
    } else {
        let l0 = l.drop_last();
        let c = l.last();
        assert(!l0.contains('\n')) by {
            if l0.contains('\n') {
                let i = choose|i: int| 0 <= i < l0.len() && l0[i] == '\n';
                assert(l[i] == '\n');
            }
        }
        assert(c != '\n') by {
            assert(l[l.len() - 1] == c);
        }
        lemma_split_append_piece(p, lines, l0);
        assert(p + l =~= (p + l0).push(c));
        lemma_split_lines_push(p + l0, c);
        lemma_split_lines_push((p + l0).push(c), ' ');
        let x = split_lines((p + l0).push(c));
        assert(l0.push(c) =~= l);
        assert(x =~= lines.push(l)) by {
            assert(x.drop_last() == lines);
            assert(x.last() == l);
            assert forall|i: int| 0 <= i < x.len() implies x[i] == lines.push(l)[i] by {
                if i < x.len() - 1 {
                    assert(x[i] == x.drop_last()[i]);
                }
            }
        }
    }
}

/// Appending a line and its newline to text that ends a line adds that line.
proof fn lemma_split_append_line(p: Seq<char>, lines: Seq<Seq<char>>, l: Seq<char>)
    requires
        split_lines(p) == lines.push(Seq::<char>::empty()),
        !l.contains('\n'),
    ensures
        split_lines(p + l + seq!['\n']) == lines.push(l).push(Seq::<char>::empty()),
{
    lemma_split_append_piece(p, lines, l);
    assert(p + l + seq!['\n'] =~= (p + l).push('\n'));
    lemma_split_lines_push(p + l, '\n');
}

proof fn lemma_no_newline_concat(a: Seq<char>, b: Seq<char>)
    requires
        !a.contains('\n'),
        !b.contains('\n'),
    ensures
        !(a + b).contains('\n'),
{
    if (a + b).contains('\n') {
        let i = choose|i: int| 0 <= i < (a + b).len() && (a + b)[i] == '\n';
        if i < a.len() {
            assert(a[i] == '\n');
        } else {
            assert(b[i - a.len()] == '\n');
        }
    }
}

proof fn lemma_entry_line_no_newline(e: InfoEntry)
    requires
        info_entry_ok(e),
    ensures
        !entry_line(e).contains('\n'),
{
    assert(!seq!['='].contains('\n')) by {
        if seq!['='].contains('\n') {
            let i = choose|i: int| 0 <= i < 1 && seq!['='][i] == '\n';
        }
    }
    lemma_no_newline_concat(e.key@, seq!['=']);
    lemma_no_newline_concat(e.key@ + seq!['='], e.value@);
}

proof fn lemma_split_entries(p: Seq<char>, lines: Seq<Seq<char>>, e: Seq<InfoEntry>)
    requires
        split_lines(p) == lines.push(Seq::<char>::empty()),
        forall|j: int| 0 <= j < e.len() ==> info_entry_ok(#[trigger] e[j]),
    ensures
        split_lines(p + render_entries(e)) == (lines + entry_lines(e)).push(Seq::<char>::empty()),
    decreases e.len(),
{
    if e.len() == 0 {
        assert(p + render_entries(e) =~= p);
        assert(lines + entry_lines(e) =~= lines);
    } else {
        let e0 = e.drop_last();
        let x = e.last();
        assert forall|j: int| 0 <= j < e0.len() implies info_entry_ok(#[trigger] e0[j]) by {
            assert(e0[j] == e[j]);
        }
        lemma_split_entries(p, lines, e0);
        assert(info_entry_ok(e[e.len() - 1]));
        lemma_entry_line_no_newline(x);
        assert(p + render_entries(e) =~= p + render_entries(e0) + entry_line(x) + seq!['\n']);
        lemma_split_append_line(p + render_entries(e0), lines + entry_lines(e0), entry_line(x));
        assert((lines + entry_lines(e0)).push(entry_line(x)) =~= lines + entry_lines(e));
    }
}

proof fn lemma_sections_ok_prefix(s: Seq<InfoSection>)
    requires
        s.len() > 0,
        info_sections_ok(s),
    ensures
        info_sections_ok(s.drop_last()),
        s.last().name@.len() > 0 || s.last().entries@.len() == 0,
        !s.last().name@.contains('\n'),
        forall|j: int| 0 <= j < s.last().entries@.len() ==> info_entry_ok(#[trigger] s.last().entries@[j]),
        forall|i: int| 0 <= i < s.len() - 1 ==> s[i].name@ != s.last().name@,
{
    let t = s.drop_last();
    assert forall|i: int| 0 <= i < t.len() implies ((#[trigger] t[i]).name@.len() > 0 || t[i].entries@.len() == 0)
        && !t[i].name@.contains('\n') by {
        assert(t[i] == s[i]);
    }
    assert forall|i: int, j: int| 0 <= i < t.len() && 0 <= j < t[i].entries@.len() implies info_entry_ok(
        #[trigger] t[i].entries@[j],
    ) by {
        assert(t[i] == s[i]);
    }
    assert forall|i: int, j: int| 0 <= i < j < t.len() implies (#[trigger] t[i]).name@ != (#[trigger] t[j]).name@ by {
        assert(t[i] == s[i] && t[j] == s[j]);
    }
    assert(s.last() == s[s.len() - 1]);
    assert forall|j: int| 0 <= j < s.last().entries@.len() implies info_entry_ok(#[trigger] s.last().entries@[j]) by {
        assert(info_entry_ok(s[s.len() - 1].entries@[j]));
    }
}

/// The rendered text splits into the rendered lines and a final empty piece.
proof fn lemma_split_render(s: Seq<InfoSection>)
    requires
        info_sections_ok(s),
    ensures
        split_lines(render_sections(s)) == render_lines(s).push(Seq::<char>::empty()),
    decreases s.len(),
{
    if s.len() == 0 {
        assert(split_lines(Seq::<char>::empty()) =~= seq![Seq::<char>::empty()]);
        assert(render_lines(s).push(Seq::<char>::empty()) =~= seq![Seq::<char>::empty()]);
    } else {
        let s0 = s.drop_last();
        let x = s.last();
        lemma_sections_ok_prefix(s);
        lemma_split_render(s0);
        let r0 = render_sections(s0);
        let l0 = render_lines(s0);
        let h = header_line(x);
        assert(!seq!['['].contains('\n')) by {
            if seq!['['].contains('\n') {
                let i = choose|i: int| 0 <= i < 1 && seq!['['][i] == '\n';
            }
        }
        assert(!seq![']'].contains('\n')) by {
            if seq![']'].contains('\n') {
                let i = choose|i: int| 0 <= i < 1 && seq![']'][i] == '\n';
            }
        }
        lemma_no_newline_concat(seq!['['], x.name@);
        lemma_no_newline_concat(seq!['['] + x.name@, seq![']']);
        lemma_split_append_line(r0, l0, h);
        let after_header = r0 + h + seq!['\n'];
        lemma_split_entries(after_header, l0.push(h), x.entries@);
        let after_entries = after_header + render_entries(x.entries@);
        assert(!Seq::<char>::empty().contains('\n'));
        lemma_split_append_line(after_entries, l0.push(h) + entry_lines(x.entries@), Seq::<char>::empty());
        assert(render_sections(s) =~= after_entries + Seq::<char>::empty() + seq!['\n']);
        assert((l0.push(h) + entry_lines(x.entries@)).push(Seq::<char>::empty()) =~= render_lines(s));
    }
}

proof fn lemma_find_equals(key: Seq<char>, value: Seq<char>)
    requires
        !key.contains('='),
    ensures
        find_char(key + seq!['='] + value, '=') == key.len(),
{
    let t = key + seq!['='] + value;
    assert forall|j: int| 0 <= j < key.len() implies t[j] != '=' by {
        assert(t[j] == key[j]);
    }
    lemma_find_char_at(t, '=', key.len() as int);
}

/// Reading an entry line stores the entry in the current section.
proof fn lemma_step_entry(name: Seq<char>, sections: SectionMap, e: InfoEntry)
    requires
        name.len() > 0,
        info_entry_ok(e),
    ensures
        info_step(InfoModel { current: name, sections }, entry_line(e)) == (InfoModel {
            current: name,
            sections: sections.insert(name, section_or_empty(sections, name).insert(e.key@, e.value@)),
        }),
{
    let t = entry_line(e);
    let k = e.key@;
    let v = e.value@;
    assert(t.len() == k.len() + 1 + v.len());
    if k.len() > 0 {
        lemma_trimmed_ends(k);
        assert(t[0] == k[0]);
    } else {
        assert(t[0] == '=');
    }
    if v.len() > 0 {
        lemma_trimmed_ends(v);
        assert(t.last() == v.last());
    } else {
        assert(t.last() == '=');
    }
    lemma_trim_noop(t);
    lemma_find_equals(k, v);
    assert(t.take(k.len() as int) =~= k);
    assert(t.skip(k.len() + 1 as int) =~= v);
}

proof fn lemma_fold_entries(lines: Seq<Seq<char>>, name: Seq<char>, sections: SectionMap, e: Seq<InfoEntry>)
    requires
        name.len() > 0,
        info_fold(lines) == (InfoModel { current: name, sections: sections.insert(name, EntryMap::empty()) }),
        forall|j: int| 0 <= j < e.len() ==> info_entry_ok(#[trigger] e[j]),
    ensures
        info_fold(lines + entry_lines(e)) == (InfoModel {
            current: name,
            sections: sections.insert(name, entries_view(e)),
        }),
    decreases e.len(),
{
    if e.len() == 0 {
        assert(lines + entry_lines(e) =~= lines);
        assert(entries_view(e) =~= EntryMap::empty());
    } else {
        let e0 = e.drop_last();
        let x = e.last();
        assert forall|j: int| 0 <= j < e0.len() implies info_entry_ok(#[trigger] e0[j]) by {
            assert(e0[j] == e[j]);
        }
        assert(info_entry_ok(e[e.len() - 1]));
        lemma_fold_entries(lines, name, sections, e0);
        let all = lines + entry_lines(e);
        assert(all.drop_last() =~= lines + entry_lines(e0));
        assert(all.last() == entry_line(x));
        let m0 = sections.insert(name, entries_view(e0));
        lemma_step_entry(name, m0, x);
        assert(section_or_empty(m0, name) == entries_view(e0));
        assert(e0.push(x) =~= e);
        lemma_entries_view_push(e0, x);
        assert(m0.insert(name, entries_view(e0).insert(x.key@, x.value@)) =~= sections.insert(
            name,
            entries_view(e),
        ));
    }
}

/// Reading the rendered lines gives the sections, the last one current.
proof fn lemma_fold_render(s: Seq<InfoSection>)
    requires
        info_sections_ok(s),
    ensures
        info_fold(render_lines(s)) == (InfoModel {
            current: if s.len() == 0 {
                Seq::<char>::empty()
            } else {
                s.last().name@
            },
            sections: sections_view(s),
        }),
    decreases s.len(),
{
    if s.len() == 0 {
        assert(sections_view(s) =~= SectionMap::empty());
    } else {
        let s0 = s.drop_last();
        let x = s.last();
        lemma_sections_ok_prefix(s);
        lemma_fold_render(s0);
        let l0 = render_lines(s0);
        let m0 = sections_view(s0);
        lemma_last_index_bounds(s0, info_section_key(), x.name@);
        if last_index(s0, info_section_key(), x.name@) >= 0 {
            let i = last_index(s0, info_section_key(), x.name@);
            assert(s0[i] == s[i]);
        }
        assert(!m0.contains_key(x.name@));
        let h = header_line(x);
        let with_header = l0.push(h);
        assert(with_header.drop_last() =~= l0);
        let ht = h;
        assert(ht[0] == '[' && ht.last() == ']');
        lemma_trim_noop(ht);
        assert(ht.subrange(1, ht.len() - 1) =~= x.name@);
        assert(info_fold(with_header) == (InfoModel {
            current: x.name@,
            sections: m0.insert(x.name@, EntryMap::empty()),
        }));
        if x.name@.len() > 0 {
            lemma_fold_entries(with_header, x.name@, m0, x.entries@);
        } else {
            assert(with_header + entry_lines(x.entries@) =~= with_header);
            assert(entries_view(x.entries@) =~= EntryMap::empty());
        }
        let full = with_header + entry_lines(x.entries@) + seq![Seq::<char>::empty()];
        assert(full =~= render_lines(s));
        assert(full.drop_last() =~= with_header + entry_lines(x.entries@));
        assert(trim(Seq::<char>::empty()).len() == 0);
        lemma_sections_view_push(s0, x);
        assert(s0.push(x) =~= s);
    }
}

/// Rendering sections that read back as written (`info_sections_ok`) and parsing the
/// text gives the same sections.
pub proof fn lemma_render_parse(s: Seq<InfoSection>)
    requires
        info_sections_ok(s),
    ensures
        spec_parse_info(render_sections(s)) == sections_view(s),
{
    lemma_split_render(s);
    lemma_fold_render(s);
    let l = render_lines(s);
    assert(l.push(Seq::<char>::empty()).drop_last() =~= l);
    assert(trim(Seq::<char>::empty()).len() == 0);
}


/// A character that needs no care in an `info` line.
pub open spec fn plain_char(c: char) -> bool {
    ('0' <= c && c <= '9') || ('A' <= c && c <= 'Z') || ('a' <= c && c <= 'z') || c == ';' || c == '/'
}

/// A nonempty word of plain characters (names of sections and keys, numbers, keys).
pub open spec fn plain_word(w: Seq<char>) -> bool {
    w.len() > 0 && forall|i: int| 0 <= i < w.len() ==> plain_char(#[trigger] w[i])
}

pub proof fn lemma_plain_word_text(w: Seq<char>)
    requires
        plain_word(w),
    ensures
        info_text(w),
        !w.contains('='),
        !w.contains('\n'),
        w[0] != '#',
        w[0] != '[',
{
    assert(plain_char(w[0]));
    assert(plain_char(w[w.len() - 1]));
    lemma_trim_noop(w);
    if w.contains('\n') {
        let i = choose|i: int| 0 <= i < w.len() && w[i] == '\n';
        assert(plain_char(w[i]));
    }
    if w.contains('=') {
        let i = choose|i: int| 0 <= i < w.len() && w[i] == '=';
        assert(plain_char(w[i]));
    }
}

/// An entry with a plain key and a value that reads back reads back as written.
pub proof fn lemma_plain_entry(key: String, value: String)
    requires
        plain_word(key@),
        info_text(value@),
    ensures
        info_entry_ok(InfoEntry { key, value }),
{
    lemma_plain_word_text(key@);
}

/// Hexadecimal text is plain.
pub proof fn lemma_hex_plain(w: Seq<char>)
    requires
        w.len() > 0,
        all_hex(w),
    ensures
        plain_word(w),
{
    assert forall|i: int| 0 <= i < w.len() implies plain_char(#[trigger] w[i]) by {
        assert(is_hex_digit(w[i]));
    }
}

/// Decimal text is plain.
pub proof fn lemma_decimal_plain(n: nat)
    ensures
        plain_word(decimal(n)),
    decreases n,
{
    if n >= 10 {
        lemma_decimal_plain(n / 10);
        let d = decimal(n / 10);
        let w = decimal(n);
        assert forall|i: int| 0 <= i < w.len() implies plain_char(#[trigger] w[i]) by {
            if i < d.len() {
                assert(w[i] == d[i]);
            }
        }
    }
}
} // verus!
