//! The user dictionary: its entries, the edits the settings app makes to it,
//! and the tab-separated text file it is stored in.
//!
//! The file holds two comment lines and then one line per entry:
//! reading, word and part of speech separated by tabs. Reading it back skips
//! comment lines (starting with `#`) and blank lines, and gives a missing
//! part of speech the value `その他`.
use vstd::prelude::*;
use crate::text::{
    is_blank, is_blank_text, lacks, lines_of, push_char, push_text, split_at_char, split_char,
    split_lines, starts_with_char, strip_cr, is_ws, lemma_split_step, lemma_split_single,
    lemma_lines_step, lemma_lines_concat, has_break_or_tab, contains_break_or_tab, same_text,
};

verus! {

/// The text of one dictionary entry.
pub struct EntryView {
    pub reading: Seq<char>,
    pub word: Seq<char>,
    pub part_of_speech: Seq<char>,
}

/// One word the user registered: how it is read, how it is written, and
/// its part of speech.
#[derive(Debug, Clone)]
pub struct UserDictEntry {
    pub reading: String,
    pub word: String,
    pub part_of_speech: String,
}

impl View for UserDictEntry {
    type V = EntryView;

    open spec fn view(&self) -> EntryView {
        EntryView {
            reading: self.reading@,
            word: self.word@,
            part_of_speech: self.part_of_speech@,
        }
    }
}

/// The user's dictionary, entries in the order they were added.
#[derive(Debug, Clone)]
pub struct UserDictionary {
    pub entries: Vec<UserDictEntry>,
}

impl View for UserDictionary {
    type V = Seq<EntryView>;

    open spec fn view(&self) -> Seq<EntryView> {
        self.entries@.map_values(|e: UserDictEntry| e@)
    }
}

impl Default for UserDictionary {
    fn default() -> (r: Self)
        ensures
            r@ == Seq::<EntryView>::empty(),
    {
        let r = UserDictionary { entries: Vec::new() };
        assert(r@ =~= Seq::<EntryView>::empty());
        r
    }
}

pub open spec fn invalid_index_message() -> Seq<char> {
    "Invalid index"@
}

pub open spec fn missing_reading_message() -> Seq<char> {
    "読みを入力してください"@
}

pub open spec fn missing_word_message() -> Seq<char> {
    "単語を入力してください"@
}

pub open spec fn break_or_tab_message() -> Seq<char> {
    "タブや改行は使用できません"@
}

pub open spec fn comment_reading_message() -> Seq<char> {
    "読みを「#」で始めることはできません"@
}

pub open spec fn duplicate_message() -> Seq<char> {
    "同じ読みと単語の組み合わせが既に登録されています"@
}

pub open spec fn malformed_message() -> Seq<char> {
    "不正な形式の行があります"@
}

/// The part of speech of an entry whose line has only two columns.
pub open spec fn default_part_of_speech() -> Seq<char> {
    "その他"@
}

/// The first comment line of the dictionary file.
pub open spec fn file_title() -> Seq<char> {
    "# ユーザー辞書ファイル"@
}

/// The first comment line of an exported dictionary.
pub open spec fn export_title() -> Seq<char> {
    "# ユーザー辞書エクスポート"@
}

/// The second comment line, naming the columns.
pub open spec fn columns_line() -> Seq<char> {
    "# 読み<TAB>単語<TAB>品詞"@
}

/// The entry that one line of the file stands for, if any.
pub open spec fn parse_line(line: Seq<char>) -> Option<EntryView> {
    if (line.len() > 0 && line[0] == '#') || is_blank(line) {
        None
    } else {
        let parts = split_at_char(line, '\t');
        if parts.len() >= 2 {
            Some(
                EntryView {
                    reading: parts[0],
                    word: parts[1],
                    part_of_speech: if parts.len() > 2 {
                        parts[2]
                    } else {
                        default_part_of_speech()
                    },
                },
            )
        } else {
            None
        }
    }
}

/// The entries that a sequence of lines stands for, in order.
pub open spec fn parse_lines(lines: Seq<Seq<char>>) -> Seq<EntryView>
    decreases lines.len(),
{
    if lines.len() == 0 {
        Seq::empty()
    } else {
        let before = parse_lines(lines.drop_last());
        match parse_line(lines.last()) {
            Some(e) => before.push(e),
            None => before,
        }
    }
}

/// The entries read from the text of a dictionary file.
pub open spec fn parse_dictionary(content: Seq<char>) -> Seq<EntryView> {
    parse_lines(lines_of(content))
}

/// The line an entry is written as, without its line feed.
pub open spec fn entry_text(e: EntryView) -> Seq<char> {
    e.reading + seq!['\t'] + e.word + seq!['\t'] + e.part_of_speech
}

/// The lines of a sequence of entries, each ended by a line feed.
pub open spec fn entry_lines(es: Seq<EntryView>) -> Seq<char>
    decreases es.len(),
{
    if es.len() == 0 {
        Seq::empty()
    } else {
        entry_lines(es.drop_last()) + entry_text(es.last()) + seq!['\n']
    }
}

/// A dictionary text: a title comment, the column comment, then the entries.
pub open spec fn dictionary_text(title: Seq<char>, es: Seq<EntryView>) -> Seq<char> {
    title + seq!['\n'] + columns_line() + seq!['\n'] + entry_lines(es)
}

/// An entry whose line reads back as the same entry: no field holds a tab
/// or a line feed, the part of speech does not end with a carriage return,
/// the reading does not start with `#`, and not every field is blank.
pub open spec fn storable(e: EntryView) -> bool {
    &&& lacks(e.reading, '\t')
    &&& lacks(e.word, '\t')
    &&& lacks(e.part_of_speech, '\t')
    &&& lacks(e.reading, '\n')
    &&& lacks(e.word, '\n')
    &&& lacks(e.part_of_speech, '\n')
    &&& !(e.part_of_speech.len() > 0 && e.part_of_speech.last() == '\r')
    &&& !(e.reading.len() > 0 && e.reading[0] == '#')
    &&& !(is_blank(e.reading) && is_blank(e.word) && is_blank(e.part_of_speech))
}

pub open spec fn entry_option_view(r: Option<UserDictEntry>) -> Option<EntryView> {
    match r {
        Some(e) => Some(e@),
        None => None,
    }
}

/// The entry that one line of a dictionary file stands for.
fn parse_entry(line: &str) -> (r: Option<UserDictEntry>)
    ensures
        entry_option_view(r) == parse_line(line@),
{
    if starts_with_char(line, '#') || is_blank_text(line) {
        return None;
    }
    let parts = split_char(line, '\t');
    if parts.len() >= 2 {
        assert(parts.deep_view()[0] == parts@[0]@);
        assert(parts.deep_view()[1] == parts@[1]@);
        let reading = parts[0].clone();
        let word = parts[1].clone();
        let part_of_speech = if parts.len() > 2 {
            assert(parts.deep_view()[2] == parts@[2]@);
            parts[2].clone()
        } else {
            "その他".to_string()
        };
        Some(UserDictEntry { reading, word, part_of_speech })
    } else {
        None
    }
}

/// Why an entry may not be added or stored, if it may not: its reading or
/// its word is blank, a field holds a tab or a line break (the file
/// separates fields with tabs and entries with line breaks), or its reading
/// starts with `#` (which marks a comment line in the file).
pub open spec fn entry_error(e: EntryView) -> Option<Seq<char>> {
    if is_blank(e.reading) {
        Some(missing_reading_message())
    } else if is_blank(e.word) {
        Some(missing_word_message())
    } else if has_break_or_tab(e.reading) || has_break_or_tab(e.word) || has_break_or_tab(
        e.part_of_speech,
    ) {
        Some(break_or_tab_message())
    } else if e.reading.len() > 0 && e.reading[0] == '#' {
        Some(comment_reading_message())
    } else {
        None
    }
}

/// Every entry of the dictionary may be stored.
pub open spec fn all_valid(d: Seq<EntryView>) -> bool {
    forall|i: int| 0 <= i < d.len() ==> (#[trigger] entry_error(d[i])) is None
}

/// Entry `e` has the given reading and word.
pub open spec fn same_pair(e: EntryView, reading: Seq<char>, word: Seq<char>) -> bool {
    e.reading == reading && e.word == word
}

/// Some entry of `d` other than the one at `skip` has the given reading and
/// word (no entry is skipped when `skip` is past the end).
pub open spec fn has_pair_except(d: Seq<EntryView>, reading: Seq<char>, word: Seq<char>, skip: int) -> bool {
    exists|j: int| 0 <= j < d.len() && j != skip && same_pair(#[trigger] d[j], reading, word)
}

/// No two entries of `d` have the same reading and word.
pub open spec fn pairs_distinct(d: Seq<EntryView>) -> bool {
    forall|a: int, b: int|
        0 <= a < b < d.len() ==> !same_pair(#[trigger] d[a], d[b].reading, #[trigger] d[b].word)
}

/// Why an entry may not be registered in `d`, if it may not.
pub open spec fn add_error(d: Seq<EntryView>, e: EntryView) -> Option<Seq<char>> {
    if entry_error(e) is Some {
        entry_error(e)
    } else if has_pair_except(d, e.reading, e.word, d.len() as int) {
        Some(duplicate_message())
    } else {
        None
    }
}

/// Why the entry at `index` of `d` may not be replaced by `e`, if it may not.
pub open spec fn replace_error(d: Seq<EntryView>, index: int, e: EntryView) -> Option<Seq<char>> {
    if entry_error(e) is Some {
        entry_error(e)
    } else if index >= d.len() {
        Some(invalid_index_message())
    } else if has_pair_except(d, e.reading, e.word, index) {
        Some(duplicate_message())
    } else {
        None
    }
}

/// A line of an imported text that does not stand for a valid entry,
/// though it is neither a comment nor blank: it has fewer than two
/// tab-separated fields, or the entry it stands for may not be stored.
pub open spec fn malformed_line(line: Seq<char>) -> bool {
    &&& !((line.len() > 0 && line[0] == '#') || is_blank(line))
    &&& (split_at_char(line, '\t').len() < 2 || entry_error(parse_line(line)->0) is Some)
}

pub open spec fn has_malformed_line(lines: Seq<Seq<char>>) -> bool {
    exists|i: int| 0 <= i < lines.len() && malformed_line(#[trigger] lines[i])
}

fn err_text(msg: &str) -> (r: Result<(), String>)
    ensures
        r matches Err(m) && m@ == msg@,
{
    Err(msg.to_string())
}

/// Whether an entry may be added or stored, and if not, why.
pub fn validate_entry(entry: &UserDictEntry) -> (r: Result<(), String>)
    ensures
        match entry_error(entry@) {
            Some(m) => r matches Err(x) && x@ == m,
            None => r is Ok,
        },
{
    if is_blank_text(entry.reading.as_str()) {
        return err_text("読みを入力してください");
    }
    if is_blank_text(entry.word.as_str()) {
        return err_text("単語を入力してください");
    }
    if contains_break_or_tab(entry.reading.as_str()) || contains_break_or_tab(entry.word.as_str())
        || contains_break_or_tab(entry.part_of_speech.as_str()) {
        return err_text("タブや改行は使用できません");
    }
    if starts_with_char(entry.reading.as_str(), '#') {
        return err_text("読みを「#」で始めることはできません");
    }
    Ok(())
}

/// An entry that may be stored reads back from its line unchanged.
pub proof fn lemma_valid_entry_is_storable(e: EntryView)
    requires
        entry_error(e) is None,
    ensures
        storable(e),
{
    if e.part_of_speech.len() > 0 {
        assert(e.part_of_speech.last() == e.part_of_speech[e.part_of_speech.len() - 1]);
    }
}

impl UserDictionary {
    /// Reads a dictionary from the text of its file.
    pub fn parse(content: &str) -> (r: UserDictionary)
        ensures
            r@ == parse_dictionary(content@),
    {
        let lines = split_lines(content);
        let mut entries: Vec<UserDictEntry> = Vec::new();
        let n = lines.len();
        assert(entries@.map_values(|e: UserDictEntry| e@) =~= parse_lines(
            lines.deep_view().take(0),
        ));
        for i in 0..n
            invariant
                n == lines.len(),
                lines.deep_view() == lines_of(content@),
                entries@.map_values(|e: UserDictEntry| e@) == parse_lines(
                    lines.deep_view().take(i as int),
                ),
        {
            let ghost before = entries@;
            let parsed = parse_entry(lines[i].as_str());
            proof {
                let taken = lines.deep_view().take(i + 1);
                assert(taken.drop_last() =~= lines.deep_view().take(i as int));
                assert(taken.last() == lines@[i as int]@);
            }
            match parsed {
                Some(e) => {
                    entries.push(e);
                    assert(entries@.map_values(|e: UserDictEntry| e@) =~= before.map_values(
                        |e: UserDictEntry| e@,
                    ).push(e@));
                },
                None => {},
            }
        }
        assert(lines.deep_view().take(n as int) =~= lines.deep_view());
        UserDictionary { entries }
    }

    /// The text of a dictionary under the given title comment.
    fn content_with_title(&self, title: &str) -> (r: String)
        ensures
            r@ == dictionary_text(title@, self@),
    {
        let mut out = String::new();
        push_text(&mut out, title);
        push_char(&mut out, '\n');
        push_text(&mut out, "# 読み<TAB>単語<TAB>品詞");
        push_char(&mut out, '\n');
        proof {
            assert(self@.take(0) =~= Seq::<EntryView>::empty());
            assert(out@ =~= dictionary_text(title@, self@.take(0)));
        }
        let n = self.entries.len();
        for i in 0..n
            invariant
                n == self.entries.len(),
                out@ == dictionary_text(title@, self@.take(i as int)),
        {
            let e = &self.entries[i];
            push_text(&mut out, e.reading.as_str());
            push_char(&mut out, '\t');
            push_text(&mut out, e.word.as_str());
            push_char(&mut out, '\t');
            push_text(&mut out, e.part_of_speech.as_str());
            push_char(&mut out, '\n');
            proof {
                let taken = self@.take(i + 1);
                assert(taken.drop_last() =~= self@.take(i as int));
                assert(taken.last() == e@);
                assert(out@ =~= dictionary_text(title@, taken));
            }
        }
        assert(self@.take(n as int) =~= self@);
        out
    }

    /// The text that the dictionary file holds for this dictionary.
    pub fn to_file_content(&self) -> (r: String)
        ensures
            r@ == dictionary_text(file_title(), self@),
    {
        self.content_with_title("# ユーザー辞書ファイル")
    }

    /// The text of an export of this dictionary.
    pub fn to_export_content(&self) -> (r: String)
        ensures
            r@ == dictionary_text(export_title(), self@),
    {
        self.content_with_title("# ユーザー辞書エクスポート")
    }

    /// Reads an imported dictionary text, refusing it when some line that
    /// is neither a comment nor blank does not stand for a valid entry.
    pub fn parse_checked(content: &str) -> (r: Result<UserDictionary, String>)
        ensures
            has_malformed_line(lines_of(content@)) ==> (r matches Err(m) && m@ == malformed_message()),
            !has_malformed_line(lines_of(content@)) ==> (r matches Ok(d) && d@ == parse_dictionary(
                content@,
            )),
            r matches Ok(d) ==> all_valid(d@),
    {
        let lines = split_lines(content);
        let ghost all = lines.deep_view();
        let mut entries: Vec<UserDictEntry> = Vec::new();
        let n = lines.len();
        assert(entries@.map_values(|e: UserDictEntry| e@) =~= parse_lines(all.take(0)));
        for i in 0..n
            invariant
                n == lines.len(),
                all == lines.deep_view(),
                all == lines_of(content@),
                entries@.map_values(|e: UserDictEntry| e@) == parse_lines(all.take(i as int)),
                forall|k: int| 0 <= k < i ==> !malformed_line(#[trigger] all[k]),
                all_valid(entries@.map_values(|e: UserDictEntry| e@)),
        {
            let ghost before = entries@;
            let line = lines[i].as_str();
            assert(all[i as int] == line@);
            proof {
                let taken = all.take(i + 1);
                assert(taken.drop_last() =~= all.take(i as int));
                assert(taken.last() == line@);
            }
            if !(starts_with_char(line, '#') || is_blank_text(line)) {
                let parts = split_char(line, '\t');
                if parts.len() < 2 {
                    return Err("不正な形式の行があります".to_string());
                }
            }
            let parsed = parse_entry(line);
            match parsed {
                Some(e) => {
                    if validate_entry(&e).is_err() {
                        return Err("不正な形式の行があります".to_string());
                    }
                    entries.push(e);
                    assert(entries@.map_values(|e: UserDictEntry| e@) =~= before.map_values(
                        |e: UserDictEntry| e@,
                    ).push(e@));
                },
                None => {},
            }
        }
        assert(all.take(n as int) =~= all);
        Ok(UserDictionary { entries })
    }

    /// Appends the entries read from an imported dictionary text, and says
    /// how many there were; a text with a malformed line is refused and the
    /// dictionary is left as it was.
    pub fn import_content(&mut self, content: &str) -> (r: Result<usize, String>)
        ensures
            has_malformed_line(lines_of(content@)) ==> (r matches Err(m) && m@ == malformed_message()
                && final(self)@ == old(self)@),
            !has_malformed_line(lines_of(content@)) ==> (r matches Ok(count) && count
                == parse_dictionary(content@).len() && final(self)@ == old(self)@ + parse_dictionary(
                content@,
            )),
            all_valid(old(self)@) && r is Ok ==> all_valid(final(self)@),
    {
        let imported = match UserDictionary::parse_checked(content) {
            Ok(d) => d,
            Err(m) => return Err(m),
        };
        let count = imported.entries.len();
        let ghost start = self@;
        let ghost added = imported@;
        for entry in it: imported.entries
            invariant
                it.seq() == imported.entries@,
                added == imported.entries@.map_values(|e: UserDictEntry| e@),
                added == parse_dictionary(content@),
                all_valid(added),
                self@ == start + added.take(it.index() as int),
        {
            self.add_entry(entry);
            proof {
                assert(added.take(it.index() + 1) =~= added.take(it.index() as int).push(entry@));
            }
        }
        assert(added.take(added.len() as int) =~= added);
        proof {
            if all_valid(start) {
                assert forall|i: int| 0 <= i < self@.len() implies (#[trigger] entry_error(self@[i])) is None by {
                    if i < start.len() {
                        assert(self@[i] == start[i]);
                    } else {
                        assert(self@[i] == added[i - start.len()]);
                    }
                }
            }
        }
        Ok(count)
    }

    /// The position of the first entry with the given reading and word.
    pub fn find_entry(&self, reading: &str, word: &str) -> (r: Option<usize>)
        ensures
            r matches Some(i) ==> i < self@.len() && same_pair(self@[i as int], reading@, word@)
                && forall|j: int| 0 <= j < i ==> !same_pair(#[trigger] self@[j], reading@, word@),
            r is None ==> forall|j: int| 0 <= j < self@.len() ==> !same_pair(#[trigger] self@[j], reading@, word@),
    {
        let n = self.entries.len();
        for i in 0..n
            invariant
                n == self.entries.len(),
                forall|j: int| 0 <= j < i ==> !same_pair(#[trigger] self@[j], reading@, word@),
        {
            let e = &self.entries[i];
            assert(self@[i as int] == e@);
            if same_text(e.reading.as_str(), reading) && same_text(e.word.as_str(), word) {
                return Some(i);
            }
        }
        None
    }

    /// Registers a new entry: it is refused when it may not be stored, or
    /// when an entry with the same reading and word is already there.
    pub fn add_new_entry(&mut self, entry: UserDictEntry) -> (r: Result<(), String>)
        ensures
            match add_error(old(self)@, entry@) {
                Some(m) => r matches Err(x) && x@ == m && final(self)@ == old(self)@,
                None => r is Ok && final(self)@ == old(self)@.push(entry@),
            },
            all_valid(old(self)@) ==> all_valid(final(self)@),
            pairs_distinct(old(self)@) ==> pairs_distinct(final(self)@),
    {
        validate_entry(&entry)?;
        match self.find_entry(entry.reading.as_str(), entry.word.as_str()) {
            Some(i) => {
                assert(same_pair(self@[i as int], entry@.reading, entry@.word));
                return Err("同じ読みと単語の組み合わせが既に登録されています".to_string());
            },
            None => {},
        }
        let ghost before = self@;
        self.add_entry(entry);
        proof {
            assert forall|i: int| 0 <= i < self@.len() - 1 implies self@[i] == before[i] by {}
        }
        Ok(())
    }

    /// Replaces the entry at `index`: refused when the new entry may not be
    /// stored, when the index is past the end, or when another entry
    /// already has the same reading and word.
    pub fn replace_entry(&mut self, index: usize, entry: UserDictEntry) -> (r: Result<(), String>)
        ensures
            match replace_error(old(self)@, index as int, entry@) {
                Some(m) => r matches Err(x) && x@ == m && final(self)@ == old(self)@,
                None => r is Ok && final(self)@ == old(self)@.update(index as int, entry@),
            },
            all_valid(old(self)@) ==> all_valid(final(self)@),
            pairs_distinct(old(self)@) ==> pairs_distinct(final(self)@),
    {
        validate_entry(&entry)?;
        if index >= self.entries.len() {
            return Err("Invalid index".to_string());
        }
        let n = self.entries.len();
        for j in 0..n
            invariant
                n == self.entries.len(),
                index < n,
                entry_error(entry@) is None,
                *self == *old(self),
                forall|k: int| 0 <= k < j && k != index ==> !same_pair(#[trigger] self@[k], entry@.reading, entry@.word),
        {
            let e = &self.entries[j];
            assert(self@[j as int] == e@);
            if j != index && same_text(e.reading.as_str(), entry.reading.as_str()) && same_text(
                e.word.as_str(),
                entry.word.as_str(),
            ) {
                assert(same_pair(self@[j as int], entry@.reading, entry@.word));
                return Err("同じ読みと単語の組み合わせが既に登録されています".to_string());
            }
        }
        let ghost before = self@;
        let r = self.update_entry(index, entry);
        proof {
            assert forall|k: int| 0 <= k < self@.len() && k != index implies self@[k] == before[k] by {}
        }
        r
    }

    /// Adds an entry at the end.
    pub fn add_entry(&mut self, entry: UserDictEntry)
        ensures
            final(self)@ == old(self)@.push(entry@),
    {
        let ghost before = self.entries@;
        self.entries.push(entry);
        assert(self.entries@.map_values(|e: UserDictEntry| e@) =~= before.map_values(
            |e: UserDictEntry| e@,
        ).push(entry@));
    }

    /// Removes the entry at `index`; an index past the end is refused and
    /// leaves the dictionary as it was.
    pub fn remove_entry(&mut self, index: usize) -> (r: Result<(), String>)
        ensures
            index < old(self)@.len() ==> r is Ok && final(self)@ == old(self)@.remove(index as int),
            index >= old(self)@.len() ==> (r matches Err(m) && m@ == invalid_index_message()
                && final(self)@ == old(self)@),
    {
        if index >= self.entries.len() {
            return Err("Invalid index".to_string());
        }
        let ghost before = self.entries@;
        self.entries.remove(index);
        assert(self.entries@.map_values(|e: UserDictEntry| e@) =~= before.map_values(
            |e: UserDictEntry| e@,
        ).remove(index as int));
        Ok(())
    }

    /// Replaces the entry at `index`; an index past the end is refused and
    /// leaves the dictionary as it was.
    pub fn update_entry(&mut self, index: usize, entry: UserDictEntry) -> (r: Result<(), String>)
        ensures
            index < old(self)@.len() ==> r is Ok && final(self)@ == old(self)@.update(
                index as int,
                entry@,
            ),
            index >= old(self)@.len() ==> (r matches Err(m) && m@ == invalid_index_message()
                && final(self)@ == old(self)@),
    {
        if index >= self.entries.len() {
            return Err("Invalid index".to_string());
        }
        let ghost before = self.entries@;
        let ghost v = entry@;
        self.entries[index] = entry;
        assert(self.entries@.map_values(|e: UserDictEntry| e@) =~= before.map_values(
            |e: UserDictEntry| e@,
        ).update(index as int, v));
        Ok(())
    }
}

pub proof fn lemma_parse_lines_concat(a: Seq<Seq<char>>, b: Seq<Seq<char>>)
    ensures
        parse_lines(a + b) == parse_lines(a) + parse_lines(b),
    decreases b.len(),
{
    if b.len() == 0 {
        assert(a + b =~= a);
        assert(parse_lines(a) + parse_lines(b) =~= parse_lines(a));
    } else {
        assert((a + b).drop_last() =~= a + b.drop_last());
        assert((a + b).last() == b.last());
        lemma_parse_lines_concat(a, b.drop_last());
        match parse_line(b.last()) {
            Some(e) => {
                assert(parse_lines(a + b) =~= parse_lines(a) + parse_lines(b));
            },
            None => {},
        }
    }
}

/// The line of a storable entry holds no line feed and does not end with a
/// carriage return.
proof fn lemma_entry_text_is_one_line(e: EntryView)
    requires
        storable(e),
    ensures
        lacks(entry_text(e), '\n'),
        strip_cr(entry_text(e)) == entry_text(e),
{
    let t = entry_text(e);
    let r = e.reading;
    let w = e.word;
    let p = e.part_of_speech;
    assert forall|i: int| 0 <= i < t.len() implies #[trigger] t[i] != '\n' by {
        if i < r.len() {
            assert(t[i] == r[i]);
        } else if i == r.len() {
            assert(t[i] == '\t');
        } else if i < r.len() + 1 + w.len() {
            assert(t[i] == w[i - r.len() - 1]);
        } else if i == r.len() + 1 + w.len() {
            assert(t[i] == '\t');
        } else {
            assert(t[i] == p[i - r.len() - 2 - w.len()]);
        }
    }
    if p.len() > 0 {
        assert(t.last() == p.last());
    } else {
        assert(t.last() == '\t');
    }
}

/// The line of a storable entry reads back as that entry.
proof fn lemma_entry_text_parses(e: EntryView)
    requires
        storable(e),
    ensures
        parse_line(entry_text(e)) == Some(e),
{
    let t = entry_text(e);
    let r = e.reading;
    let w = e.word;
    let p = e.part_of_speech;
    assert(t =~= r + seq!['\t'] + (w + seq!['\t'] + p));
    lemma_split_step(r, w + seq!['\t'] + p, '\t');
    lemma_split_step(w, p, '\t');
    lemma_split_single(p, '\t');
    let parts = split_at_char(t, '\t');
    assert(parts =~= seq![r, w, p]);
    if r.len() > 0 {
        assert(t[0] == r[0]);
    } else {
        assert(t[0] == '\t');
    }
    if !is_blank(r) {
        let i = choose|i: int| 0 <= i < r.len() && !is_ws(#[trigger] r[i]);
        assert(t[i] == r[i]);
    } else if !is_blank(w) {
        let i = choose|i: int| 0 <= i < w.len() && !is_ws(#[trigger] w[i]);
        assert(t[r.len() + 1 + i] == w[i]);
    } else {
        let i = choose|i: int| 0 <= i < p.len() && !is_ws(#[trigger] p[i]);
        assert(t[r.len() + 2 + w.len() + i] == p[i]);
    }
}

pub open spec fn entry_texts(es: Seq<EntryView>) -> Seq<Seq<char>> {
    es.map_values(|e: EntryView| entry_text(e))
}

proof fn lemma_entry_lines_end(es: Seq<EntryView>)
    ensures
        entry_lines(es).len() == 0 || entry_lines(es).last() == '\n',
{
    if es.len() > 0 {
        let t = entry_lines(es.drop_last()) + entry_text(es.last());
        assert(entry_lines(es) == t + seq!['\n']);
        assert((t + seq!['\n']).last() == '\n');
    }
}

/// Each storable entry's line comes back as one line.
proof fn lemma_lines_of_entries(es: Seq<EntryView>)
    requires
        forall|i: int| 0 <= i < es.len() ==> storable(#[trigger] es[i]),
    ensures
        lines_of(entry_lines(es)) == entry_texts(es),
    decreases es.len(),
{
    if es.len() == 0 {
        assert(entry_lines(es) =~= Seq::<char>::empty());
        assert(entry_texts(es) =~= Seq::<Seq<char>>::empty());
    } else {
        let front = es.drop_last();
        let e = es.last();
        assert(storable(es[es.len() - 1]));
        assert forall|i: int| 0 <= i < front.len() implies storable(#[trigger] front[i]) by {
            assert(front[i] == es[i]);
        }
        lemma_lines_of_entries(front);
        lemma_entry_lines_end(front);
        lemma_entry_text_is_one_line(e);
        let tail = entry_text(e) + seq!['\n'];
        assert(entry_lines(es) =~= entry_lines(front) + tail);
        lemma_lines_concat(entry_lines(front), tail);
        assert(tail =~= entry_text(e) + seq!['\n'] + Seq::<char>::empty());
        lemma_lines_step(entry_text(e), Seq::<char>::empty());
        assert(lines_of(Seq::<char>::empty()) =~= Seq::<Seq<char>>::empty());
        assert(entry_texts(es) =~= entry_texts(front) + seq![entry_text(e)]);
    }
}

/// The lines of storable entries read back as those entries.
proof fn lemma_parse_entry_texts(es: Seq<EntryView>)
    requires
        forall|i: int| 0 <= i < es.len() ==> storable(#[trigger] es[i]),
    ensures
        parse_lines(entry_texts(es)) == es,
    decreases es.len(),
{
    if es.len() == 0 {
        assert(entry_texts(es) =~= Seq::<Seq<char>>::empty());
    } else {
        let front = es.drop_last();
        assert(storable(es[es.len() - 1]));
        assert forall|i: int| 0 <= i < front.len() implies storable(#[trigger] front[i]) by {
            assert(front[i] == es[i]);
        }
        lemma_parse_entry_texts(front);
        lemma_entry_text_parses(es.last());
        assert(entry_texts(es).drop_last() =~= entry_texts(front));
        assert(entry_texts(es).last() == entry_text(es.last()));
        assert(es =~= front.push(es.last()));
    }
}

/// A comment line: it starts with `#`, holds no line feed and does not end
/// with a carriage return.
pub open spec fn comment_line(s: Seq<char>) -> bool {
    &&& s.len() > 0
    &&& s[0] == '#'
    &&& lacks(s, '\n')
    &&& s.last() != '\r'
}

proof fn lemma_columns_line_is_comment()
    ensures
        comment_line(columns_line()),
{
    reveal_strlit("# 読み<TAB>単語<TAB>品詞");
}

/// Text under a comment title reads back as the storable entries written
/// under it.
proof fn lemma_titled_text_reads_back(title: Seq<char>, es: Seq<EntryView>)
    requires
        comment_line(title),
        forall|i: int| 0 <= i < es.len() ==> storable(#[trigger] es[i]),
    ensures
        parse_dictionary(dictionary_text(title, es)) == es,
{
    let cols = columns_line();
    lemma_columns_line_is_comment();
    let body = entry_lines(es);
    let text = dictionary_text(title, es);
    assert(text =~= title + seq!['\n'] + (cols + seq!['\n'] + body));
    lemma_lines_step(title, cols + seq!['\n'] + body);
    lemma_lines_step(cols, body);
    assert(strip_cr(title) == title);
    assert(strip_cr(cols) == cols);
    lemma_lines_of_entries(es);
    assert(lines_of(text) =~= seq![title, cols] + entry_texts(es));
    lemma_parse_lines_concat(seq![title, cols], entry_texts(es));
    assert(parse_line(title) is None);
    assert(parse_line(cols) is None);
    assert(seq![title, cols].drop_last() =~= seq![title]);
    assert(seq![title, cols].last() == cols);
    assert(seq![title].drop_last() =~= Seq::<Seq<char>>::empty());
    assert(seq![title].last() == title);
    assert(parse_lines(Seq::<Seq<char>>::empty()) =~= Seq::<EntryView>::empty());
    assert(parse_lines(seq![title]) =~= Seq::<EntryView>::empty());
    assert(parse_lines(seq![title, cols]) =~= Seq::<EntryView>::empty());
    lemma_parse_entry_texts(es);
    assert(parse_lines(seq![title, cols]) + es =~= es);
}

/// Saving a dictionary and loading it again gives back the same entries,
/// when every entry is storable.
pub proof fn lemma_saved_dictionary_reads_back(es: Seq<EntryView>)
    requires
        forall|i: int| 0 <= i < es.len() ==> storable(#[trigger] es[i]),
    ensures
        parse_dictionary(dictionary_text(file_title(), es)) == es,
{
    reveal_strlit("# ユーザー辞書ファイル");
    lemma_titled_text_reads_back(file_title(), es);
}

/// Exporting a dictionary and importing the export into an empty
/// dictionary gives back the same entries, when every entry is storable.
pub proof fn lemma_exported_dictionary_reads_back(es: Seq<EntryView>)
    requires
        forall|i: int| 0 <= i < es.len() ==> storable(#[trigger] es[i]),
    ensures
        parse_dictionary(dictionary_text(export_title(), es)) == es,
{
    reveal_strlit("# ユーザー辞書エクスポート");
    lemma_titled_text_reads_back(export_title(), es);
}

/// Removing the entry that was just added gives back the dictionary as it
/// was before the addition.
pub proof fn lemma_remove_undoes_add(d: Seq<EntryView>, e: EntryView)
    ensures
        d.push(e).remove(d.len() as int) == d,
{
    assert(d.push(e).remove(d.len() as int) =~= d);
}

/// Replacing an entry and then removing it has the same effect as removing
/// it straight away.
pub proof fn lemma_remove_after_update(d: Seq<EntryView>, i: int, e: EntryView)
    requires
        0 <= i < d.len(),
    ensures
        d.update(i, e).remove(i) == d.remove(i),
{
    assert(d.update(i, e).remove(i) =~= d.remove(i));
}

/// A dictionary whose entries may all be stored reads back unchanged after
/// it is saved: this covers every dictionary that registering, replacing,
/// removing and importing entries can build from an empty one.
pub proof fn lemma_valid_dictionary_reads_back(es: Seq<EntryView>)
    requires
        all_valid(es),
    ensures
        parse_dictionary(dictionary_text(file_title(), es)) == es,
        parse_dictionary(dictionary_text(export_title(), es)) == es,
{
    assert forall|i: int| 0 <= i < es.len() implies storable(#[trigger] es[i]) by {
        assert(entry_error(es[i]) is None);
        lemma_valid_entry_is_storable(es[i]);
    }
    lemma_saved_dictionary_reads_back(es);
    lemma_exported_dictionary_reads_back(es);
}

/// Removing an entry keeps every remaining entry storable and keeps the
/// reading-and-word pairs distinct.
pub proof fn lemma_remove_keeps_dictionary_valid(d: Seq<EntryView>, i: int)
    requires
        0 <= i < d.len(),
    ensures
        all_valid(d) ==> all_valid(d.remove(i)),
        pairs_distinct(d) ==> pairs_distinct(d.remove(i)),
{
    let r = d.remove(i);
    assert forall|k: int| 0 <= k < r.len() implies r[k] == d[if k < i { k } else { k + 1 }] by {}
    if all_valid(d) {
        assert forall|k: int| 0 <= k < r.len() implies (#[trigger] entry_error(r[k])) is None by {
            assert(r[k] == d[if k < i { k } else { k + 1 }]);
        }
    }
    if pairs_distinct(d) {
        assert forall|a: int, b: int| 0 <= a < b < r.len() implies !same_pair(#[trigger] r[a], r[b].reading, #[trigger] r[b].word) by {
            let a2 = if a < i { a } else { a + 1 };
            let b2 = if b < i { b } else { b + 1 };
            assert(r[a] == d[a2] && r[b] == d[b2]);
            assert(!same_pair(d[a2], d[b2].reading, d[b2].word));
        }
    }
}

/// Registering an entry that may be stored succeeds, appending it, whenever
/// no registered entry has both its reading and its word; sharing only the
/// reading (a homophone) or only the word (another reading of the same
/// word) never blocks it. A refusal as a duplicate always comes from an
/// entry with the same reading and the same word.
pub proof fn lemma_register_blocked_only_by_same_pair(d: Seq<EntryView>, e: EntryView)
    ensures
        entry_error(e) is None && (forall|j: int|
            0 <= j < d.len() ==> !((#[trigger] d[j]).reading == e.reading && d[j].word == e.word))
            ==> add_error(d, e) is None,
        add_error(d, e) == Some(duplicate_message()) && entry_error(e) is None ==> exists|j: int|
            0 <= j < d.len() && (#[trigger] d[j]).reading == e.reading && d[j].word == e.word,
{
}

/// Editing entry `index` into an entry that may be stored succeeds whenever
/// the index is in range and no other entry has both the same reading and
/// the same word; another entry with only the same reading or only the same
/// word does not block it, and neither does the edited entry itself.
pub proof fn lemma_edit_blocked_only_by_other_same_pair(d: Seq<EntryView>, index: int, e: EntryView)
    ensures
        entry_error(e) is None && 0 <= index < d.len() && (forall|j: int|
            0 <= j < d.len() && j != index ==> !((#[trigger] d[j]).reading == e.reading && d[j].word
                == e.word)) ==> replace_error(d, index, e) is None,
        replace_error(d, index, e) == Some(duplicate_message()) && entry_error(e) is None
            && 0 <= index < d.len() ==> exists|j: int|
            0 <= j < d.len() && j != index && (#[trigger] d[j]).reading == e.reading && d[j].word
                == e.word,
{
}

/// The lines of a dictionary text whose entries may all be stored hold no
/// malformed line.
proof fn lemma_valid_text_lines(title: Seq<char>, es: Seq<EntryView>)
    requires
        comment_line(title),
        all_valid(es),
    ensures
        !has_malformed_line(lines_of(dictionary_text(title, es))),
{
    let cols = columns_line();
    lemma_columns_line_is_comment();
    let body = entry_lines(es);
    let text = dictionary_text(title, es);
    assert(text =~= title + seq!['\n'] + (cols + seq!['\n'] + body));
    lemma_lines_step(title, cols + seq!['\n'] + body);
    lemma_lines_step(cols, body);
    assert(strip_cr(title) == title);
    assert(strip_cr(cols) == cols);
    assert forall|i: int| 0 <= i < es.len() implies storable(#[trigger] es[i]) by {
        assert(entry_error(es[i]) is None);
        lemma_valid_entry_is_storable(es[i]);
    }
    lemma_lines_of_entries(es);
    let lines = seq![title, cols] + entry_texts(es);
    assert(lines_of(text) =~= lines);
    assert forall|i: int| 0 <= i < lines.len() implies !malformed_line(#[trigger] lines[i]) by {
        if i == 0 {
            assert(lines[i] == title);
        } else if i == 1 {
            assert(lines[i] == cols);
        } else {
            let e = es[i - 2];
            assert(lines[i] == entry_text(e));
            assert(entry_error(e) is None);
            lemma_entry_text_parses(e);
        }
    }
}

/// A dictionary whose entries may all be stored, once exported, imports
/// back without error and gives exactly its entries; the same holds for the
/// dictionary file itself.
pub proof fn lemma_exported_valid_dictionary_imports(es: Seq<EntryView>)
    requires
        all_valid(es),
    ensures
        !has_malformed_line(lines_of(dictionary_text(export_title(), es))),
        parse_dictionary(dictionary_text(export_title(), es)) == es,
        !has_malformed_line(lines_of(dictionary_text(file_title(), es))),
        parse_dictionary(dictionary_text(file_title(), es)) == es,
{
    reveal_strlit("# ユーザー辞書エクスポート");
    reveal_strlit("# ユーザー辞書ファイル");
    lemma_valid_text_lines(export_title(), es);
    lemma_valid_text_lines(file_title(), es);
    lemma_valid_dictionary_reads_back(es);
}

} // verus!
