//! What the interactive search over the deltas of a base decides: how the
//! input line answers to keys, which lines of a configuration a delta
//! changed, and which delta is handed back when the search ends.
//!
//! Drawing, reading keys and ranking the deltas against the input are left to
//! the program that runs the search.

use vstd::prelude::*;
use vstd::string::StrSliceExecFns;
use crate::keys::{compare_keys, KeyOrder};

verus! {

/// How a search has ended, if it has.
#[derive(Clone, Copy, Debug, PartialEq, Eq, Structural)]
pub enum ExitStatus {
    NoExit,
    Quit,
    Finish,
}

/// A key that was pressed.
#[derive(Clone, Copy, Debug, PartialEq, Eq, Structural)]
pub enum Key {
    Char(char),
    Backspace,
    Esc,
    Enter,
    Other,
}

/// The input line of a search.
#[derive(Debug)]
pub struct InputTextbox {
    pub string: String,
    pub exit: ExitStatus,
}

/// Trusted: `String::push` puts the character at the end of the string.
pub assume_specification[ String::push ](s: &mut String, c: char)
    ensures
        final(s)@ == old(s)@.push(c),
;

/// Trusted: `String::pop` takes the last character off the string and
/// returns it; an empty string stays empty, and `None` is returned.
pub assume_specification[ String::pop ](s: &mut String) -> (c: Option<char>)
    ensures
        old(s)@.len() == 0 ==> c is None && final(s)@ == old(s)@,
        old(s)@.len() > 0 ==> c == Some(old(s)@.last()) && final(s)@ == old(s)@.drop_last(),
;

/// The text of an input line after the key `k`: a character joins it at the
/// end, backspace takes its last character away, and no other key changes it.
pub open spec fn text_after(text: Seq<char>, k: Key) -> Seq<char> {
    match k {
        Key::Char(c) => text.push(c),
        Key::Backspace => if text.len() > 0 {
            text.drop_last()
        } else {
            text
        },
        _ => text,
    }
}

/// The state of a search after the key `k`: escape quits it, enter finishes
/// it, and no other key ends it.
pub open spec fn exit_after(exit: ExitStatus, k: Key) -> ExitStatus {
    match k {
        Key::Esc => ExitStatus::Quit,
        Key::Enter => ExitStatus::Finish,
        _ => exit,
    }
}

impl InputTextbox {
    /// An empty input line of a search that has not ended.
    pub fn new() -> (input: InputTextbox)
        ensures
            input.string@ == Seq::<char>::empty(),
            input.exit == ExitStatus::NoExit,
    {
        InputTextbox { string: String::new(), exit: ExitStatus::NoExit }
    }

    /// Takes the key `k`.
    pub fn handle_key_events(&mut self, k: Key)
        ensures
            final(self).string@ == text_after(old(self).string@, k),
            final(self).exit == exit_after(old(self).exit, k),
    {
        match k {
            Key::Char(c) => {
                self.string.push(c);
            },
            Key::Backspace => {
                self.string.pop();
            },
            Key::Esc => {
                self.exit = ExitStatus::Quit;
            },
            Key::Enter => {
                self.exit = ExitStatus::Finish;
            },
            Key::Other => {},
        }
    }
}

/// What a line of a comparison of two texts is: the same in both, only in
/// the first, or only in the second.
#[derive(Clone, Copy, Debug, PartialEq, Eq, Structural)]
pub enum ChangeKind {
    Equal,
    Delete,
    Insert,
}

/// One line of a comparison of two texts: what it is, and its position among
/// the lines of the first text, where it is one of them.
#[derive(Clone, Copy, Debug, PartialEq, Eq, Structural)]
pub struct LineChange {
    pub kind: ChangeKind,
    pub old_index: Option<usize>,
}

/// The lines of the comparison of `base` with `other`, as the crate
/// `similar` orders them.
pub uninterp spec fn line_changes(base: Seq<char>, other: Seq<char>) -> Seq<LineChange>;

/// The comparison of two texts line by line.
///
/// Trusted: calls `similar::TextDiff::from_lines` and walks the result with
/// `iter_all_changes`. The contract claims that the outcome depends on the
/// two texts alone, and gives it the name `line_changes`; of what it holds,
/// nothing is claimed.
#[verifier::external_body]
fn changes_by_lines(base: &str, other: &str) -> (changes: Vec<LineChange>)
    ensures
        changes@ == line_changes(base@, other@),
{
    similar::TextDiff::from_lines(base, other)
        .iter_all_changes()
        .map(|change| LineChange {
            kind: match change.tag() {
                similar::ChangeTag::Equal => ChangeKind::Equal,
                similar::ChangeTag::Delete => ChangeKind::Delete,
                similar::ChangeTag::Insert => ChangeKind::Insert,
            },
            old_index: change.old_index(),
        })
        .collect()
}

/// The positions in the first text of those among the first `n` lines of a
/// comparison that are not the same in both texts, in order.
pub open spec fn spec_changed_lines(changes: Seq<LineChange>, n: nat) -> Seq<usize>
    decreases n,
{
    if n == 0 || n > changes.len() {
        Seq::empty()
    } else {
        let before = spec_changed_lines(changes, (n - 1) as nat);
        match changes[n - 1].old_index {
            Some(line) if changes[n - 1].kind != ChangeKind::Equal => before.push(line),
            _ => before,
        }
    }
}

/// The positions in the first text of the lines of a comparison that are not
/// the same in both texts, in order.
pub fn changed_lines(changes: &Vec<LineChange>) -> (lines: Vec<usize>)
    ensures
        lines@ == spec_changed_lines(changes@, changes@.len()),
{
    let mut lines: Vec<usize> = Vec::new();
    let mut i: usize = 0;
    while i < changes.len()
        invariant
            i <= changes.len(),
            lines@ == spec_changed_lines(changes@, i as nat),
        decreases changes.len() - i,
    {
        if changes[i].kind != ChangeKind::Equal {
            if let Some(line) = changes[i].old_index {
                lines.push(line);
            }
        }
        i += 1;
    }
    lines
}

/// The lines of `base_string`, by position, that `other` does not have in
/// the same place of the comparison of the two.
pub fn diff_by_lines(base_string: &str, other: &str) -> (lines: Vec<usize>)
    ensures
        lines@ == spec_changed_lines(
            line_changes(base_string@, other@),
            line_changes(base_string@, other@).len(),
        ),
{
    let changes = changes_by_lines(base_string, other);
    changed_lines(&changes)
}

/// Each number is smaller than every number after it.
pub open spec fn strictly_increasing(numbers: Seq<u32>) -> bool {
    forall|i: int, j: int| 0 <= i < j < numbers.len() ==> numbers[i] < numbers[j]
}

/// Whether `value` is among the first `n` of `numbers`.
pub open spec fn among(numbers: Seq<u32>, n: int, value: u32) -> bool {
    exists|k: int| 0 <= k < n && k < numbers.len() && numbers[k] == value
}

/// The numbers of `indices`, each once, in increasing order.
pub fn sorted_unique(indices: &Vec<u32>) -> (sorted: Vec<u32>)
    ensures
        strictly_increasing(sorted@),
        forall|value: u32| sorted@.contains(value) <==> indices@.contains(value),
{
    let mut sorted: Vec<u32> = Vec::new();
    let mut i: usize = 0;
    while i < indices.len()
        invariant
            i <= indices.len(),
            strictly_increasing(sorted@),
            forall|value: u32| sorted@.contains(value) <==> among(indices@, i as int, value),
        decreases indices.len() - i,
    {
        let x = indices[i];
        let mut p: usize = 0;
        while p < sorted.len() && sorted[p] < x
            invariant
                p <= sorted.len(),
                i < indices.len(),
                x == indices@[i as int],
                strictly_increasing(sorted@),
                forall|value: u32| sorted@.contains(value) <==> among(indices@, i as int, value),
                forall|k: int| 0 <= k < p ==> sorted@[k] < x,
            decreases sorted.len() - p,
        {
            p += 1;
        }
        let ghost before = sorted@;
        if p < sorted.len() && sorted[p] == x {
            assert(before.contains(x));
        } else {
            sorted.insert(p, x);
            assert(sorted@ == before.insert(p as int, x));
            assert forall|a: int, b: int| 0 <= a < b < sorted@.len() implies sorted@[a]
                < sorted@[b] by {
                let a0 = if a < p { a } else { a - 1 };
                let b0 = if b < p { b } else { b - 1 };
                if a != p && b != p {
                    assert(before[a0] < before[b0]);
                } else if a == p {
                    assert(before[p as int] <= before[b0]);
                }
            }
            assert forall|value: u32| sorted@.contains(value) <==> (before.contains(value)
                || value == x) by {
                if sorted@.contains(value) {
                    let k = choose|k: int| 0 <= k < sorted@.len() && sorted@[k] == value;
                    if k < p {
                        assert(before[k] == value);
                    } else if k > p {
                        assert(before[k - 1] == value);
                    }
                }
                if before.contains(value) {
                    let k = choose|k: int| 0 <= k < before.len() && before[k] == value;
                    if k < p {
                        assert(sorted@[k] == value);
                    } else {
                        assert(sorted@[k + 1] == value);
                    }
                }
                if value == x {
                    assert(sorted@[p as int] == value);
                }
            }
        }
        assert forall|value: u32| sorted@.contains(value) <==> among(
            indices@,
            i + 1,
            value,
        ) by {
            assert(before.contains(value) <==> among(indices@, i as int, value));
            assert(sorted@.contains(value) <==> (before.contains(value) || value == x));
            if among(indices@, i + 1, value) {
                let k = choose|k: int| 0 <= k < i + 1 && k < indices@.len() && indices@[k] == value;
                if k < i {
                    assert(among(indices@, i as int, value));
                }
            }
            if among(indices@, i as int, value) {
                let k = choose|k: int| 0 <= k < i && k < indices@.len() && indices@[k] == value;
                assert(0 <= k < i + 1 && indices@[k] == value);
            }
            if value == x {
                assert(0 <= i < i + 1 && indices@[i as int] == value);
            }
        }
        i += 1;
    }
    assert forall|value: u32| sorted@.contains(value) <==> indices@.contains(value) by {
        if indices@.contains(value) {
            let k = choose|k: int| 0 <= k < indices@.len() && indices@[k] == value;
            assert(among(indices@, i as int, value));
        }
    }
    sorted
}

/// The list of deltas that match the input, the best match last, and for each
/// the positions of its characters that the input matched.
#[derive(Debug)]
pub struct Results {
    pub r: Vec<String>,
    pub column_matches: Vec<Vec<u32>>,
}

/// A configuration as it is shown, with the lines to set off.
#[derive(Debug)]
pub struct DisplayBox {
    pub cfg_string: String,
    pub highlight_lines: Vec<usize>,
    pub title: String,
}

/// A delta that can be searched for: the text that is matched against the
/// input, the configuration that the delta stands for, and the lines of the
/// base that it changed.
#[derive(Debug)]
pub struct Entry {
    pub label: String,
    pub text: String,
    pub changed: Vec<usize>,
}

/// The state of a search over the deltas of one base.
#[derive(Debug)]
pub struct Search {
    pub input_box: InputTextbox,
    pub search_results: Results,
    pub display_base: DisplayBox,
    pub display_delta: DisplayBox,
    pub configs: Vec<Entry>,
}

/// The texts that a list of strings holds.
pub open spec fn texts(strings: Seq<String>) -> Seq<Seq<char>> {
    Seq::new(strings.len(), |i: int| strings[i]@)
}

/// The lists of numbers that a list of lists holds.
pub open spec fn columns(lists: Seq<Vec<u32>>) -> Seq<Seq<u32>> {
    Seq::new(lists.len(), |i: int| lists[i]@)
}

/// The position of the entry that `label` stands for among the first `n`:
/// the last one that carries it.
pub open spec fn entry_index(entries: Seq<Entry>, label: Seq<char>, n: nat) -> Option<int>
    decreases n,
{
    if n == 0 || n > entries.len() {
        None
    } else if entries[n - 1].label@ == label {
        Some(n - 1)
    } else {
        entry_index(entries, label, (n - 1) as nat)
    }
}

/// The position of the entry that the best match stands for, if there is a
/// match and it stands for one.
pub open spec fn best_index(results: Seq<String>, entries: Seq<Entry>) -> Option<int> {
    if results.len() == 0 {
        None
    } else {
        entry_index(entries, results.last()@, entries.len())
    }
}

/// The lines of `base` that `text` changed.
pub open spec fn lines_changed(base: Seq<char>, text: Seq<char>) -> Seq<usize> {
    spec_changed_lines(line_changes(base, text), line_changes(base, text).len())
}

impl Search {
    /// The search over the given deltas of the base that is rendered as
    /// `base_cfg`. Each delta comes as the text to match and the rendering
    /// of the configuration that it stands for.
    pub fn new(deltas: Vec<(String, String)>, base_cfg: String) -> (search: Search)
        ensures
            search.input_box.string@ == Seq::<char>::empty(),
            search.input_box.exit == ExitStatus::NoExit,
            search.search_results.r@.len() == 0,
            search.search_results.column_matches@.len() == 0,
            search.display_base.cfg_string@ == base_cfg@,
            search.display_base.highlight_lines@.len() == 0,
            search.display_base.title@ == "Base Config"@,
            search.display_delta.cfg_string@ == Seq::<char>::empty(),
            search.display_delta.highlight_lines@.len() == 0,
            search.display_delta.title@ == "Changed Config"@,
            search.configs@.len() == deltas@.len(),
            forall|i: int|
                0 <= i < deltas@.len() ==> {
                    &&& (#[trigger] search.configs@[i]).label@ == deltas@[i].0@
                    &&& search.configs@[i].text@ == deltas@[i].1@
                    &&& search.configs@[i].changed@ == lines_changed(base_cfg@, deltas@[i].1@)
                },
    {
        let mut configs: Vec<Entry> = Vec::new();
        let mut i: usize = 0;
        while i < deltas.len()
            invariant
                i <= deltas.len(),
                configs@.len() == i,
                forall|j: int|
                    0 <= j < i ==> {
                        &&& (#[trigger] configs@[j]).label@ == deltas@[j].0@
                        &&& configs@[j].text@ == deltas@[j].1@
                        &&& configs@[j].changed@ == lines_changed(base_cfg@, deltas@[j].1@)
                    },
            decreases deltas.len() - i,
        {
            let changed = diff_by_lines(base_cfg.as_str(), deltas[i].1.as_str());
            configs.push(Entry { label: deltas[i].0.clone(), text: deltas[i].1.clone(), changed });
            i += 1;
        }
        Search {
            input_box: InputTextbox::new(),
            search_results: Results { r: Vec::new(), column_matches: Vec::new() },
            display_base: DisplayBox {
                cfg_string: base_cfg,
                highlight_lines: Vec::new(),
                title: "Base Config".to_owned(),
            },
            display_delta: DisplayBox {
                cfg_string: String::new(),
                highlight_lines: Vec::new(),
                title: "Changed Config".to_owned(),
            },
            configs,
        }
    }

    /// The texts to match the input against: that of each delta, in order.
    pub fn labels(&self) -> (labels: Vec<String>)
        ensures
            labels@.len() == self.configs@.len(),
            forall|i: int|
                0 <= i < labels@.len() ==> (#[trigger] labels@[i])@ == self.configs@[i].label@,
    {
        let mut labels: Vec<String> = Vec::new();
        let mut i: usize = 0;
        while i < self.configs.len()
            invariant
                i <= self.configs.len(),
                labels@.len() == i,
                forall|j: int| 0 <= j < i ==> (#[trigger] labels@[j])@ == self.configs@[j].label@,
            decreases self.configs.len() - i,
        {
            labels.push(self.configs[i].label.clone());
            i += 1;
        }
        labels
    }

    /// The position of the entry that the best match stands for.
    fn find_best(&self) -> (found: Option<usize>)
        ensures
            match found {
                Some(i) => best_index(self.search_results.r@, self.configs@) == Some(i as int) && i
                    < self.configs@.len(),
                None => best_index(self.search_results.r@, self.configs@) is None,
            },
    {
        let count = self.search_results.r.len();
        if count == 0 {
            return None;
        }
        let label = self.search_results.r[count - 1].as_str();
        let mut n: usize = self.configs.len();
        while n > 0
            invariant
                n <= self.configs.len(),
                self.search_results.r@.len() > 0,
                label@ == self.search_results.r@.last()@,
                entry_index(self.configs@, label@, self.configs@.len()) == entry_index(
                    self.configs@,
                    label@,
                    n as nat,
                ),
            decreases n,
        {
            if compare_keys(self.configs[n - 1].label.as_str(), label) == KeyOrder::Same {
                return Some(n - 1);
            }
            n -= 1;
        }
        None
    }

    /// The configuration that the best match stands for, and the lines to
    /// set off in it.
    pub fn get_result_to_highlight(&self) -> (found: Option<(String, Vec<usize>)>)
        ensures
            match found {
                Some(shown) => {
                    &&& best_index(self.search_results.r@, self.configs@) matches Some(i)
                    &&& shown.0@ == self.configs@[i].text@
                    &&& shown.1@ == self.configs@[i].changed@
                },
                None => best_index(self.search_results.r@, self.configs@) is None,
            },
    {
        match self.find_best() {
            Some(i) => Some((self.configs[i].text.clone(), self.configs[i].changed.clone())),
            None => None,
        }
    }

    /// The configuration that the best match stands for; the empty text
    /// where there is none.
    pub fn get_best_result(&self) -> (text: String)
        ensures
            text@ == match best_index(self.search_results.r@, self.configs@) {
                Some(i) => self.configs@[i].text@,
                None => Seq::<char>::empty(),
            },
    {
        match self.find_best() {
            Some(i) => self.configs[i].text.clone(),
            None => String::new(),
        }
    }

    /// What the search hands back: the configuration that the best match
    /// stands for, where the search was finished, and the empty text where it
    /// was quit or has not ended.
    pub fn get_search_result(&self) -> (text: String)
        ensures
            text@ == match (
                self.input_box.exit,
                best_index(self.search_results.r@, self.configs@),
            ) {
                (ExitStatus::Finish, Some(i)) => self.configs@[i].text@,
                _ => Seq::<char>::empty(),
            },
    {
        match self.input_box.exit {
            ExitStatus::Quit => String::new(),
            ExitStatus::Finish => self.get_best_result(),
            ExitStatus::NoExit => String::new(),
        }
    }

    /// Takes the matches of one round, the best match last, and shows the
    /// configuration that the best match stands for; nothing where there is
    /// no match.
    pub fn update(&mut self, matches: Vec<(String, Vec<u32>)>)
        ensures
            final(self).input_box == old(self).input_box,
            final(self).display_base == old(self).display_base,
            final(self).configs == old(self).configs,
            final(self).display_delta.title == old(self).display_delta.title,
            final(self).search_results.r@.len() == matches@.len(),
            final(self).search_results.column_matches@.len() == matches@.len(),
            forall|i: int|
                0 <= i < matches@.len() ==> (#[trigger] final(self).search_results.r@[i])@
                    == matches@[i].0@,
            forall|i: int|
                0 <= i < matches@.len() ==> (
                #[trigger] final(self).search_results.column_matches@[i])@ == matches@[i].1@,
            match best_index(final(self).search_results.r@, final(self).configs@) {
                Some(i) => {
                    &&& final(self).display_delta.cfg_string@ == final(self).configs@[i].text@
                    &&& final(self).display_delta.highlight_lines@
                        == final(self).configs@[i].changed@
                },
                None => {
                    &&& final(self).display_delta.cfg_string@ == Seq::<char>::empty()
                    &&& final(self).display_delta.highlight_lines@ == Seq::<usize>::empty()
                },
            },
    {
        let mut string_results: Vec<String> = Vec::new();
        let mut column_results: Vec<Vec<u32>> = Vec::new();
        let mut i: usize = 0;
        while i < matches.len()
            invariant
                i <= matches.len(),
                string_results@.len() == i,
                column_results@.len() == i,
                forall|j: int| 0 <= j < i ==> (#[trigger] string_results@[j])@ == matches@[j].0@,
                forall|j: int| 0 <= j < i ==> (#[trigger] column_results@[j])@ == matches@[j].1@,
            decreases matches.len() - i,
        {
            let columns = matches[i].1.clone();
            assert(columns@ =~= matches@[i as int].1@);
            string_results.push(matches[i].0.clone());
            column_results.push(columns);
            i += 1;
        }
        self.search_results.r = string_results;
        self.search_results.column_matches = column_results;
        match self.get_result_to_highlight() {
            Some((text, lines)) => {
                self.display_delta.cfg_string = text;
                self.display_delta.highlight_lines = lines;
            },
            None => {
                self.display_delta.cfg_string = String::new();
                self.display_delta.highlight_lines = Vec::new();
            },
        }
    }

    /// Takes the key `k` into the input line.
    pub fn handle_key_events(&mut self, k: Key)
        ensures
            final(self).input_box.string@ == text_after(old(self).input_box.string@, k),
            final(self).input_box.exit == exit_after(old(self).input_box.exit, k),
            final(self).search_results == old(self).search_results,
            final(self).display_base == old(self).display_base,
            final(self).display_delta == old(self).display_delta,
            final(self).configs == old(self).configs,
    {
        self.input_box.handle_key_events(k);
    }
}

/// The number that a decimal digit stands for.
pub open spec fn digit_value(c: char) -> Option<usize> {
    if '0' <= c <= '9' {
        Some((c as u32 - '0' as u32) as usize)
    } else {
        None
    }
}

/// The name and the version that the label of a base stands for: the label
/// without its last two characters, and the digit that is its last
/// character. A label stands for nothing where it has no two characters,
/// where its last character is no digit, or where the one before that is
/// not in ASCII.
pub open spec fn spec_split_label(label: Seq<char>) -> Option<(Seq<char>, usize)> {
    if label.len() >= 2 && digit_value(label.last()) is Some && label[label.len() - 2] as u32
        <= 127 {
        Some((label.subrange(0, label.len() - 2), digit_value(label.last())->0))
    } else {
        None
    }
}

/// The name and the version that the label of a base stands for.
pub fn split_label(label: &str) -> (parts: Option<(String, usize)>)
    ensures
        match parts {
            Some(parts) => spec_split_label(label@) == Some((parts.0@, parts.1)),
            None => spec_split_label(label@) is None,
        },
{
    let n = label.unicode_len();
    if n < 2 {
        return None;
    }
    let last = label.get_char(n - 1);
    let before = label.get_char(n - 2);
    if last < '0' || last > '9' || before as u32 > 127 {
        return None;
    }
    let version = (last as u32 - '0' as u32) as usize;
    Some((label.substring_char(0, n - 2).to_owned(), version))
}


/// A base that can be searched for: its name, its version, and its
/// rendering.
#[derive(Debug)]
pub struct BaseEntry {
    pub name: String,
    pub version: usize,
    pub text: String,
}

/// A base as it is shown: what it is called, and its rendering.
#[derive(Debug)]
pub struct YamlDisplay {
    pub title: String,
    pub text: String,
}

/// The state of a search over the bases by name and version.
#[derive(Debug)]
pub struct BaseChoice {
    pub input_box: InputTextbox,
    pub results: Results,
    pub yaml_display: YamlDisplay,
    pub configs: Vec<BaseEntry>,
}

/// The position of the entry for `name` and `version` among the first `n`:
/// the last one that carries both.
pub open spec fn base_entry_index(
    entries: Seq<BaseEntry>,
    name: Seq<char>,
    version: usize,
    n: nat,
) -> Option<int>
    decreases n,
{
    if n == 0 || n > entries.len() {
        None
    } else if entries[n - 1].name@ == name && entries[n - 1].version == version {
        Some(n - 1)
    } else {
        base_entry_index(entries, name, version, (n - 1) as nat)
    }
}

/// The name and the version that the best match stands for: the empty name
/// and version zero where nothing matches, and nothing where the best match
/// is no label of a base.
pub open spec fn spec_search_results(results: Seq<String>) -> Option<(Seq<char>, usize)> {
    if results.len() == 0 {
        Some((Seq::empty(), 0))
    } else {
        spec_split_label(results.last()@)
    }
}

/// The digit that stands for a number below ten.
pub open spec fn digit_of(n: usize) -> char {
    if n == 0 {
        '0'
    } else if n == 1 {
        '1'
    } else if n == 2 {
        '2'
    } else if n == 3 {
        '3'
    } else if n == 4 {
        '4'
    } else if n == 5 {
        '5'
    } else if n == 6 {
        '6'
    } else if n == 7 {
        '7'
    } else if n == 8 {
        '8'
    } else {
        '9'
    }
}

/// What a base of name `name` and version `version` is called: the name, a
/// colon, and the digit of the version.
pub open spec fn spec_title(name: Seq<char>, version: usize) -> Seq<char> {
    name.push(':').push(digit_of(version))
}

/// The digit that stands for a number below ten.
fn digit_char(n: usize) -> (c: char)
    ensures
        c == digit_of(n),
{
    if n == 0 {
        '0'
    } else if n == 1 {
        '1'
    } else if n == 2 {
        '2'
    } else if n == 3 {
        '3'
    } else if n == 4 {
        '4'
    } else if n == 5 {
        '5'
    } else if n == 6 {
        '6'
    } else if n == 7 {
        '7'
    } else if n == 8 {
        '8'
    } else {
        '9'
    }
}

impl BaseChoice {
    /// The search over the given bases, each with its name, its version and
    /// its rendering.
    pub fn new(joint: Vec<(String, usize, String)>) -> (choice: BaseChoice)
        ensures
            choice.input_box.string@ == Seq::<char>::empty(),
            choice.input_box.exit == ExitStatus::NoExit,
            choice.results.r@.len() == 0,
            choice.results.column_matches@.len() == 0,
            choice.yaml_display.title@ == Seq::<char>::empty(),
            choice.yaml_display.text@ == Seq::<char>::empty(),
            choice.configs@.len() == joint@.len(),
            forall|i: int|
                0 <= i < joint@.len() ==> {
                    &&& (#[trigger] choice.configs@[i]).name@ == joint@[i].0@
                    &&& choice.configs@[i].version == joint@[i].1
                    &&& choice.configs@[i].text@ == joint@[i].2@
                },
    {
        let mut configs: Vec<BaseEntry> = Vec::new();
        let mut i: usize = 0;
        while i < joint.len()
            invariant
                i <= joint.len(),
                configs@.len() == i,
                forall|j: int|
                    0 <= j < i ==> {
                        &&& (#[trigger] configs@[j]).name@ == joint@[j].0@
                        &&& configs@[j].version == joint@[j].1
                        &&& configs@[j].text@ == joint@[j].2@
                    },
            decreases joint.len() - i,
        {
            configs.push(
                BaseEntry {
                    name: joint[i].0.clone(),
                    version: joint[i].1,
                    text: joint[i].2.clone(),
                },
            );
            i += 1;
        }
        BaseChoice {
            input_box: InputTextbox::new(),
            results: Results { r: Vec::new(), column_matches: Vec::new() },
            yaml_display: YamlDisplay { title: String::new(), text: String::new() },
            configs,
        }
    }

    /// The name and the version that the best match stands for.
    pub fn get_search_results(&self) -> (found: Option<(String, usize)>)
        ensures
            match found {
                Some(parts) => spec_search_results(self.results.r@) == Some((parts.0@, parts.1)),
                None => spec_search_results(self.results.r@) is None,
            },
    {
        let count = self.results.r.len();
        if count == 0 {
            return Some((String::new(), 0));
        }
        split_label(self.results.r[count - 1].as_str())
    }

    /// The rendering of the base of name `name` and version `version`; the
    /// empty text where there is none.
    fn rendering(&self, name: &str, version: usize) -> (text: String)
        ensures
            text@ == match base_entry_index(self.configs@, name@, version, self.configs@.len()) {
                Some(i) => self.configs@[i].text@,
                None => Seq::<char>::empty(),
            },
    {
        let mut n: usize = self.configs.len();
        while n > 0
            invariant
                n <= self.configs.len(),
                base_entry_index(self.configs@, name@, version, self.configs@.len())
                    == base_entry_index(self.configs@, name@, version, n as nat),
            decreases n,
        {
            if self.configs[n - 1].version == version && compare_keys(
                self.configs[n - 1].name.as_str(),
                name,
            ) == KeyOrder::Same {
                return self.configs[n - 1].text.clone();
            }
            n -= 1;
        }
        String::new()
    }

    /// Takes the matches of one round, the best match last, and shows the
    /// base that the best match stands for. Where the best match is no label
    /// of a base, nothing else is shown than before, and `false` is returned.
    pub fn update(&mut self, matches: Vec<(String, Vec<u32>)>) -> (shown: bool)
        ensures
            final(self).input_box == old(self).input_box,
            final(self).configs == old(self).configs,
            final(self).results.r@.len() == matches@.len(),
            final(self).results.column_matches@.len() == matches@.len(),
            forall|i: int|
                0 <= i < matches@.len() ==> (#[trigger] final(self).results.r@[i])@
                    == matches@[i].0@,
            forall|i: int|
                0 <= i < matches@.len() ==> (#[trigger] final(self).results.column_matches@[i])@
                    == matches@[i].1@,
            match spec_search_results(final(self).results.r@) {
                Some((name, version)) => {
                    &&& shown
                    &&& final(self).yaml_display.title@ == spec_title(name, version)
                    &&& final(self).yaml_display.text@ == match base_entry_index(
                        final(self).configs@,
                        name,
                        version,
                        final(self).configs@.len(),
                    ) {
                        Some(i) => final(self).configs@[i].text@,
                        None => Seq::<char>::empty(),
                    }
                },
                None => !shown && final(self).yaml_display == old(self).yaml_display,
            },
    {
        let mut string_results: Vec<String> = Vec::new();
        let mut column_results: Vec<Vec<u32>> = Vec::new();
        let mut i: usize = 0;
        while i < matches.len()
            invariant
                i <= matches.len(),
                string_results@.len() == i,
                column_results@.len() == i,
                forall|j: int| 0 <= j < i ==> (#[trigger] string_results@[j])@ == matches@[j].0@,
                forall|j: int| 0 <= j < i ==> (#[trigger] column_results@[j])@ == matches@[j].1@,
            decreases matches.len() - i,
        {
            let columns = matches[i].1.clone();
            assert(columns@ =~= matches@[i as int].1@);
            string_results.push(matches[i].0.clone());
            column_results.push(columns);
            i += 1;
        }
        self.results.r = string_results;
        self.results.column_matches = column_results;
        match self.get_search_results() {
            Some((name, version)) => {
                let text = self.rendering(name.as_str(), version);
                let mut title = name;
                title.push(':');
                title.push(digit_char(version));
                self.yaml_display.title = title;
                self.yaml_display.text = text;
                true
            },
            None => false,
        }
    }

    /// Takes the key `k` into the input line.
    pub fn handle_key_events(&mut self, k: Key)
        ensures
            final(self).input_box.string@ == text_after(old(self).input_box.string@, k),
            final(self).input_box.exit == exit_after(old(self).input_box.exit, k),
            final(self).results == old(self).results,
            final(self).yaml_display == old(self).yaml_display,
            final(self).configs == old(self).configs,
    {
        self.input_box.handle_key_events(k);
    }
}

} // verus!
