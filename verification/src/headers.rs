//! The header table: names, each with the value that its last line gave it.

use vstd::prelude::*;
use crate::text::{
    first_match, lemma_first_match_none, lemma_first_match_some, occurs_at, split_once, str_eq,
    views,
};

verus! {

/// What separates a header's name from its value: a colon and a space.
pub open spec fn separator() -> Seq<char> {
    seq![':', ' ']
}

/// The name and the value that one header line gives. The line is cut at
/// the first separator; a line without one is a name with no value.
pub open spec fn header_entry(line: Seq<char>) -> (Seq<char>, Option<Seq<char>>) {
    match first_match(line, separator()) {
        Some(i) => (line.subrange(0, i), Some(line.subrange(i + 2, line.len() as int))),
        None => (line, None),
    }
}

/// The table that the lines give when each is entered in turn, a later
/// line replacing what an earlier one said of the same name.
pub open spec fn header_map(lines: Seq<Seq<char>>) -> Map<Seq<char>, Option<Seq<char>>>
    decreases lines.len(),
{
    if lines.len() == 0 {
        Map::empty()
    } else {
        let entry = header_entry(lines.last());
        header_map(lines.drop_last()).insert(entry.0, entry.1)
    }
}

/// A name, the separator and a value, written as one line.
pub open spec fn header_text(name: Seq<char>, value: Seq<char>) -> Seq<char> {
    name + separator() + value
}

/// A line written from a name and a value is read back as that pair,
/// where the name holds no separator itself.
pub proof fn lemma_header_round_trip(name: Seq<char>, value: Seq<char>)
    requires
        first_match(name, separator()) is None,
    ensures
        header_entry(header_text(name, value)) == (name, Some(value)),
{
    let line = header_text(name, value);
    let n = name.len() as int;
    lemma_first_match_none(name, separator());
    assert(line.subrange(n, n + 2) =~= separator());
    assert forall|j: int| 0 <= j < n implies !occurs_at(line, separator(), j) by {
        if j + 2 <= n {
            assert(!occurs_at(name, separator(), j));
            assert(line.subrange(j, j + 2) =~= name.subrange(j, j + 2));
        } else {
            assert(line.subrange(j, j + 2)[1] == ':');
        }
    }
    lemma_first_match_some(line, separator(), n);
    assert(line.subrange(0, n) =~= name);
    assert(line.subrange(n + 2, line.len() as int) =~= value);
}

/// A line without the separator is a name, the whole line, with no value.
pub proof fn lemma_header_without_separator(line: Seq<char>)
    requires
        first_match(line, separator()) is None,
    ensures
        header_entry(line) == (line, None::<Seq<char>>),
{
}

/// The last line that gives a name decides its value.
pub proof fn lemma_last_line_wins(lines: Seq<Seq<char>>, i: int)
    requires
        0 <= i < lines.len(),
        forall|k: int|
            i < k < lines.len() ==> header_entry(#[trigger] lines[k]).0 != header_entry(lines[i]).0,
    ensures
        header_map(lines).contains_key(header_entry(lines[i]).0),
        header_map(lines)[header_entry(lines[i]).0] == header_entry(lines[i]).1,
    decreases lines.len(),
{
    if i < lines.len() - 1 {
        let front = lines.drop_last();
        assert forall|k: int| i < k < front.len() implies header_entry(#[trigger] front[k]).0
            != header_entry(front[i]).0 by {
            assert(front[k] == lines[k]);
        }
        lemma_last_line_wins(front, i);
        assert(header_entry(lines[lines.len() - 1]).0 != header_entry(lines[i]).0);
    }
}

/// A name that no line gives is not in the table.
pub proof fn lemma_name_not_given(lines: Seq<Seq<char>>, name: Seq<char>)
    requires
        forall|k: int| 0 <= k < lines.len() ==> header_entry(#[trigger] lines[k]).0 != name,
    ensures
        !header_map(lines).contains_key(name),
    decreases lines.len(),
{
    if lines.len() > 0 {
        let front = lines.drop_last();
        assert forall|k: int| 0 <= k < front.len() implies header_entry(#[trigger] front[k]).0
            != name by {
            assert(front[k] == lines[k]);
        }
        lemma_name_not_given(front, name);
    }
}

/// In a block of lines that are each written from a name without a
/// separator in it and a value, a name is found with the value of its line,
/// where no later line gives the same name.
pub proof fn lemma_written_pair_is_found(names: Seq<Seq<char>>, values: Seq<Seq<char>>, i: int)
    requires
        names.len() == values.len(),
        0 <= i < names.len(),
        forall|k: int| 0 <= k < names.len() ==> first_match(#[trigger] names[k], separator()) is None,
        forall|k: int| i < k < names.len() ==> #[trigger] names[k] != names[i],
    ensures
        ({
            let lines = Seq::new(names.len(), |k: int| header_text(names[k], values[k]));
            &&& header_map(lines).contains_key(names[i])
            &&& header_map(lines)[names[i]] == Some(values[i])
        }),
{
    let lines = Seq::new(names.len(), |k: int| header_text(names[k], values[k]));
    assert forall|k: int| 0 <= k < lines.len() implies header_entry(#[trigger] lines[k]) == (
        names[k],
        Some(values[k]),
    ) by {
        lemma_header_round_trip(names[k], values[k]);
    }
    lemma_last_line_wins(lines, i);
}

/// A line without the separator leaves its whole text in the table as a
/// name with no value, where no later line gives that name.
pub proof fn lemma_line_without_separator_has_no_value(lines: Seq<Seq<char>>, i: int)
    requires
        0 <= i < lines.len(),
        first_match(lines[i], separator()) is None,
        forall|k: int| i < k < lines.len() ==> header_entry(#[trigger] lines[k]).0 != lines[i],
    ensures
        header_map(lines).contains_key(lines[i]),
        header_map(lines)[lines[i]] == None::<Seq<char>>,
{
    lemma_last_line_wins(lines, i);
}

/// The characters of a value that may be absent.
pub open spec fn value_view(value: Option<&str>) -> Option<Seq<char>> {
    match value {
        Some(v) => Some(v@),
        None => None,
    }
}

/// No name stands twice among the entries.
pub open spec fn distinct_names(entries: Seq<(&str, Option<&str>)>) -> bool {
    forall|i: int, j: int|
        0 <= i < j < entries.len() ==> (#[trigger] entries[i]).0@ != (#[trigger] entries[j]).0@
}

/// The table that holds each entry's name with its value.
pub open spec fn entries_map(entries: Seq<(&str, Option<&str>)>) -> Map<
    Seq<char>,
    Option<Seq<char>>,
>
    decreases entries.len(),
{
    if entries.len() == 0 {
        Map::empty()
    } else {
        entries_map(entries.drop_last()).insert(
            entries.last().0@,
            value_view(entries.last().1),
        )
    }
}

/// A name that no entry has is not in the table.
pub proof fn lemma_entries_map_absent(entries: Seq<(&str, Option<&str>)>, name: Seq<char>)
    requires
        forall|i: int| 0 <= i < entries.len() ==> (#[trigger] entries[i]).0@ != name,
    ensures
        !entries_map(entries).contains_key(name),
    decreases entries.len(),
{
    if entries.len() > 0 {
        let front = entries.drop_last();
        assert forall|i: int| 0 <= i < front.len() implies (#[trigger] front[i]).0@ != name by {
            assert(front[i] == entries[i]);
        }
        lemma_entries_map_absent(front, name);
    }
}

/// Where no name stands twice, the table holds each entry's own value.
pub proof fn lemma_entries_map_present(entries: Seq<(&str, Option<&str>)>, i: int)
    requires
        distinct_names(entries),
        0 <= i < entries.len(),
    ensures
        entries_map(entries).contains_key(entries[i].0@),
        entries_map(entries)[entries[i].0@] == value_view(entries[i].1),
    decreases entries.len(),
{
    let front = entries.drop_last();
    if i < entries.len() - 1 {
        assert forall|a: int, b: int| 0 <= a < b < front.len() implies (#[trigger] front[a]).0@ != (
        #[trigger] front[b]).0@ by {
            assert(front[a] == entries[a]);
            assert(front[b] == entries[b]);
        }
        lemma_entries_map_present(front, i);
        assert(front[i] == entries[i]);
    }
}

/// Giving a name that is present a new value changes the table as an
/// insertion does, and leaves no name twice.
pub proof fn lemma_entries_map_update(
    entries: Seq<(&str, Option<&str>)>,
    i: int,
    name: &str,
    value: Option<&str>,
)
    requires
        distinct_names(entries),
        0 <= i < entries.len(),
        entries[i].0@ == name@,
    ensures
        distinct_names(entries.update(i, (name, value))),
        entries_map(entries.update(i, (name, value))) == entries_map(entries).insert(
            name@,
            value_view(value),
        ),
    decreases entries.len(),
{
    let after = entries.update(i, (name, value));
    let front = entries.drop_last();
    assert forall|a: int, b: int| 0 <= a < b < after.len() implies (#[trigger] after[a]).0@ != (
    #[trigger] after[b]).0@ by {
        assert(after[a].0@ == entries[a].0@);
        assert(after[b].0@ == entries[b].0@);
    }
    if i == entries.len() - 1 {
        assert(after.drop_last() =~= front);
        assert(entries_map(after) =~= entries_map(entries).insert(name@, value_view(value)));
    } else {
        assert forall|a: int, b: int| 0 <= a < b < front.len() implies (#[trigger] front[a]).0@ != (
        #[trigger] front[b]).0@ by {
            assert(front[a] == entries[a]);
            assert(front[b] == entries[b]);
        }
        assert(front[i] == entries[i]);
        lemma_entries_map_update(front, i, name, value);
        assert(after.drop_last() =~= front.update(i, (name, value)));
        assert(entries.last().0@ != name@) by {
            assert(entries[i].0@ != entries[entries.len() - 1].0@);
        }
        assert(entries_map(after) =~= entries_map(entries).insert(name@, value_view(value)));
    }
}

/// The index of the entry with the given name.
fn position(entries: &Vec<(&str, Option<&str>)>, name: &str) -> (r: Option<usize>)
    ensures
        match r {
            Some(i) => i < entries@.len() && entries@[i as int].0@ == name@,
            None => forall|i: int| 0 <= i < entries@.len() ==> (#[trigger] entries@[i]).0@ != name@,
        },
{
    let n: usize = entries.len();
    let mut i: usize = 0;
    while i < n
        invariant
            i <= n,
            n == entries@.len(),
            forall|j: int| 0 <= j < i ==> (#[trigger] entries@[j]).0@ != name@,
        decreases n - i,
    {
        if str_eq(entries[i].0, name) {
            return Some(i);
        }
        i += 1;
    }
    None
}

/// Enters a name with its value, in place of what the name had before.
fn put<'a>(entries: &mut Vec<(&'a str, Option<&'a str>)>, name: &'a str, value: Option<&'a str>)
    requires
        distinct_names(old(entries)@),
    ensures
        distinct_names(final(entries)@),
        entries_map(final(entries)@) == entries_map(old(entries)@).insert(
            name@,
            value_view(value),
        ),
{
    match position(entries, name) {
        Some(i) => {
            proof {
                lemma_entries_map_update(entries@, i as int, name, value);
            }
            entries[i] = (name, value);
        },
        None => {
            let ghost before = entries@;
            entries.push((name, value));
            proof {
                assert(entries@.drop_last() =~= before);
            }
        },
    }
}

/// Reads one header line: its name and, where the line holds the
/// separator, its value.
pub fn read_header<'a>(line: &'a str) -> (r: (&'a str, Option<&'a str>))
    ensures
        (r.0@, value_view(r.1)) == header_entry(line@),
{
    proof {
        reveal_strlit(": ");
        assert(": "@ =~= separator());
    }
    match split_once(line, ": ") {
        Some((name, value)) => (name, Some(value)),
        None => (line, None),
    }
}

/// The header table of a message.
#[derive(Debug)]
pub struct Headers<'a> {
    entries: Vec<(&'a str, Option<&'a str>)>,
}

impl<'a> View for Headers<'a> {
    type V = Map<Seq<char>, Option<Seq<char>>>;

    closed spec fn view(&self) -> Map<Seq<char>, Option<Seq<char>>> {
        entries_map(self.entries@)
    }
}

impl<'a> Headers<'a> {
    #[verifier::type_invariant]
    spec fn names_are_distinct(&self) -> bool {
        distinct_names(self.entries@)
    }

    /// Builds the table from the header lines of a message, in their order.
    /// No line is refused.
    pub fn new(headers: &[&'a str]) -> (table: Headers<'a>)
        ensures
            table@ == header_map(views(headers@)),
    {
        let mut entries: Vec<(&'a str, Option<&'a str>)> = Vec::new();
        let n: usize = headers.len();
        let mut i: usize = 0;
        proof {
            assert(views(headers@).take(0) =~= Seq::<Seq<char>>::empty());
        }
        while i < n
            invariant
                i <= n,
                n == headers@.len(),
                distinct_names(entries@),
                entries_map(entries@) == header_map(views(headers@).take(i as int)),
            decreases n - i,
        {
            let (name, value) = read_header(headers[i]);
            put(&mut entries, name, value);
            proof {
                let lines = views(headers@);
                assert(lines.take(i + 1).drop_last() =~= lines.take(i as int));
                assert(lines.take(i + 1).last() == headers@[i as int]@);
            }
            i += 1;
        }
        proof {
            assert(views(headers@).take(n as int) =~= views(headers@));
        }
        Headers { entries }
    }

    /// Whether a line gave this name, with a value or without.
    pub fn contains(&self, name: &str) -> (b: bool)
        ensures
            b == self@.contains_key(name@),
    {
        proof {
            use_type_invariant(self);
        }
        match position(&self.entries, name) {
            Some(i) => {
                proof {
                    lemma_entries_map_present(self.entries@, i as int);
                }
                true
            },
            None => {
                proof {
                    lemma_entries_map_absent(self.entries@, name@);
                }
                false
            },
        }
    }

    /// The value that the last line with this name gave it. `None` where no
    /// line gave the name, and where the last one gave it no value.
    pub fn get(&self, name: &str) -> (r: Option<&'a str>)
        ensures
            value_view(r) == (if self@.contains_key(name@) {
                self@[name@]
            } else {
                None
            }),
    {
        proof {
            use_type_invariant(self);
        }
        match position(&self.entries, name) {
            Some(i) => {
                proof {
                    lemma_entries_map_present(self.entries@, i as int);
                }
                self.entries[i].1
            },
            None => {
                proof {
                    lemma_entries_map_absent(self.entries@, name@);
                }
                None
            },
        }
    }
}

} // verus!
