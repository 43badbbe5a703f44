//! Header fields by name.

use crate::chars::{spec_trim, to_string, trim};
use crate::split::{find, find_char};
use vstd::prelude::*;
use vstd::slice::slice_subrange;
use vstd::utf8::is_ascii_chars;

verus! {

/// The lowercase form of a text, as `str::to_lowercase` of the standard
/// library gives it.
pub uninterp spec fn unicode_lowercase(s: Seq<char>) -> Seq<char>;

/// Calls `str::to_lowercase`, which maps each character to its lowercase
/// equivalent by the Unicode tables of the standard library. The result is a
/// function of the text alone, and nothing else is claimed of it.
#[verifier::external_body]
pub(crate) fn to_unicode_lowercase(s: &str) -> (r: String)
    ensures
        r@ == unicode_lowercase(s@),
{
    s.to_lowercase()
}

/// The lowercase form of an ASCII character.
pub open spec fn ascii_lower(c: char) -> char {
    if 'A' <= c <= 'Z' {
        (c as u32 + 32) as char
    } else {
        c
    }
}

/// The lowercase form of a text: of ASCII text, the text with each capital
/// letter replaced by its small letter; of other text, what the Unicode
/// tables make of it.
pub open spec fn lowercase(s: Seq<char>) -> Seq<char> {
    if is_ascii_chars(s) {
        Seq::new(s.len(), |i: int| ascii_lower(s[i]))
    } else {
        unicode_lowercase(s)
    }
}

/// The lowercase form of a text.
pub fn to_lowercase(s: &[char]) -> (r: String)
    ensures
        r@ == lowercase(s@),
{
    let mut lowered = String::new();
    let mut i: usize = 0;
    while i < s.len()
        invariant
            i <= s.len(),
            is_ascii_chars(s@.take(i as int)),
            lowered@ == Seq::new(i as nat, |k: int| ascii_lower(s@[k])),
        decreases s.len() - i,
    {
        let c = s[i];
        if !('\0' <= c && c <= '\u{7f}') {
            assert(!is_ascii_chars(s@)) by {
                assert(!('\0' <= s@[i as int] <= '\u{7f}'));
            }
            return to_unicode_lowercase(to_string(s).as_str());
        }
        let small = if 'A' <= c && c <= 'Z' {
            ((c as u8) + 32) as char
        } else {
            c
        };
        lowered.push(small);
        proof {
            assert forall|k: int| 0 <= k < i + 1 implies '\0' <= #[trigger] s@.take(i + 1)[k]
                <= '\u{7f}' by {
                if k < i {
                    assert(s@.take(i as int)[k] == s@.take(i + 1)[k]);
                } else {
                    assert(s@.take(i + 1)[k] == c);
                }
            }
            assert(lowered@ =~= Seq::new((i + 1) as nat, |k: int| ascii_lower(s@[k])));
        }
        i += 1;
    }
    assert(s@.take(i as int) == s@);
    lowered
}

/// Whether two strings hold the same characters.
pub fn same_text(a: &str, b: &str) -> (r: bool)
    ensures
        r == (a@ == b@),
{
    let x = a.to_owned();
    let y = b.to_owned();
    x == y
}

/// The map that results from setting the fields of `entries` one after the
/// other: where a name stands more than once, its last value counts.
pub open spec fn fields_of(entries: Seq<(String, String)>) -> Map<Seq<char>, Seq<char>>
    decreases entries.len(),
{
    if entries.len() == 0 {
        Map::empty()
    } else {
        fields_of(entries.drop_last()).insert(entries.last().0@, entries.last().1@)
    }
}

/// The value of a name is that of its last entry; a name without an entry
/// has none.
proof fn lemma_last_entry_counts(entries: Seq<(String, String)>, k: Seq<char>, i: int)
    requires
        -1 <= i < entries.len(),
        i >= 0 ==> entries[i].0@ == k,
        forall|j: int| i < j < entries.len() ==> (#[trigger] entries[j]).0@ != k,
    ensures
        i >= 0 ==> fields_of(entries).contains_key(k) && fields_of(entries)[k] == entries[i].1@,
        i < 0 ==> !fields_of(entries).contains_key(k),
    decreases entries.len(),
{
    if entries.len() > 0 && i < entries.len() - 1 {
        let front = entries.drop_last();
        assert(entries.last().0@ != k);
        assert forall|j: int| i < j < front.len() implies (#[trigger] front[j]).0@ != k by {
            assert(front[j] == entries[j]);
        }
        lemma_last_entry_counts(front, k, i);
    }
}

/// The field that a header line holds: the text before its first colon,
/// trimmed and in lowercase, as the name, and the text after that colon,
/// trimmed, as the value. A line without a colon holds no field.
pub open spec fn header_field(line: Seq<char>) -> Option<(Seq<char>, Seq<char>)> {
    let colon = find_char(line, ':', 0);
    if colon < line.len() {
        Some(
            (
                lowercase(spec_trim(line.subrange(0, colon))),
                spec_trim(line.subrange(colon + 1, line.len() as int)),
            ),
        )
    } else {
        None
    }
}

/// The fields that a block of header lines holds, the later line counting
/// where two lines give one name.
pub open spec fn fields_from_lines(lines: Seq<Seq<char>>) -> Map<Seq<char>, Seq<char>>
    decreases lines.len(),
{
    if lines.len() == 0 {
        Map::empty()
    } else {
        let fields = fields_from_lines(lines.drop_last());
        match header_field(lines.last()) {
            Some((name, value)) => fields.insert(name, value),
            None => fields,
        }
    }
}

/// Header fields: values by name.
pub struct Headers {
    entries: Vec<(String, String)>,
}

impl View for Headers {
    type V = Map<Seq<char>, Seq<char>>;

    closed spec fn view(&self) -> Map<Seq<char>, Seq<char>> {
        fields_of(self.entries@)
    }
}

impl Headers {
    /// No fields.
    pub fn new() -> (headers: Self)
        ensures
            headers@ == Map::<Seq<char>, Seq<char>>::empty(),
    {
        Headers { entries: Vec::new() }
    }

    /// The value of the field `name`.
    pub fn get(&self, name: &str) -> (r: Option<&String>)
        ensures
            r is Some <==> self@.contains_key(name@),
            r matches Some(value) ==> value@ == self@[name@],
    {
        let mut i: usize = self.entries.len();
        while i > 0
            invariant
                i <= self.entries.len(),
                forall|j: int| i <= j < self.entries.len() ==> (#[trigger] self.entries@[j]).0@ != name@,
            decreases i,
        {
            i -= 1;
            if same_text(self.entries[i].0.as_str(), name) {
                proof {
                    lemma_last_entry_counts(self.entries@, name@, i as int);
                }
                return Some(&self.entries[i].1);
            }
        }
        proof {
            lemma_last_entry_counts(self.entries@, name@, -1);
        }
        None
    }

    /// Whether there is a field `name`.
    pub fn contains(&self, name: &str) -> (r: bool)
        ensures
            r == self@.contains_key(name@),
    {
        self.get(name).is_some()
    }

    /// Takes in the field that `line` holds, if it holds one.
    pub fn insert_line(&mut self, line: &[char])
        ensures
            final(self)@ == match header_field(line@) {
                Some((name, value)) => old(self)@.insert(name, value),
                None => old(self)@,
            },
    {
        let colon = find(line, ':', 0);
        if colon < line.len() {
            let name = to_lowercase(trim(slice_subrange(line, 0, colon)));
            let value = to_string(trim(slice_subrange(line, colon + 1, line.len())));
            self.insert(name, value);
        }
    }

    /// Sets the field `name` to `value`, in place of any value it had.
    pub fn insert(&mut self, name: String, value: String)
        ensures
            final(self)@ == old(self)@.insert(name@, value@),
    {
        self.entries.push((name, value));
        assert(self.entries@.drop_last() == old(self).entries@);
    }
}

} // verus!
