//! Lesson identifiers taken from lesson file names, and lesson name mappings
//! (`id: name` lines).

use vstd::prelude::*;
use vstd::string::StrSliceExecFns;
use vstd::utf8::encode_utf8;

verus! {

/// Whether a byte is an ASCII decimal digit.
pub open spec fn is_digit_byte(b: u8) -> bool {
    0x30 <= b <= 0x39
}

/// The ASCII decimal digits among `bytes`, in order.
pub open spec fn ascii_digits(bytes: Seq<u8>) -> Seq<u8>
    decreases bytes.len(),
{
    if bytes.len() == 0 {
        seq![]
    } else if is_digit_byte(bytes.last()) {
        ascii_digits(bytes.drop_last()).push(bytes.last())
    } else {
        ascii_digits(bytes.drop_last())
    }
}

/// Value of a sequence of ASCII decimal digits, most significant first.
pub open spec fn decimal_value(digits: Seq<u8>) -> nat
    decreases digits.len(),
{
    if digits.len() == 0 {
        0
    } else {
        decimal_value(digits.drop_last()) * 10 + (digits.last() - 0x30) as nat
    }
}

/// Lesson id named by a file stem: the number formed by the stem's ASCII digits
/// (in order, ignoring every other character), or 0 when there are none or the
/// number exceeds `u32::MAX`.
pub open spec fn lesson_id_of_stem(stem: Seq<char>) -> u32 {
    let digits = ascii_digits(encode_utf8(stem));
    if digits.len() == 0 || decimal_value(digits) > u32::MAX {
        0
    } else {
        decimal_value(digits) as u32
    }
}

/// ASCII lower case of a byte; other bytes are unchanged.
pub open spec fn ascii_lower(b: u8) -> u8 {
    if 0x41 <= b <= 0x5A {
        (b + 32) as u8
    } else {
        b
    }
}

/// Whether a file extension marks a lesson file: `txt` or `md`, in any letter
/// case.
pub open spec fn is_lesson_extension_of(ext: Seq<char>) -> bool {
    let b = encode_utf8(ext);
    ||| (b.len() == 3 && ascii_lower(b[0]) == 0x74 && ascii_lower(b[1]) == 0x78 && ascii_lower(b[2])
        == 0x74)
    ||| (b.len() == 2 && ascii_lower(b[0]) == 0x6D && ascii_lower(b[1]) == 0x64)
}

fn lower_byte(b: u8) -> (l: u8)
    ensures
        l == ascii_lower(b),
{
    if b >= 0x41 && b <= 0x5A {
        b + 32
    } else {
        b
    }
}

/// Whether a file with extension `ext` holds a lesson (`txt` or `md`, in any
/// letter case).
pub fn is_lesson_extension(ext: &str) -> (lesson: bool)
    ensures
        lesson == is_lesson_extension_of(ext@),
{
    let b = ext.as_bytes();
    if b.len() == 3 {
        lower_byte(b[0]) == 0x74 && lower_byte(b[1]) == 0x78 && lower_byte(b[2]) == 0x74
    } else if b.len() == 2 {
        lower_byte(b[0]) == 0x6D && lower_byte(b[1]) == 0x64
    } else {
        false
    }
}

/// Extracts the lesson id from a file stem (`"lesson_001"` gives 1).
pub fn lesson_id_from_stem(stem: &str) -> (id: u32)
    ensures
        id == lesson_id_of_stem(stem@),
{
    let bytes = stem.as_bytes();
    let ghost all = bytes@;
    let mut value: u64 = 0;
    let mut overflow = false;
    let mut found = false;
    let mut i: usize = 0;
    while i < bytes.len()
        invariant
            all == bytes@,
            i <= all.len(),
            found == (ascii_digits(all.take(i as int)).len() > 0),
            overflow == (decimal_value(ascii_digits(all.take(i as int))) > u32::MAX),
            !overflow ==> value == decimal_value(ascii_digits(all.take(i as int))),
        decreases all.len() - i,
    {
        let b = bytes[i];
        proof {
            assert(all.take(i + 1).drop_last() =~= all.take(i as int));
            assert(all.take(i + 1).last() == b);
        }
        let ghost prev = ascii_digits(all.take(i as int));
        if b >= 0x30 && b <= 0x39 {
            proof {
                let cur = ascii_digits(all.take(i + 1));
                assert(cur == prev.push(b));
                assert(cur.drop_last() =~= prev);
                assert(decimal_value(cur) == decimal_value(prev) * 10 + (b - 0x30) as nat);
            }
            found = true;
            if !overflow {
                let next = value * 10 + (b - 0x30) as u64;
                if next > 0xFFFF_FFFF {
                    overflow = true;
                } else {
                    value = next;
                }
            }
        }
        i = i + 1;
    }
    assert(all.take(all.len() as int) =~= all);
    if !found || overflow {
        0
    } else {
        value as u32
    }
}

/// Whether `c` has the Unicode White_Space property.
pub open spec fn is_white_space(c: char) -> bool {
    ||| '\t' <= c <= '\r'
    ||| c == ' '
    ||| c == '\u{85}'
    ||| c == '\u{a0}'
    ||| c == '\u{1680}'
    ||| '\u{2000}' <= c <= '\u{200a}'
    ||| c == '\u{2028}'
    ||| c == '\u{2029}'
    ||| c == '\u{202f}'
    ||| c == '\u{205f}'
    ||| c == '\u{3000}'
}

/// `s` without its leading white space.
pub open spec fn trim_start(s: Seq<char>) -> Seq<char>
    decreases s.len(),
{
    if s.len() > 0 && is_white_space(s[0]) {
        trim_start(s.skip(1))
    } else {
        s
    }
}

/// `s` without its trailing white space.
pub open spec fn trim_end(s: Seq<char>) -> Seq<char>
    decreases s.len(),
{
    if s.len() > 0 && is_white_space(s.last()) {
        trim_end(s.drop_last())
    } else {
        s
    }
}

/// `s` without leading and trailing white space.
pub open spec fn trim(s: Seq<char>) -> Seq<char> {
    trim_end(trim_start(s))
}

/// The lines of `s`: the pieces between `'\n'` characters (a final empty piece
/// when `s` ends with one, and a single empty piece for an empty `s`).
pub open spec fn lines_of(s: Seq<char>) -> Seq<Seq<char>>
    decreases s.len(),
{
    if s.len() == 0 {
        seq![Seq::<char>::empty()]
    } else {
        let prev = lines_of(s.drop_last());
        if s.last() == '\n' {
            prev.push(Seq::<char>::empty())
        } else {
            prev.update(prev.len() - 1, prev.last().push(s.last()))
        }
    }
}

/// `p` is the position of the first `':'` in `s`.
pub open spec fn first_colon_at(s: Seq<char>, p: int) -> bool {
    &&& 0 <= p < s.len()
    &&& s[p] == ':'
    &&& forall|q: int| 0 <= q < p ==> s[q] != ':'
}

/// Whether `c` is an ASCII decimal digit.
pub open spec fn is_digit_char(c: char) -> bool {
    '0' <= c <= '9'
}

/// Value of a sequence of decimal digit characters, most significant first.
pub open spec fn digits_value(digits: Seq<char>) -> nat
    decreases digits.len(),
{
    if digits.len() == 0 {
        0
    } else {
        digits_value(digits.drop_last()) * 10 + (digits.last() as int - '0' as int) as nat
    }
}

/// The `u32` that a sequence of decimal digits spells; nothing when it is empty,
/// holds another character or exceeds `u32::MAX`.
pub open spec fn parse_digits(digits: Seq<char>) -> Option<u32> {
    if digits.len() == 0 || !(forall|i: int| 0 <= i < digits.len() ==> is_digit_char(digits[i])) {
        None
    } else if digits_value(digits) > u32::MAX {
        None
    } else {
        Some(digits_value(digits) as u32)
    }
}

/// The `u32` that `s` spells in decimal after an optional `+`, as `str::parse`
/// reads it.
pub open spec fn parse_u32_text(s: Seq<char>) -> Option<u32> {
    if s.len() > 0 && s[0] == '+' {
        parse_digits(s.skip(1))
    } else {
        parse_digits(s)
    }
}

/// The entry that a mapping line gives: none for a blank line, a comment (first
/// non-blank character `#`), a line without `':'` or an id that does not parse;
/// otherwise the id before the first `':'` and the name after it, both trimmed.
pub open spec fn mapping_entry(line: Seq<char>) -> Option<(u32, Seq<char>)> {
    let t = trim(line);
    if t.len() == 0 || t[0] == '#' {
        None
    } else if !(exists|p: int| first_colon_at(t, p)) {
        None
    } else {
        let p = choose|p: int| first_colon_at(t, p);
        match parse_u32_text(trim(t.take(p))) {
            Some(id) => Some((id, trim(t.skip(p + 1)))),
            None => None,
        }
    }
}

/// The entries of the given lines, in order.
pub open spec fn entries_of_lines(lines: Seq<Seq<char>>) -> Seq<(u32, Seq<char>)>
    decreases lines.len(),
{
    if lines.len() == 0 {
        seq![]
    } else {
        entries_of_lines(lines.drop_last()) + match mapping_entry(lines.last()) {
            Some(e) => seq![e],
            None => seq![],
        }
    }
}

/// The entries of a lesson name mapping, in file order.
pub open spec fn mapping_entries(content: Seq<char>) -> Seq<(u32, Seq<char>)> {
    entries_of_lines(lines_of(content))
}

/// Whether `c` has the Unicode White_Space property.
pub fn is_white_space_char(c: char) -> (ws: bool)
    ensures
        ws == is_white_space(c),
{
    ('\t' <= c && c <= '\r') || c == ' ' || c == '\u{85}' || c == '\u{a0}' || c == '\u{1680}' || (
    '\u{2000}' <= c && c <= '\u{200a}') || c == '\u{2028}' || c == '\u{2029}' || c == '\u{202f}'
        || c == '\u{205f}' || c == '\u{3000}'
}

/// Bounds of the trimmed part of `cs[a..b]`.
fn trim_bounds(cs: &Vec<char>, a: usize, b: usize) -> (bounds: (usize, usize))
    requires
        a <= b <= cs@.len(),
    ensures
        a <= bounds.0 <= bounds.1 <= b,
        cs@.subrange(bounds.0 as int, bounds.1 as int) == trim(cs@.subrange(a as int, b as int)),
{
    let mut start = a;
    while start < b && is_white_space_char(cs[start])
        invariant
            a <= start <= b <= cs@.len(),
            trim_start(cs@.subrange(a as int, b as int)) == trim_start(cs@.subrange(start as int, b as int)),
        decreases b - start,
    {
        assert(cs@.subrange(start as int, b as int).skip(1) =~= cs@.subrange(start + 1, b as int));
        start = start + 1;
    }
    let mut end = b;
    while end > start && is_white_space_char(cs[end - 1])
        invariant
            a <= start <= end <= b <= cs@.len(),
            trim_start(cs@.subrange(a as int, b as int)) == cs@.subrange(start as int, b as int),
            trim_end(cs@.subrange(start as int, b as int)) == trim_end(cs@.subrange(start as int, end as int)),
        decreases end - start,
    {
        assert(cs@.subrange(start as int, end as int).drop_last() =~= cs@.subrange(start as int, end - 1));
        end = end - 1;
    }
    (start, end)
}

/// Position of the first `':'` in `cs[a..b]`, if any.
fn find_colon(cs: &Vec<char>, a: usize, b: usize) -> (pos: Option<usize>)
    requires
        a <= b <= cs@.len(),
    ensures
        match pos {
            Some(p) => a <= p < b && first_colon_at(cs@.subrange(a as int, b as int), p - a),
            None => !(exists|p: int| first_colon_at(cs@.subrange(a as int, b as int), p)),
        },
{
    let ghost s = cs@.subrange(a as int, b as int);
    let mut p = a;
    while p < b
        invariant
            a <= p <= b <= cs@.len(),
            s == cs@.subrange(a as int, b as int),
            forall|q: int| 0 <= q < p - a ==> s[q] != ':',
        decreases b - p,
    {
        if cs[p] == ':' {
            return Some(p);
        }
        p = p + 1;
    }
    None
}

/// The `u32` spelled by `cs[a..b]`, read as `str::parse` reads it.
fn parse_u32_chars(cs: &Vec<char>, a: usize, b: usize) -> (id: Option<u32>)
    requires
        a <= b <= cs@.len(),
    ensures
        id == parse_u32_text(cs@.subrange(a as int, b as int)),
{
    let ghost s = cs@.subrange(a as int, b as int);
    let start = if a < b && cs[a] == '+' {
        a + 1
    } else {
        a
    };
    let ghost digits = cs@.subrange(start as int, b as int);
    proof {
        if s.len() > 0 && s[0] == '+' {
            assert(digits =~= s.skip(1));
        } else {
            assert(digits =~= s);
        }
        assert(parse_u32_text(s) == parse_digits(digits));
    }
    if start == b {
        return None;
    }
    let mut value: u64 = 0;
    let mut i = start;
    while i < b
        invariant
            start <= i <= b <= cs@.len(),
            digits == cs@.subrange(start as int, b as int),
            s == cs@.subrange(a as int, b as int),
            parse_u32_text(s) == parse_digits(digits),
            forall|j: int| start <= j < i ==> is_digit_char(#[trigger] cs@[j]),
            value == digits_value(cs@.subrange(start as int, i as int)),
            value <= u32::MAX,
        decreases b - i,
    {
        let c = cs[i];
        if !('0' <= c && c <= '9') {
            proof {
                assert(digits[i - start] == c);
                assert(!is_digit_char(digits[i - start]));
                assert(!(forall|q: int| 0 <= q < digits.len() ==> is_digit_char(digits[q])));
            }
            return None;
        }
        let ghost prev = cs@.subrange(start as int, i as int);
        assert(cs@.subrange(start as int, i + 1).drop_last() =~= prev);
        let next = value * 10 + (c as u64 - '0' as u64);
        if next > 0xFFFF_FFFF {
            proof {
                lemma_digits_value_grows(digits, (i + 1 - start) as int);
                assert(digits.take(i + 1 - start) =~= cs@.subrange(start as int, i + 1));
                assert(digits_value(digits) > u32::MAX);
            }
            return None;
        }
        value = next;
        i = i + 1;
    }
    assert(cs@.subrange(start as int, b as int) =~= digits);
    Some(value as u32)
}

/// A longer digit prefix is worth at least as much as a shorter one.
proof fn lemma_digits_value_grows(digits: Seq<char>, n: int)
    requires
        0 <= n <= digits.len(),
    ensures
        digits_value(digits.take(n)) <= digits_value(digits),
    decreases digits.len() - n,
{
    if n < digits.len() {
        lemma_digits_value_grows(digits, n + 1);
        assert(digits.take(n + 1).drop_last() =~= digits.take(n));
    } else {
        assert(digits.take(n) =~= digits);
    }
}

/// Parses a lesson name mapping: one `id: name` entry per line; blank lines,
/// `#` comments and lines without a parsable id are skipped.
pub fn parse_lesson_mapping(content: &str) -> (entries: Vec<(u32, String)>)
    ensures
        entries@.len() == mapping_entries(content@).len(),
        forall|i: int|
            0 <= i < entries@.len() ==> (#[trigger] entries@[i]).0 == mapping_entries(content@)[i].0
                && entries@[i].1@ == mapping_entries(content@)[i].1,
{
    let mut cs: Vec<char> = Vec::new();
    for c in it: content.chars()
        invariant
            cs@ == it.seq().take(it.index() as int),
    {
        cs.push(c);
    }
    assert(cs@ =~= content@);
    let n = cs.len();
    let mut entries: Vec<(u32, String)> = Vec::new();
    let ghost mut done: Seq<Seq<char>> = seq![];
    let mut start: usize = 0;
    let mut j: usize = 0;
    proof {
        assert(cs@.take(0) =~= Seq::<char>::empty());
        assert(cs@.subrange(0, 0) =~= Seq::<char>::empty());
        assert(done.push(cs@.subrange(0, 0)) =~= seq![Seq::<char>::empty()]);
    }
    while j < n
        invariant
            n == cs@.len(),
            cs@ == content@,
            start <= j <= n,
            lines_of(cs@.take(j as int)) == done.push(cs@.subrange(start as int, j as int)),
            entries@.len() == entries_of_lines(done).len(),
            forall|i: int|
                0 <= i < entries@.len() ==> (#[trigger] entries@[i]).0 == entries_of_lines(done)[i].0
                    && entries@[i].1@ == entries_of_lines(done)[i].1,
        decreases n - j,
    {
        proof {
            assert(cs@.take(j + 1).drop_last() =~= cs@.take(j as int));
            assert(cs@.take(j + 1).last() == cs@[j as int]);
        }
        if cs[j] == '\n' {
            let ghost line = cs@.subrange(start as int, j as int);
            let ghost old_entries = entries@;
            push_entry(content, &cs, start, j, &mut entries);
            proof {
                let new_done = done.push(line);
                assert(new_done.drop_last() =~= done);
                lemma_entries_step(done, line, old_entries, entries@);
                done = new_done;
                assert(cs@.subrange(j + 1, j + 1) =~= Seq::<char>::empty());
            }
            start = j + 1;
        } else {
            proof {
                assert(cs@.subrange(start as int, j as int).push(cs@[j as int]) =~= cs@.subrange(
                    start as int,
                    j + 1,
                ));
            }
        }
        j = j + 1;
    }
    let ghost line = cs@.subrange(start as int, n as int);
    let ghost old_entries = entries@;
    push_entry(content, &cs, start, n, &mut entries);
    proof {
        assert(done.push(line).drop_last() =~= done);
        assert(cs@.take(n as int) =~= cs@);
        lemma_entries_step(done, line, old_entries, entries@);
    }
    entries
}

/// Adding a line adds its entry, if it gives one.
proof fn lemma_entries_step(
    done: Seq<Seq<char>>,
    line: Seq<char>,
    before: Seq<(u32, String)>,
    after: Seq<(u32, String)>,
)
    requires
        before.len() == entries_of_lines(done).len(),
        forall|i: int|
            0 <= i < before.len() ==> (#[trigger] before[i]).0 == entries_of_lines(done)[i].0
                && before[i].1@ == entries_of_lines(done)[i].1,
        match mapping_entry(line) {
            Some(e) => after.len() == before.len() + 1 && after.drop_last() == before && after.last().0
                == e.0 && after.last().1@ == e.1,
            None => after == before,
        },
    ensures
        after.len() == entries_of_lines(done.push(line)).len(),
        forall|i: int|
            0 <= i < after.len() ==> (#[trigger] after[i]).0 == entries_of_lines(done.push(line))[i].0
                && after[i].1@ == entries_of_lines(done.push(line))[i].1,
{
    let all = done.push(line);
    assert(all.drop_last() =~= done);
    assert(all.last() == line);
    let prev = entries_of_lines(done);
    let next = entries_of_lines(all);
    assert forall|i: int| 0 <= i < after.len() implies (#[trigger] after[i]).0 == next[i].0
        && after[i].1@ == next[i].1 by {
        if i < before.len() {
            assert(next[i] == prev[i]);
            if mapping_entry(line) is Some {
                assert(after[i] == after.drop_last()[i]);
            }
        }
    }
}

/// Appends the entry of the line `cs[a..b]`, if it gives one.
fn push_entry(content: &str, cs: &Vec<char>, a: usize, b: usize, entries: &mut Vec<(u32, String)>)
    requires
        cs@ == content@,
        a <= b <= cs@.len(),
    ensures
        match mapping_entry(cs@.subrange(a as int, b as int)) {
            Some(e) => final(entries)@.len() == old(entries)@.len() + 1 && final(entries)@.drop_last()
                == old(entries)@ && final(entries)@.last().0 == e.0 && final(entries)@.last().1@ == e.1,
            None => final(entries)@ == old(entries)@,
        },
{
    let ghost line = cs@.subrange(a as int, b as int);
    let (ta, tb) = trim_bounds(cs, a, b);
    let ghost t = cs@.subrange(ta as int, tb as int);
    if ta == tb || cs[ta] == '#' {
        return;
    }
    let p = match find_colon(cs, ta, tb) {
        Some(p) => p,
        None => {
            return;
        },
    };
    proof {
        assert forall|q: int| first_colon_at(t, q) implies q == p - ta by {
            if q < p - ta {
                assert(t[q] != ':');
            } else if q > p - ta {
                assert(t[p - ta] != ':');
            }
        }
        assert(first_colon_at(t, p - ta));
        assert(t.take(p - ta) =~= cs@.subrange(ta as int, p as int));
        assert(t.skip(p - ta + 1) =~= cs@.subrange(p + 1, tb as int));
    }
    let (la, lb) = trim_bounds(cs, ta, p);
    let id = match parse_u32_chars(cs, la, lb) {
        Some(id) => id,
        None => {
            return;
        },
    };
    let (ra, rb) = trim_bounds(cs, p + 1, tb);
    let name = content.substring_char(ra, rb).to_owned();
    entries.push((id, name));
    assert(entries@.drop_last() =~= old(entries)@);
}

} // verus!
