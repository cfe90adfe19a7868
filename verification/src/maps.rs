//! Where a binary was loaded, by the kernel's list of the memory that a process maps.

use vstd::prelude::*;

use crate::inferior::Inferior;
use crate::inferior::InferiorV;
use crate::meta::first_from;
use crate::meta::first_such;
use crate::text::chars_of;
use crate::text::Text;

verus! {

/// Why it is not known where a binary was loaded.
#[derive(Debug, Clone, Copy, PartialEq, Eq, Structural)]
pub enum LoadBaseError {
    /// No line of the list is about the binary.
    NotFound,
    /// The first line about the binary does not begin with an address.
    BadAddress,
}

/// The word of a line, counted from zero, that is the path of the file that is mapped.
pub const PATH_WORD: usize = 5;

// ---- text ----

/// Whether a character is white space.
pub open spec fn is_space(c: char) -> bool {
    ||| '\u{9}' <= c <= '\u{d}'
    ||| c == '\u{20}'
    ||| c == '\u{85}'
    ||| c == '\u{a0}'
    ||| c == '\u{1680}'
    ||| '\u{2000}' <= c <= '\u{200a}'
    ||| c == '\u{2028}'
    ||| c == '\u{2029}'
    ||| c == '\u{202f}'
    ||| c == '\u{205f}'
    ||| c == '\u{3000}'
}

/// Whether a character is white space.
fn space(c: char) -> (r: bool)
    ensures
        r == is_space(c),
{
    ('\u{9}' <= c && c <= '\u{d}') || c == '\u{20}' || c == '\u{85}' || c == '\u{a0}' || c == '\u{1680}' || (
    '\u{2000}' <= c && c <= '\u{200a}') || c == '\u{2028}' || c == '\u{2029}' || c == '\u{202f}' || c
        == '\u{205f}' || c == '\u{3000}'
}

/// The text before the first character that satisfies `stop`; all of it where none does.
pub open spec fn before(s: Text, stop: spec_fn(char) -> bool) -> Text
    decreases s.len(),
{
    if s.len() == 0 || stop(s[0]) {
        Seq::empty()
    } else {
        seq![s[0]] + before(s.drop_first(), stop)
    }
}

/// A line without the carriage return at its end.
pub open spec fn without_return(s: Text) -> Text {
    if s.len() > 0 && s.last() == '\r' {
        s.drop_last()
    } else {
        s
    }
}

/// The lines of a text. A carriage return before the end of a line belongs to the end.
pub open spec fn lines_of(s: Text) -> Seq<Text>
    decreases s.len(),
{
    if s.len() == 0 {
        Seq::empty()
    } else {
        let line = before(s, |c: char| c == '\n');
        if line.len() < s.len() {
            seq![without_return(line)] + lines_of(s.skip(line.len() as int + 1))
        } else {
            seq![line]
        }
    }
}

/// The words of a text, with white space between them.
pub open spec fn words_of(s: Text) -> Seq<Text>
    decreases s.len(),
{
    if s.len() == 0 {
        Seq::empty()
    } else if is_space(s[0]) {
        words_of(s.drop_first())
    } else {
        let word = before(s, |c: char| is_space(c));
        if 0 < word.len() <= s.len() {
            seq![word] + words_of(s.skip(word.len() as int))
        } else {
            Seq::empty()
        }
    }
}

/// The value of a hexadecimal digit.
pub open spec fn hex_digit(c: char) -> Option<int> {
    if '0' <= c <= '9' {
        Some(c as u32 - '0' as u32)
    } else if 'a' <= c <= 'f' {
        Some(c as u32 - 'a' as u32 + 10)
    } else if 'A' <= c <= 'F' {
        Some(c as u32 - 'A' as u32 + 10)
    } else {
        None
    }
}

/// The number that hexadecimal digits stand for; none where a character is no such digit.
pub open spec fn hex_value(s: Text) -> Option<int>
    decreases s.len(),
{
    if s.len() == 0 {
        Some(0)
    } else {
        match (hex_value(s.drop_last()), hex_digit(s.last())) {
            (Some(v), Some(d)) => Some(v * 16 + d),
            _ => None,
        }
    }
}

/// The number that a hexadecimal numeral stands for, with a plus sign before it or not; none where it
/// is no numeral, or the number does not fit in a word.
pub open spec fn parsed_hex(s: Text) -> Option<u64> {
    let digits = if s.len() > 0 && s[0] == '+' {
        s.drop_first()
    } else {
        s
    };
    match hex_value(digits) {
        Some(v) => if digits.len() > 0 && v < 0x1_0000_0000_0000_0000 {
            Some(v as u64)
        } else {
            None
        },
        None => None,
    }
}

/// What is before the first such character is the beginning of the text.
proof fn lemma_before(s: Text, stop: spec_fn(char) -> bool)
    ensures
        before(s, stop).len() <= s.len(),
        before(s, stop) == s.take(before(s, stop).len() as int),
        before(s, stop).len() < s.len() ==> stop(s[before(s, stop).len() as int]),
        forall|i: int| 0 <= i < before(s, stop).len() ==> !stop(#[trigger] s[i]),
    decreases s.len(),
{
    if s.len() > 0 && !stop(s[0]) {
        let rest = s.drop_first();
        lemma_before(rest, stop);
        let n = before(rest, stop).len() as int;
        assert(before(s, stop) =~= s.take(n + 1));
        assert forall|i: int| 0 <= i < n + 1 implies !stop(#[trigger] s[i]) by {
            if i > 0 {
                assert(s[i] == rest[i - 1]);
            }
        }
    } else {
        assert(before(s, stop) =~= s.take(0));
    }
}

/// The text up to the first such character is what is before it.
proof fn lemma_before_is(s: Text, stop: spec_fn(char) -> bool, n: int)
    requires
        0 <= n <= s.len(),
        forall|i: int| 0 <= i < n ==> !stop(#[trigger] s[i]),
        n < s.len() ==> stop(s[n]),
    ensures
        before(s, stop) == s.take(n),
{
    lemma_before(s, stop);
    let k = before(s, stop).len() as int;
    if k < n {
        assert(!stop(s[k]));
    }
}

// ---- reading ----

/// How far the word goes that begins at a position.
fn word_end(v: &Vec<char>, from: usize) -> (r: usize)
    requires
        from <= v.len(),
    ensures
        from <= r <= v.len(),
        v@.subrange(from as int, r as int) == before(v@.skip(from as int), |c: char| is_space(c)),
{
    let ghost s = v@.skip(from as int);
    let ghost stop = |c: char| is_space(c);
    let mut i: usize = from;
    while i < v.len() && !space(v[i])
        invariant
            from <= i <= v.len(),
            s == v@.skip(from as int),
            stop == |c: char| is_space(c),
            forall|k: int| 0 <= k < i - from ==> !stop(#[trigger] s[k]),
        decreases v.len() - i,
    {
        assert(!stop(s[i - from]));
        i += 1;
    }
    proof {
        lemma_before_is(s, stop, i - from);
        assert(v@.subrange(from as int, i as int) =~= s.take(i - from));
    }
    i
}

/// Whether the word at some place of a line is a given one.
fn word_is(v: &Vec<char>, n: usize, wanted: &Vec<char>) -> (r: bool)
    ensures
        r == (n < words_of(v@).len() && words_of(v@)[n as int] == wanted@),
{
    let ghost all = words_of(v@);
    let mut i: usize = 0;
    let mut left: usize = n;
    let ghost mut seen: int = 0;
    assert(v@.skip(0) =~= v@);
    assert(all.skip(0) =~= all);
    while i < v.len()
        invariant
            i <= v.len(),
            all == words_of(v@),
            0 <= seen <= all.len(),
            seen + left == n,
            words_of(v@.skip(i as int)) == all.skip(seen),
        decreases v.len() - i,
    {
        let ghost s = v@.skip(i as int);
        if space(v[i]) {
            assert(s.drop_first() =~= v@.skip(i + 1));
            i += 1;
        } else {
            let end: usize = word_end(v, i);
            proof {
                lemma_before(s, |c: char| is_space(c));
                assert(s[0] == v@[i as int]);
                assert(end > i) by {
                    if end == i {
                        assert(is_space(s[0]));
                    }
                }
                assert(s.skip(end - i) =~= v@.skip(end as int));
                assert(words_of(s) == seq![before(s, |c: char| is_space(c))] + words_of(v@.skip(end as int)));
                assert(all[seen] == words_of(s)[0]);
                assert(words_of(s).skip(1) =~= words_of(v@.skip(end as int)));
                assert(all.skip(seen).skip(1) =~= all.skip(seen + 1));
            }
            if left == 0 {
                return same_part(v, i, end, wanted);
            }
            left = left - 1;
            proof {
                seen = seen + 1;
            }
            i = end;
        }
    }
    assert(v@.skip(i as int) =~= Seq::<char>::empty());
    assert(all.skip(seen).len() == 0);
    false
}

/// Whether a part of a text is a given one.
fn same_part(v: &Vec<char>, from: usize, to: usize, wanted: &Vec<char>) -> (r: bool)
    requires
        from <= to <= v.len(),
    ensures
        r == (v@.subrange(from as int, to as int) == wanted@),
{
    let ghost part = v@.subrange(from as int, to as int);
    if to - from != wanted.len() {
        return false;
    }
    let mut k: usize = 0;
    while k < wanted.len()
        invariant
            k <= wanted.len(),
            from <= to <= v.len(),
            to - from == wanted.len(),
            part == v@.subrange(from as int, to as int),
            forall|j: int| 0 <= j < k ==> part[j] == wanted@[j],
        decreases wanted.len() - k,
    {
        if v[from + k] != wanted[k] {
            assert(part[k as int] != wanted@[k as int]);
            return false;
        }
        k += 1;
    }
    assert(part =~= wanted@);
    true
}

/// The value of a hexadecimal digit.
fn digit_value(c: char) -> (r: Option<u64>)
    ensures
        match r {
            Some(d) => hex_digit(c) == Some(d as int) && d < 16,
            None => hex_digit(c) is None,
        },
{
    if '0' <= c && c <= '9' {
        Some((c as u32 - '0' as u32) as u64)
    } else if 'a' <= c && c <= 'f' {
        Some((c as u32 - 'a' as u32) as u64 + 10)
    } else if 'A' <= c && c <= 'F' {
        Some((c as u32 - 'A' as u32) as u64 + 10)
    } else {
        None
    }
}

/// More digits make no smaller number.
proof fn lemma_hex_grows(s: Text, k: int)
    requires
        0 <= k <= s.len(),
        hex_value(s) is Some,
    ensures
        hex_value(s.take(k)) is Some,
        0 <= hex_value(s.take(k)).unwrap() <= hex_value(s).unwrap(),
    decreases s.len(),
{
    if k < s.len() {
        lemma_hex_grows(s.drop_last(), k);
        assert(s.drop_last().take(k) =~= s.take(k));
    } else {
        assert(s.take(k) =~= s);
        if s.len() > 0 {
            lemma_hex_grows(s.drop_last(), s.len() - 1);
            assert(s.drop_last().take(s.len() - 1) =~= s.drop_last());
        }
    }
}

/// Reads the first characters of a text as a hexadecimal numeral.
fn parse_hex(v: &Vec<char>, len: usize) -> (r: Option<u64>)
    requires
        len <= v.len(),
    ensures
        r == parsed_hex(v@.take(len as int)),
{
    let ghost s = v@.take(len as int);
    let start: usize = if len > 0 && v[0] == '+' { 1 } else { 0 };
    let ghost digits = if s.len() > 0 && s[0] == '+' {
        s.drop_first()
    } else {
        s
    };
    assert(digits =~= v@.subrange(start as int, len as int));
    if start == len {
        return None;
    }
    let mut value: u64 = 0;
    let mut i: usize = start;
    assert(digits.take(0) =~= Seq::<char>::empty());
    while i < len
        invariant
            start <= i <= len <= v.len(),
            s == v@.take(len as int),
            digits == v@.subrange(start as int, len as int),
            digits == (if s.len() > 0 && s[0] == '+' {
                s.drop_first()
            } else {
                s
            }),
            hex_value(digits.take(i - start)) == Some(value as int),
        decreases len - i,
    {
        let ghost longer = digits.take(i - start + 1);
        assert(longer.drop_last() =~= digits.take(i - start));
        assert(longer.last() == v@[i as int]);
        let d: u64 = match digit_value(v[i]) {
            Some(d) => d,
            None => {
                proof {
                    if hex_value(digits) is Some {
                        lemma_hex_grows(digits, i - start + 1);
                    }
                }
                return None;
            },
        };
        if value > 0x0fff_ffff_ffff_ffff {
            proof {
                if hex_value(digits) is Some {
                    lemma_hex_grows(digits, i - start + 1);
                }
            }
            return None;
        }
        value = value * 16 + d;
        i += 1;
    }
    assert(digits.take(i - start) =~= digits);
    Some(value)
}

// ---- lines ----

/// The lines of a text.
fn split_lines(v: &Vec<char>) -> (r: Vec<Vec<char>>)
    ensures
        r@.map_values(|l: Vec<char>| l@) == lines_of(v@),
{
    let ghost all = lines_of(v@);
    let ghost stop = |c: char| c == '\n';
    let ghost shown = |l: Vec<char>| l@;
    let mut r: Vec<Vec<char>> = Vec::new();
    let mut from: usize = 0;
    assert(v@.skip(0) =~= v@);
    assert(r@.map_values(shown) + all =~= all);
    while from < v.len()
        invariant
            from <= v.len(),
            all == lines_of(v@),
            stop == |c: char| c == '\n',
            shown == |l: Vec<char>| l@,
            r@.map_values(shown) + lines_of(v@.skip(from as int)) == all,
        decreases v.len() - from,
    {
        let ghost s = v@.skip(from as int);
        let ghost done = r@;
        let mut line: Vec<char> = Vec::new();
        let mut i: usize = from;
        while i < v.len() && v[i] != '\n'
            invariant
                from <= i <= v.len(),
                s == v@.skip(from as int),
                stop == |c: char| c == '\n',
                line@ == v@.subrange(from as int, i as int),
                forall|k: int| 0 <= k < i - from ==> !stop(#[trigger] s[k]),
            decreases v.len() - i,
        {
            assert(!stop(s[i - from]));
            line.push(v[i]);
            i += 1;
            assert(line@ =~= v@.subrange(from as int, i as int));
        }
        proof {
            lemma_before_is(s, stop, i - from);
            assert(line@ =~= s.take(i - from));
        }
        if i < v.len() {
            let ghost whole = line@;
            if line.len() > 0 && line[line.len() - 1] == '\r' {
                let _ = line.pop();
            }
            assert(line@ =~= without_return(whole));
            r.push(line);
            proof {
                let tail = lines_of(v@.skip(i + 1));
                assert(s.skip(whole.len() as int + 1) =~= v@.skip(i + 1));
                assert(lines_of(s) == seq![without_return(whole)] + tail);
                assert(r@.map_values(shown) =~= done.map_values(shown).push(without_return(whole)));
                assert(r@.map_values(shown) + tail =~= done.map_values(shown) + lines_of(s));
            }
            from = i + 1;
        } else {
            let ghost whole = line@;
            r.push(line);
            proof {
                assert(lines_of(s) == seq![whole]);
                assert(r@.map_values(shown) =~= done.map_values(shown) + seq![whole]);
                assert(v@.skip(i as int) =~= Seq::<char>::empty());
                assert(r@.map_values(shown) + Seq::<Text>::empty() =~= r@.map_values(shown));
            }
            from = i;
        }
    }
    assert(v@.skip(from as int) =~= Seq::<char>::empty());
    assert(r@.map_values(shown) + Seq::<Text>::empty() =~= r@.map_values(shown));
    r
}

// ---- the load base ----

/// Whether a line of the list is about a file.
pub open spec fn about(line: Text, path: Text) -> bool {
    words_of(line).len() > PATH_WORD && words_of(line)[PATH_WORD as int] == path
}

/// The address at the beginning of a line: what is before its first dash.
pub open spec fn address_of(line: Text) -> Option<u64> {
    parsed_hex(before(line, |c: char| c == '-'))
}

/// Where a binary was loaded: the address of the first line that is about it.
pub open spec fn base_in(lines: Seq<Text>, path: Text) -> Result<u64, LoadBaseError> {
    match first_such(lines.len(), |i: int| about(lines[i], path)) {
        Some(i) => match address_of(lines[i]) {
            Some(a) => Ok(a),
            None => Err(LoadBaseError::BadAddress),
        },
        None => Err(LoadBaseError::NotFound),
    }
}

/// Where a binary is at runtime: nowhere else than it says where it cannot be moved, and else where the
/// list of the process has it.
pub open spec fn load_base_of(is_pie: bool, maps: Text, exe: Option<Text>) -> Result<u64, LoadBaseError> {
    if !is_pie {
        Ok(0)
    } else {
        match exe {
            Some(path) => base_in(lines_of(maps), path),
            None => Err(LoadBaseError::NotFound),
        }
    }
}

/// The address at the beginning of a line.
fn read_address(line: &Vec<char>) -> (r: Option<u64>)
    ensures
        r == address_of(line@),
{
    let ghost stop = |c: char| c == '-';
    let mut i: usize = 0;
    while i < line.len() && line[i] != '-'
        invariant
            i <= line.len(),
            stop == |c: char| c == '-',
            forall|k: int| 0 <= k < i ==> !stop(#[trigger] line@[k]),
        decreases line.len() - i,
    {
        assert(!stop(line@[i as int]));
        i += 1;
    }
    proof {
        lemma_before_is(line@, stop, i as int);
    }
    parse_hex(line, i)
}

/// Where a binary was loaded.
fn find_base(maps: &str, exe: &str) -> (r: Result<u64, LoadBaseError>)
    ensures
        r == base_in(lines_of(maps@), exe@),
{
    let lines: Vec<Vec<char>> = split_lines(&chars_of(maps));
    let path: Vec<char> = chars_of(exe);
    let ghost all = lines_of(maps@);
    let ghost wanted = |i: int| about(all[i], exe@);
    let mut i: usize = 0;
    while i < lines.len()
        invariant
            i <= lines.len(),
            lines@.map_values(|l: Vec<char>| l@) == all,
            path@ == exe@,
            all == lines_of(maps@),
            wanted == |i: int| about(all[i], exe@),
            first_such(all.len(), wanted) == first_from(all.len() as int, wanted, i as int),
        decreases lines.len() - i,
    {
        assert(all[i as int] == lines@[i as int]@);
        if word_is(&lines[i], PATH_WORD, &path) {
            return match read_address(&lines[i]) {
                Some(a) => Ok(a),
                None => Err(LoadBaseError::BadAddress),
            };
        }
        assert(!wanted(i as int));
        i += 1;
    }
    assert(all.len() == lines.len());
    Err(LoadBaseError::NotFound)
}

impl Inferior {
    /// Learns where the binary was loaded, from the list of the memory that the process maps and the
    /// path of its binary. A binary that cannot be moved is where it says.
    pub fn resolve_load_base(&mut self, is_pie: bool, maps: &str, exe: Option<&str>) -> (r: Result<u64, LoadBaseError>)
        ensures
            r == load_base_of(
                is_pie,
                maps@,
                match exe {
                    Some(path) => Some(path@),
                    None => None,
                },
            ),
            final(self)@ == (match r {
                Ok(base) => InferiorV { load_base: base, ..old(self)@ },
                Err(_) => old(self)@,
            }),
    {
        if !is_pie {
            self.set_load_base(0);
            return Ok(0);
        }
        let path: &str = match exe {
            Some(path) => path,
            None => {
                return Err(LoadBaseError::NotFound);
            },
        };
        let base: u64 = find_base(maps, path)?;
        self.set_load_base(base);
        Ok(base)
    }
}

} // verus!
