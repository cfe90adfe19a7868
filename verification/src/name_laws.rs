//! Laws of the names of functions: what is left out of them, and which crate they belong to.

use vstd::prelude::*;

use crate::names::angle_depth;
use crate::names::as_at;
use crate::names::bare;
use crate::names::bracket_depth;
use crate::names::clean;
use crate::names::closes_at;
use crate::names::hash_at;
use crate::names::in_crate;
use crate::names::is_hex_digit;
use crate::names::passes;
use crate::names::top_level_as;
use crate::names::unbracketed;
use crate::names::without_hash;
use crate::text::Text;

verus! {

// ---- hashes ----

/// The digits that a hash is written with.
pub open spec fn digits_of_hash(d: Text) -> bool {
    &&& d.len() >= 8
    &&& forall|k: int|
        0 <= k < d.len() ==> {
            ||| '0' <= #[trigger] d[k] <= '9'
            ||| 'a' <= d[k] <= 'f'
            ||| 'A' <= d[k] <= 'F'
        }
}

/// A name with a hash at its end.
pub open spec fn hashed(s: Text, d: Text) -> Text {
    s + seq![':', ':', 'h'] + d
}

/// Whether a hash begins at one place only.
proof fn lemma_hash_unique(s: Text, i: int, j: int)
    requires
        hash_at(s, i),
        hash_at(s, j),
    ensures
        i == j,
{
    if i < j {
        assert(is_hex_digit(s[j + 2]) || j + 2 < i + 3);
        assert(is_hex_digit(s[j + 1]) || j + 1 < i + 3);
        assert(!is_hex_digit(':') && !is_hex_digit('h'));
    }
    if j < i {
        assert(is_hex_digit(s[i + 2]) || i + 2 < j + 3);
        assert(is_hex_digit(s[i + 1]) || i + 1 < j + 3);
        assert(!is_hex_digit(':') && !is_hex_digit('h'));
    }
}

/// The hash that the compiler puts at the end of a symbol, two colons, an `h` and at least eight
/// hexadecimal digits, is left out of the name, and nothing else is.
pub proof fn law_hash_left_out(s: Text, d: Text)
    requires
        digits_of_hash(d),
    ensures
        without_hash(hashed(s, d)) == s,
        clean(hashed(s, d)) == unbracketed(s),
{
    let full = hashed(s, d);
    let n = s.len() as int;
    assert(full[n] == ':' && full[n + 1] == ':' && full[n + 2] == 'h');
    assert forall|k: int| n + 3 <= k < full.len() implies #[trigger] is_hex_digit(full[k]) by {
        assert(full[k] == d[k - n - 3]);
    }
    assert(hash_at(full, n));
    let i = choose|i: int| hash_at(full, i);
    lemma_hash_unique(full, i, n);
    assert(full.take(n) =~= s);
}

/// A name that does not end with a hash stays as it is.
pub proof fn law_no_hash(s: Text)
    requires
        forall|a: Text, d: Text| digits_of_hash(d) ==> s != #[trigger] hashed(a, d),
    ensures
        without_hash(s) == s,
{
    if exists|i: int| hash_at(s, i) {
        let i = choose|i: int| hash_at(s, i);
        let a = s.take(i);
        let d = s.skip(i + 3);
        assert forall|k: int| 0 <= k < d.len() implies '0' <= #[trigger] d[k] <= '9' || 'a' <= d[k] <= 'f' || 'A'
            <= d[k] <= 'F' by {
            assert(is_hex_digit(s[k + i + 3]));
        }
        assert(digits_of_hash(d));
        assert(s =~= hashed(a, d));
    }
}

// ---- brackets ----

/// How often a character stands in a text.
pub open spec fn count(s: Text, c: char) -> int {
    s.to_multiset().count(c) as int
}

/// What one more character at the end adds to a count.
proof fn lemma_count_last(s: Text, c: char)
    ensures
        s.len() == 0 ==> count(s, c) == 0,
        s.len() > 0 ==> count(s, c) == count(s.drop_last(), c) + (if s.last() == c {
            1int
        } else {
            0
        }),
{
    broadcast use vstd::seq_lib::group_to_multiset_ensures;

    if s.len() > 0 {
        assert(s =~= s.drop_last().push(s.last()));
    }
}

/// As many angle brackets are open as were opened and not closed.
pub proof fn law_angle_depth(s: Text)
    ensures
        angle_depth(s) == count(s, '<') - count(s, '>'),
    decreases s.len(),
{
    lemma_count_last(s, '<');
    lemma_count_last(s, '>');
    if s.len() > 0 {
        law_angle_depth(s.drop_last());
    }
}

/// As many brackets are open as were opened and not closed, of all three kinds together.
pub proof fn law_bracket_depth(s: Text)
    ensures
        bracket_depth(s) == count(s, '<') + count(s, '(') + count(s, '[') - count(s, '>') - count(s, ')') - count(
            s,
            ']',
        ),
    decreases s.len(),
{
    lemma_count_last(s, '<');
    lemma_count_last(s, '>');
    lemma_count_last(s, '(');
    lemma_count_last(s, ')');
    lemma_count_last(s, '[');
    lemma_count_last(s, ']');
    if s.len() > 0 {
        law_bracket_depth(s.drop_last());
    }
}

/// Whether the angle brackets in a text are closed in it, none before it was opened.
pub open spec fn balanced(s: Text) -> bool {
    &&& count(s, '<') == count(s, '>')
    &&& forall|j: int| 0 <= j <= s.len() ==> count(#[trigger] s.take(j), '<') >= count(s.take(j), '>')
}

/// Two texts with ` as ` between them.
pub open spec fn one_as_other(a: Text, b: Text) -> Text {
    a + seq![' ', 'a', 's', ' '] + b
}

/// Whether ` as ` stands in a text with no bracket open before it.
pub open spec fn says_as(s: Text) -> bool {
    exists|a: Text, b: Text| s == #[trigger] one_as_other(a, b) && bracket_depth(a) == 0
}

/// What stands outside of all brackets.
proof fn lemma_says_as(s: Text)
    ensures
        says_as(s) <==> top_level_as(s),
{
    if top_level_as(s) {
        let i = choose|i: int| as_at(s, i);
        let a = s.take(i);
        let b = s.skip(i + 4);
        assert(s =~= one_as_other(a, b));
    }
    if says_as(s) {
        let (a, b) = choose|a: Text, b: Text|
            s == #[trigger] one_as_other(a, b) && bracket_depth(a) == 0;
        let i = a.len() as int;
        assert(s.take(i) =~= a);
        assert(s[i] == ' ' && s[i + 1] == 'a' && s[i + 2] == 's' && s[i + 3] == ' ');
        assert(as_at(s, i));
    }
}

/// The angle bracket that is opened first is closed where those in between are.
proof fn lemma_closes(inner: Text, tail: Text, i: int)
    requires
        balanced(inner),
    ensures
        closes_at(seq!['<'] + inner + seq!['>'] + tail, i) <==> i == inner.len() + 1,
{
    let s = seq!['<'] + inner + seq!['>'] + tail;
    let n = inner.len() as int;
    assert(s.take(n + 1) =~= seq!['<'] + inner);
    assert forall|j: int| 1 <= j <= n + 1 implies angle_depth(#[trigger] s.take(j)) > 0 by {
        lemma_depth_of_front(inner, s, j);
        law_angle_depth(inner.take(j - 1));
    }
    lemma_depth_of_front(inner, s, n + 1);
    assert(inner.take(n) =~= inner);
    law_angle_depth(inner);
    assert(s.take(n + 2).drop_last() =~= s.take(n + 1));
    assert(s.take(n + 2).last() == '>');
    assert(angle_depth(s.take(n + 2)) == 0);
    assert(closes_at(s, n + 1));
    if closes_at(s, i) {
        if i < n + 1 {
            assert(angle_depth(s.take(i + 1)) > 0);
        }
        if i > n + 1 {
            assert(angle_depth(s.take(n + 2)) > 0);
        }
    }
}

/// How many angle brackets are open some way into a bracketed text.
proof fn lemma_depth_of_front(inner: Text, s: Text, j: int)
    requires
        1 <= j <= inner.len() + 1,
        inner.len() + 1 <= s.len(),
        s.take(inner.len() as int + 1) == seq!['<'] + inner,
    ensures
        angle_depth(s.take(j)) == 1 + angle_depth(inner.take(j - 1)),
    decreases j,
{
    let whole = s.take(inner.len() as int + 1);
    assert(s.take(j) =~= whole.take(j));
    if j == 1 {
        assert(s.take(1) =~= seq!['<']);
        assert(seq!['<'].drop_last() =~= Seq::<char>::empty());
        assert(angle_depth(seq!['<']) == angle_depth(Seq::<char>::empty()) + 1);
        assert(inner.take(0) =~= Seq::<char>::empty());
    } else {
        lemma_depth_of_front(inner, s, j - 1);
        assert(s.take(j).drop_last() =~= s.take(j - 1));
        assert(inner.take(j - 1).drop_last() =~= inner.take(j - 2));
        assert(whole[j - 1] == inner[j - 2]);
        assert(s.take(j).last() == inner.take(j - 1).last());
    }
}

/// The name of a method of a type is written without the brackets around the type; but where the brackets
/// hold a type as a trait, or are not followed by two colons, the name stays as it is.
pub proof fn law_brackets_left_out(inner: Text, tail: Text)
    requires
        balanced(inner),
    ensures
        ({
            let s = seq!['<'] + inner + seq!['>'] + tail;
            let method = tail.len() >= 2 && tail.take(2) == seq![':', ':'];
            unbracketed(s) == (if method && !says_as(inner) {
                inner + tail
            } else {
                s
            })
        }),
{
    let s = seq!['<'] + inner + seq!['>'] + tail;
    let n = inner.len() as int;
    lemma_closes(inner, tail, n + 1);
    let i = choose|i: int| closes_at(s, i);
    lemma_closes(inner, tail, i);
    assert(s.subrange(1, n + 1) =~= inner);
    assert(s.skip(n + 2) =~= tail);
    lemma_says_as(inner);
    if tail.len() >= 2 {
        assert(tail.take(2)[0] == tail[0] && tail.take(2)[1] == tail[1]);
        if tail[0] == ':' && tail[1] == ':' {
            assert(tail.take(2) =~= seq![':', ':']);
        }
    }
}

/// A name that does not begin with an angle bracket stays as it is.
pub proof fn law_unbracketed_kept(s: Text)
    requires
        s.len() == 0 || s[0] != '<',
    ensures
        unbracketed(s) == s,
{
}

// ---- crates ----

/// A number of opening angle brackets.
pub open spec fn angles(k: nat) -> Text {
    Seq::new(k, |i: int| '<')
}

/// Without the angle brackets at its start, a name is what comes behind the last of them.
pub proof fn law_bare(k: nat, s: Text)
    requires
        s.len() == 0 || s[0] != '<',
    ensures
        bare(angles(k) + s) == s,
    decreases k,
{
    if k == 0 {
        assert(angles(0) + s =~= s);
    } else {
        assert((angles(k) + s)[0] == '<');
        assert((angles(k) + s).skip(1) =~= angles((k - 1) as nat) + s);
        law_bare((k - 1) as nat, s);
    }
}

/// Every name is some angle brackets and what it is without them.
proof fn lemma_bare_parts(s: Text) -> (k: nat)
    ensures
        s == angles(k) + bare(s),
        bare(s).len() == 0 || bare(s)[0] != '<',
    decreases s.len(),
{
    if s.len() > 0 && s[0] == '<' {
        let k = lemma_bare_parts(s.skip(1));
        assert(s =~= seq!['<'] + s.skip(1));
        assert(angles(k + 1) =~= seq!['<'] + angles(k));
        assert(s =~= angles(k + 1) + bare(s));
        k + 1
    } else {
        assert(s =~= angles(0) + s);
        0
    }
}

/// A name in a crate, behind some angle brackets.
pub open spec fn path_in(k: nat, krate: Text, rest: Text) -> Text {
    angles(k) + (krate + seq![':', ':'] + rest)
}

/// Whether a name is that of a crate, with something behind it.
pub open spec fn begins_with_crate(name: Text, krate: Text) -> bool {
    exists|k: nat, rest: Text| name == #[trigger] path_in(k, krate, rest)
}

/// The names in a crate are those that begin with its name and two colons, behind any number of angle
/// brackets; and a filter lets just the names in one of its crates pass, or all if it names none.
pub proof fn law_in_crate(name: Text, krate: Text)
    requires
        krate.len() > 0,
        krate[0] != '<',
    ensures
        in_crate(name, krate) <==> begins_with_crate(name, krate),
{
    if in_crate(name, krate) {
        let b = bare(name);
        let k = lemma_bare_parts(name);
        let rest = b.skip(krate.len() as int + 2);
        assert(b =~= krate + seq![':', ':'] + rest);
        assert(name == path_in(k, krate, rest));
    }
    if begins_with_crate(name, krate) {
        let (k, rest) = choose|k: nat, rest: Text| name == #[trigger] path_in(k, krate, rest);
        let b = krate + seq![':', ':'] + rest;
        assert(b[0] == krate[0]);
        law_bare(k, b);
        assert(b.take(krate.len() as int) =~= krate);
    }
}

/// Each crate that a filter names lets its own names pass; no other name passes, unless there is no
/// filter.
pub proof fn law_filter(filter: Seq<Text>, krate: Text, name: Text)
    ensures
        passes(Seq::empty(), name),
        passes(filter.push(krate), name) <==> in_crate(name, krate) || (filter.len() > 0 && passes(filter, name)),
{
    let more = filter.push(krate);
    assert(more[filter.len() as int] == krate);
    if filter.len() > 0 && passes(filter, name) {
        let i = choose|i: int| 0 <= i < filter.len() && in_crate(name, #[trigger] filter[i]);
        assert(more[i] == filter[i]);
    }
    if passes(more, name) {
        let i = choose|i: int| 0 <= i < more.len() && in_crate(name, #[trigger] more[i]);
        if i < filter.len() {
            assert(filter[i] == more[i]);
        }
    }
}

} // verus!
