//! Names: of functions as they are demangled, of registers, and of the places where
//! parameters lie on entry to a function.

use vstd::prelude::*;

use crate::text::chars_of;
use crate::text::matches_at;
use crate::text::string_of;
use crate::text::Text;

verus! {

// ---- demangled names ----

/// What `rustc_demangle` prints for a symbol in its alternate form.
pub uninterp spec fn demangled(sym: Text) -> Text;

/// `rustc_demangle::demangle`, printed with `{:#}`: the readable form of a symbol without the hash
/// that legacy mangling adds. What it prints depends on the symbol alone.
#[verifier::external_body]
fn demangle_alternate(sym: &str) -> (r: String)
    ensures
        r@ == demangled(sym@),
{
    format!("{:#}", rustc_demangle::demangle(sym))
}

/// Whether `c` is an ASCII hexadecimal digit.
pub open spec fn is_hex_digit(c: char) -> bool {
    '0' <= c <= '9' || 'a' <= c <= 'f' || 'A' <= c <= 'F'
}

/// Whether a hash begins at `i` in `s`: `::h` and then nothing but hexadecimal digits, eight of
/// them at least.
pub open spec fn hash_at(s: Text, i: int) -> bool {
    &&& 0 <= i
    &&& i + 11 <= s.len()
    &&& s[i] == ':' && s[i + 1] == ':' && s[i + 2] == 'h'
    &&& forall|k: int| i + 3 <= k < s.len() ==> #[trigger] is_hex_digit(s[k])
}

/// `s` without the hash at its end, where it has one.
pub open spec fn without_hash(s: Text) -> Text {
    if exists|i: int| hash_at(s, i) {
        s.take(choose|i: int| hash_at(s, i))
    } else {
        s
    }
}

/// A name has at most one hash.
proof fn lemma_hash_unique(s: Text, i: int, j: int)
    requires
        hash_at(s, i),
        hash_at(s, j),
    ensures
        i == j,
{
    if i < j {
        assert(is_hex_digit(s[if j >= i + 3 { j } else { j + 2 }]) || s[j] == s[i + (j - i)]);
        if j >= i + 3 {
            assert(is_hex_digit(s[j]));
        } else {
            assert(j + 1 >= i + 2);
            assert(is_hex_digit(s[j + 2]));
            if j == i + 1 {
                assert(s[i + 2] == 'h' && s[j + 1] == ':');
            } else {
                assert(is_hex_digit(s[j + 1]));
            }
        }
    } else if j < i {
        if i >= j + 3 {
            assert(is_hex_digit(s[i]));
        } else if i == j + 1 {
            assert(s[j + 2] == 'h' && s[i + 1] == ':');
        } else {
            assert(is_hex_digit(s[i + 1]));
        }
    }
}

/// Takes the hash off the end of a name: `a::b::h0123456789abcdef` becomes `a::b`.
pub fn strip_hash(s: &str) -> (r: String)
    ensures
        r@ == without_hash(s@),
{
    let v: Vec<char> = chars_of(s);
    // `i` is where the run of hexadecimal digits at the end of the name begins.
    let mut i: usize = v.len();
    while i > 0 && (('0' <= v[i - 1] && v[i - 1] <= '9') || ('a' <= v[i - 1] && v[i - 1] <= 'f') || ('A'
        <= v[i - 1] && v[i - 1] <= 'F'))
        invariant
            i <= v.len(),
            forall|k: int| i <= k < v.len() ==> #[trigger] is_hex_digit(v@[k]),
        decreases i,
    {
        i -= 1;
    }
    if i >= 3 && v.len() - i >= 8 && v[i - 1] == 'h' && v[i - 2] == ':' && v[i - 3] == ':' {
        proof {
            assert(hash_at(v@, i - 3));
            lemma_hash_unique(v@, i - 3, choose|j: int| hash_at(v@, j));
        }
        return string_of(&v, 0, i - 3);
    }
    proof {
        if exists|j: int| hash_at(v@, j) {
            let j = choose|j: int| hash_at(v@, j);
            assert(!is_hex_digit(v@[j + 2]));
            if i > j + 3 {
                assert(is_hex_digit(v@[i - 1]));
            }
            assert(i == j + 3);
        }
    }
    s.to_string()
}

/// What one character adds to the nesting depth of brackets.
pub open spec fn bracket_step(c: char) -> int {
    if c == '<' || c == '(' || c == '[' {
        1
    } else if c == '>' || c == ')' || c == ']' {
        -1
    } else {
        0
    }
}

/// How many brackets are open at the end of `s`.
pub open spec fn bracket_depth(s: Text) -> int
    decreases s.len(),
{
    if s.len() == 0 {
        0
    } else {
        bracket_depth(s.drop_last()) + bracket_step(s.last())
    }
}

/// Whether ` as ` stands at `i` in `s`, outside all brackets.
pub open spec fn as_at(s: Text, i: int) -> bool {
    &&& 0 <= i
    &&& i + 4 <= s.len()
    &&& s[i] == ' ' && s[i + 1] == 'a' && s[i + 2] == 's' && s[i + 3] == ' '
    &&& bracket_depth(s.take(i)) == 0
}

/// Whether ` as ` stands in `s` outside all brackets.
pub open spec fn top_level_as(s: Text) -> bool {
    exists|i: int| as_at(s, i)
}

/// `has_top_level_as` on the characters of `v` in `from..to`.
fn top_level_as_in(v: &Vec<char>, from: usize, to: usize) -> (r: bool)
    requires
        from <= to <= v.len(),
    ensures
        r == top_level_as(v@.subrange(from as int, to as int)),
{
    let ghost s = v@.subrange(from as int, to as int);
    let mut depth: i128 = 0;
    let mut i: usize = from;
    while i < to
        invariant
            from <= i <= to <= v.len(),
            s == v@.subrange(from as int, to as int),
            depth == bracket_depth(s.take(i - from)),
            -(i - from) <= depth <= i - from,
            forall|j: int| 0 <= j < i - from ==> !as_at(s, j),
        decreases to - i,
    {
        let c: char = v[i];
        assert(s[i - from] == c);
        if c == ' ' && depth == 0 && to - i >= 4 && v[i + 1] == 'a' && v[i + 2] == 's' && v[i + 3] == ' ' {
            assert(as_at(s, i - from));
            return true;
        }
        assert(!as_at(s, i - from));
        assert(s.take(i - from + 1).drop_last() =~= s.take(i - from));
        if c == '<' || c == '(' || c == '[' {
            depth += 1;
        } else if c == '>' || c == ')' || c == ']' {
            depth -= 1;
        }
        i += 1;
    }
    false
}

/// Whether a type names the trait that it is taken as: whether ` as ` stands in `s` outside all
/// brackets.
pub fn has_top_level_as(s: &str) -> (r: bool)
    ensures
        r == top_level_as(s@),
{
    let v: Vec<char> = chars_of(s);
    assert(v@.subrange(0, v@.len() as int) =~= v@);
    top_level_as_in(&v, 0, v.len())
}

/// How many angle brackets are open at the end of `s`.
pub open spec fn angle_depth(s: Text) -> int
    decreases s.len(),
{
    if s.len() == 0 {
        0
    } else {
        angle_depth(s.drop_last()) + (if s.last() == '<' {
            1
        } else if s.last() == '>' {
            -1
        } else {
            0int
        })
    }
}

/// Whether the angle bracket that opens `s` is closed at `i`.
pub open spec fn closes_at(s: Text, i: int) -> bool {
    &&& 0 < i < s.len()
    &&& s[i] == '>'
    &&& angle_depth(s.take(i + 1)) == 0
    &&& forall|j: int| 1 <= j <= i ==> angle_depth(#[trigger] s.take(j)) > 0
}

/// The name of an inherent method without the brackets around its type: `<T>::f` as `T::f`. Names of
/// trait methods, `<T as Trait>::f`, and all other names stay as they are.
pub open spec fn unbracketed(s: Text) -> Text {
    if s.len() > 0 && s[0] == '<' && exists|i: int| closes_at(s, i) {
        let i = choose|i: int| closes_at(s, i);
        let inner = s.subrange(1, i);
        let tail = s.skip(i + 1);
        if !top_level_as(inner) && tail.len() >= 2 && tail[0] == ':' && tail[1] == ':' {
            inner + tail
        } else {
            s
        }
    } else {
        s
    }
}

/// The readable name of a function, from what the demangler printed for its symbol.
pub open spec fn clean(printed: Text) -> Text {
    unbracketed(without_hash(printed))
}

/// The readable name of a function, from what the demangler printed for its symbol: without a hash,
/// and without brackets around the type of an inherent method.
pub fn clean_name(printed: &str) -> (r: String)
    ensures
        r@ == clean(printed@),
{
    let s: String = strip_hash(printed);
    let v: Vec<char> = chars_of(s.as_str());
    if v.len() == 0 || v[0] != '<' {
        return s;
    }
    let mut depth: i128 = 1;
    let mut i: usize = 1;
    proof {
        assert(v@.take(1).drop_last() =~= Seq::<char>::empty());
        assert(angle_depth(Seq::<char>::empty()) == 0);
    }
    while i < v.len()
        invariant
            1 <= i <= v.len(),
            v@ == s@,
            v@[0] == '<',
            depth == angle_depth(v@.take(i as int)),
            0 < depth <= i,
            forall|j: int| 1 <= j <= i ==> angle_depth(#[trigger] v@.take(j)) > 0,
            s@ == without_hash(printed@),
        decreases v.len() - i,
    {
        let c: char = v[i];
        assert(v@.take(i + 1).drop_last() =~= v@.take(i as int));
        if c == '<' {
            depth += 1;
        } else if c == '>' {
            depth -= 1;
            if depth == 0 {
                proof {
                    assert(closes_at(v@, i as int));
                    let k = choose|k: int| closes_at(v@, k);
                    if k < i {
                        assert(angle_depth(v@.take(k + 1)) > 0);
                    } else if i < k {
                        assert(angle_depth(v@.take(i + 1)) > 0);
                    }
                }
                if !top_level_as_in(&v, 1, i) && v.len() - i > 2 && v[i + 1] == ':' && v[i + 2] == ':' {
                    let mut out: String = string_of(&v, 1, i);
                    let tail: String = string_of(&v, i + 1, v.len());
                    out.append(tail.as_str());
                    assert(v@.subrange(i + 1, v@.len() as int) =~= v@.skip(i + 1));
                    return out;
                }
                return s;
            }
        }
        i += 1;
    }
    proof {
        if exists|k: int| closes_at(v@, k) {
            let k = choose|k: int| closes_at(v@, k);
            assert(angle_depth(v@.take(k + 1)) > 0);
        }
    }
    s
}

/// The readable name of the function that a symbol stands for.
pub fn demangle_clean(sym: &str) -> (r: String)
    ensures
        r@ == clean(demangled(sym@)),
{
    let printed: String = demangle_alternate(sym);
    clean_name(printed.as_str())
}

// ---- crate filters ----

/// `s` without the angle brackets at its start.
pub open spec fn bare(s: Text) -> Text
    decreases s.len(),
{
    if s.len() > 0 && s[0] == '<' {
        bare(s.skip(1))
    } else {
        s
    }
}

/// Whether `name` belongs to the crate `krate`: whether it begins with the crate's name and `::`,
/// angle brackets at its start aside.
pub open spec fn in_crate(name: Text, krate: Text) -> bool {
    let b = bare(name);
    &&& b.len() >= krate.len() + 2
    &&& b.take(krate.len() as int) == krate
    &&& b[krate.len() as int] == ':'
    &&& b[krate.len() as int + 1] == ':'
}

/// Whether `name` passes the filter: whether it belongs to one of the crates, or there is no filter.
pub open spec fn passes(filter: Seq<Text>, name: Text) -> bool {
    filter.len() == 0 || exists|i: int| 0 <= i < filter.len() && in_crate(name, #[trigger] filter[i])
}

/// Whether `name` passes the crate filter.
pub fn matches_filter(filter: &Vec<String>, name: &str) -> (r: bool)
    ensures
        r == passes(crate::text::texts(filter@), name@),
{
    let ghost f = crate::text::texts(filter@);
    if filter.len() == 0 {
        return true;
    }
    let v: Vec<char> = chars_of(name);
    let mut start: usize = 0;
    assert(v@.skip(0) =~= v@);
    while start < v.len() && v[start] == '<'
        invariant
            start <= v.len(),
            bare(v@) == bare(v@.skip(start as int)),
        decreases v.len() - start,
    {
        assert(v@.skip(start as int).skip(1) =~= v@.skip(start + 1));
        start += 1;
    }
    let ghost b = v@.skip(start as int);
    assert(bare(v@) == b);
    let mut i: usize = 0;
    while i < filter.len()
        invariant
            i <= filter.len(),
            start <= v.len(),
            b == v@.skip(start as int),
            bare(name@) == b,
            f == crate::text::texts(filter@),
            f.len() == filter.len(),
            forall|j: int| 0 <= j < i ==> !in_crate(name@, #[trigger] f[j]),
        decreases filter.len() - i,
    {
        let k: Vec<char> = chars_of(filter[i].as_str());
        assert(f[i as int] == k@);
        let rest: usize = v.len() - start;
        if rest >= k.len() && rest - k.len() >= 2 {
            let at: usize = start + k.len();
            assert(b.take(k@.len() as int) =~= v@.subrange(start as int, start + k@.len()));
            if matches_at(&v, &k, start) && v[at] == ':' && v[at + 1] == ':' {
                assert(in_crate(name@, f[i as int]));
                return true;
            }
        }
        assert(!in_crate(name@, f[i as int]));
        i += 1;
    }
    false
}

} // verus!
