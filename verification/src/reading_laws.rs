//! Laws of the texts that are read and written: lines and words, numbers, arguments, and messages.

use vstd::prelude::*;

use crate::build_id::compared;
use crate::build_id::hex_text;
use crate::build_id::BuildIdCheckV;
use crate::build_log::action_for;
use crate::build_log::build_outcome;
use crate::build_log::built_by;
use crate::build_log::json_parses;
use crate::build_log::json_string;
use crate::build_log::message_in;
use crate::build_log::BuildError;
use crate::build_log::LineActionV;
use crate::build_log::MessageV;
use crate::cli::build_words;
use crate::cli::command_in;
use crate::cli::filters_in;
use crate::cli::from_subcommand;
use crate::cli::sorted_args;
use crate::cli::CommandV;
use crate::location::first_place;
use crate::location::sign_at;
use crate::location::source_of;
use crate::location::ArgSourceV;
use crate::maps::about;
use crate::maps::address_of;
use crate::maps::base_in;
use crate::maps::before;
use crate::maps::hex_digit;
use crate::maps::hex_value;
use crate::maps::is_space;
use crate::maps::lines_of;
use crate::maps::load_base_of;
use crate::maps::parsed_hex;
use crate::maps::words_of;
use crate::maps::LoadBaseError;
use crate::meta::first_such;
use crate::meta::lemma_first_from;
use crate::meta::metadata_suffix;
use crate::meta::FunctionV;
use crate::meta::MetadataV;
use crate::object_file::debug_section_names;
use crate::object_file::debug_sections;
use crate::object_file::object_section;
use crate::report::hexadecimal;
use crate::report::law_hexadecimal;
use crate::report::shown;
use crate::report::shown_in_line;
use crate::report::summary_of;
use crate::report::with_code;
use crate::text::bytes_lt;
use crate::text::is_digit;
use crate::text::joined;
use crate::text::parsed_i64;
use crate::text::Text;
use crate::walk::StatsV;

verus! {

// ---- order and joining ----

/// One sequence of bytes comes before another if it has the smaller byte where they first differ, or ends
/// where the other goes on.
pub proof fn law_byte_order(a: Seq<u8>, b: Seq<u8>, k: int)
    requires
        0 <= k <= a.len(),
        k <= b.len(),
        forall|i: int| 0 <= i < k ==> #[trigger] a[i] == b[i],
        k < a.len() && k < b.len() ==> a[k] != b[k],
    ensures
        bytes_lt(a, b) <==> k < b.len() && (k == a.len() || a[k] < b[k]),
    decreases k,
{
    if k > 0 {
        let c = a.drop_first();
        let d = b.drop_first();
        assert(a[0] == b[0]);
        assert forall|i: int| 0 <= i < k - 1 implies #[trigger] c[i] == d[i] by {
            assert(a[i + 1] == b[i + 1]);
        }
        law_byte_order(c, d, k - 1);
    }
}

/// Joining puts the separator between any two parts, and nowhere else.
pub proof fn law_joined(parts: Seq<Text>, part: Text, sep: Text)
    ensures
        joined(Seq::empty(), sep) == Seq::<char>::empty(),
        joined(seq![part], sep) == part,
        parts.len() > 0 ==> joined(parts.push(part), sep) == joined(parts, sep) + sep + part,
{
    assert(parts.push(part).drop_last() =~= parts);
}

// ---- lines and words ----

/// What stands before the first character of some kind.
pub proof fn law_before(s: Text, stop: spec_fn(char) -> bool, k: int)
    requires
        0 <= k <= s.len(),
        forall|i: int| 0 <= i < k ==> !stop(#[trigger] s[i]),
        k < s.len() ==> stop(s[k]),
    ensures
        before(s, stop) == s.take(k),
    decreases k,
{
    if k == 0 {
        assert(s.take(0) =~= Seq::<char>::empty());
    } else {
        let rest = s.drop_first();
        assert(!stop(s[0]));
        assert forall|i: int| 0 <= i < k - 1 implies !stop(#[trigger] rest[i]) by {
            assert(!stop(s[i + 1]));
        }
        law_before(rest, stop, k - 1);
        assert(s.take(k) =~= seq![s[0]] + rest.take(k - 1));
    }
}

/// A text is read line by line: a line ends with a line feed, which may come behind a carriage return;
/// the last line may end without.
pub proof fn law_lines(line: Text, rest: Text)
    requires
        forall|i: int| 0 <= i < line.len() ==> (#[trigger] line[i]) != '\n',
    ensures
        lines_of(Seq::empty()).len() == 0,
        line.len() > 0 ==> lines_of(line) == seq![line],
        line.len() == 0 || line.last() != '\r' ==> lines_of(line + seq!['\n'] + rest) == seq![line] + lines_of(rest),
        lines_of(line + seq!['\r', '\n'] + rest) == seq![line] + lines_of(rest),
{
    let stop = |c: char| c == '\n';
    law_before(line, stop, line.len() as int);
    assert(line.take(line.len() as int) =~= line);
    let all = line + seq!['\n'] + rest;
    assert forall|i: int| 0 <= i < line.len() implies !stop(#[trigger] all[i]) by {
        assert(all[i] == line[i]);
    }
    law_before(all, stop, line.len() as int);
    assert(all.take(line.len() as int) =~= line);
    assert(all.skip(line.len() as int + 1) =~= rest);
    let back = line.push('\r');
    let two = line + seq!['\r', '\n'] + rest;
    assert forall|i: int| 0 <= i < back.len() implies !stop(#[trigger] two[i]) by {
        if i < line.len() {
            assert(two[i] == line[i]);
        }
    }
    law_before(two, stop, back.len() as int);
    assert(two.take(back.len() as int) =~= back);
    assert(two.skip(back.len() as int + 1) =~= rest);
    assert(back.drop_last() =~= line);
}

/// A line is read word by word: words are separated by any amount of space.
pub proof fn law_words(word: Text, space: char, rest: Text)
    requires
        word.len() > 0,
        forall|i: int| 0 <= i < word.len() ==> !is_space(#[trigger] word[i]),
        is_space(space),
    ensures
        words_of(Seq::empty()).len() == 0,
        words_of(seq![space] + rest) == words_of(rest),
        words_of(word) == seq![word],
        words_of(word + seq![space] + rest) == seq![word] + words_of(rest),
{
    let stop = |c: char| is_space(c);
    assert((seq![space] + rest).drop_first() =~= rest);
    law_before(word, stop, word.len() as int);
    assert(word.take(word.len() as int) =~= word);
    assert(!is_space(word[0]));
    assert(before(word, |c: char| is_space(c)) == word);
    let none = word.skip(word.len() as int);
    assert(none =~= Seq::<char>::empty());
    assert(words_of(none) =~= Seq::<Text>::empty());
    assert(words_of(word) =~= seq![word]);
    let all = word + seq![space] + rest;
    assert forall|i: int| 0 <= i < word.len() implies !stop(#[trigger] all[i]) by {
        assert(all[i] == word[i]);
    }
    law_before(all, stop, word.len() as int);
    assert(all.take(word.len() as int) =~= word);
    assert(before(all, |c: char| is_space(c)) == word);
    let behind = all.skip(word.len() as int);
    assert(behind =~= seq![space] + rest);
    assert(behind.drop_first() =~= rest);
    assert(all[0] == word[0]);
    assert(words_of(behind) == words_of(rest));
}

/// Of the characters of ASCII, the space and those from tab to carriage return separate words.
pub proof fn law_spaces(c: char)
    requires
        (c as u32) < 0x80,
    ensures
        is_space(c) <==> c == ' ' || 9 <= c as u32 <= 13,
{
}

/// What stands before the first colon.
pub proof fn law_first_place(s: Text, rest: Text)
    requires
        forall|i: int| 0 <= i < s.len() ==> (#[trigger] s[i]) != ':',
    ensures
        first_place(s) == s,
        first_place(s + seq![':'] + rest) == s,
    decreases s.len(),
{
    let all = s + seq![':'] + rest;
    if s.len() > 0 {
        let less = s.drop_first();
        assert forall|i: int| 0 <= i < less.len() implies (#[trigger] less[i]) != ':' by {
            assert(s[i + 1] != ':');
        }
        law_first_place(less, rest);
        assert(all.drop_first() =~= less + seq![':'] + rest);
        assert(all[0] == s[0]);
        assert(s =~= seq![s[0]] + less);
    } else {
        assert(all[0] == ':');
    }
}

// ---- hexadecimal numbers ----

/// The sixteen digits have the values from 0 to 15, those above 9 in either case; no other character is a
/// digit.
pub proof fn law_hex_digits(c: char)
    ensures
        hex_digit(c) matches Some(d) ==> 0 <= d < 16,
        hex_digit(c) matches Some(d) ==> {
            ||| d < 10 && c as u32 == 48 + d
            ||| d >= 10 && c as u32 == 97 + (d - 10)
            ||| d >= 10 && c as u32 == 65 + (d - 10)
        },
        hex_digit(c) is None <==> !(48 <= c as u32 <= 57) && !(97 <= c as u32 <= 102) && !(65 <= c as u32 <= 70),
{
}

/// A number is read from its digits, the last counting least; a plus before them does not count.
pub proof fn law_hex_read(s: Text, c: char)
    ensures
        hex_digit(c) is Some && hex_value(s) is Some ==> hex_value(s.push(c)) == Some(
            16 * hex_value(s).unwrap() + hex_digit(c).unwrap(),
        ),
        hex_digit(c) is None || hex_value(s) is None ==> hex_value(s.push(c)) is None,
        s.len() == 0 || s[0] != '+' ==> parsed_hex(seq!['+'] + s) == parsed_hex(s),
        parsed_hex(Seq::empty()) is None,
        s.len() > 0 && s[0] != '+' ==> match parsed_hex(s) {
            Some(n) => hex_value(s) matches Some(v) && v == n,
            None => hex_value(s) matches Some(v) ==> v >= 0x1_0000_0000_0000_0000,
        },
{
    assert(s.push(c).drop_last() =~= s);
    assert((seq!['+'] + s).drop_first() =~= s);
    lemma_hex_bounds(s);
}

/// Reading adds digit by digit.
proof fn lemma_hex_bounds(s: Text)
    ensures
        hex_value(s) matches Some(v) ==> v >= 0,
    decreases s.len(),
{
    if s.len() > 0 {
        lemma_hex_bounds(s.drop_last());
    }
}

/// Hexadecimal numbers are written with digits, in lower case, and without a zero in front.
pub proof fn law_hex_written(n: nat)
    ensures
        hexadecimal(n).len() > 0,
        forall|i: int|
            0 <= i < hexadecimal(n).len() ==> '0' <= #[trigger] hexadecimal(n)[i] <= '9' || 'a' <= hexadecimal(n)[i]
                <= 'f',
        hexadecimal(n)[0] == '0' <==> n == 0,
    decreases n,
{
    if n >= 16 {
        law_hex_written(n / 16);
    }
}

/// What is shown of a register is its name, and its value behind `=0x`, from which the value can be read
/// again; registers are shown in a line, one after the other.
pub proof fn law_shown(name: Text, value: u64, list: Seq<(Text, u64)>)
    ensures
        exists|digits: Text|
            #[trigger] parsed_hex(digits) == Some(value) && shown(name, value) == name + "=0x"@ + digits,
        shown_in_line(Seq::empty()) == Seq::<char>::empty(),
        shown_in_line(seq![(name, value)]) == shown(name, value),
        list.len() > 0 ==> shown_in_line(list.push((name, value))) == shown_in_line(list) + " "@ + shown(name, value),
{
    law_hexadecimal(value);
    assert(parsed_hex(hexadecimal(value as nat)) == Some(value));
    let f = |p: (Text, u64)| shown(p.0, p.1);
    let one = seq![(name, value)];
    assert(Seq::<(Text, u64)>::empty().map_values(f) =~= Seq::<Text>::empty());
    assert(one.map_values(f) =~= seq![shown(name, value)]);
    assert(list.push((name, value)).map_values(f) =~= list.map_values(f).push(shown(name, value)));
    law_joined(list.map_values(f), shown(name, value), " "@);
}

/// A build ID is written byte by byte, each with two digits in lower case, the higher first.
pub proof fn law_hex_text(a: Seq<u8>, b: u8)
    ensures
        hex_text(Seq::empty()).len() == 0,
        hex_text(a.push(b)).len() == hex_text(a).len() + 2,
        hex_text(a.push(b)).take(hex_text(a).len() as int) == hex_text(a),
        ({
            let two = hex_text(a.push(b)).skip(hex_text(a).len() as int);
            &&& hex_digit(two[0]) matches Some(h) && hex_digit(two[1]) matches Some(l) && b == 16 * h + l
            &&& !('A' <= two[0] <= 'F') && !('A' <= two[1] <= 'F')
        }),
{
    assert(a.push(b).drop_last() =~= a);
    let text = hex_text(a.push(b));
    assert(text.take(hex_text(a).len() as int) =~= hex_text(a));
}

/// A build ID that was recorded is compared with that of the binary; one that was not is not, and one that
/// the binary lacks is missing.
pub proof fn law_compared(expected: Option<Text>, actual: Option<Seq<u8>>)
    ensures
        compared(expected, actual) is NotRecorded <==> expected is None,
        compared(expected, actual) is Missing <==> expected is Some && actual is None,
        compared(expected, actual) is Matches ==> expected is Some && actual is Some && expected == Some(
            hex_text(actual.unwrap()),
        ),
        compared(expected, actual) matches BuildIdCheckV::Differs(id) ==> expected is Some && expected != Some(id)
            && actual is Some && id == hex_text(actual.unwrap()),
{
}

// ---- where a binary was loaded ----

/// The address of a mapping stands before the first dash of its line.
pub proof fn law_address_of(n: u64, rest: Text)
    ensures
        address_of(hexadecimal(n as nat) + seq!['-'] + rest) == Some(n),
{
    let digits = hexadecimal(n as nat);
    let line = digits + seq!['-'] + rest;
    let stop = |c: char| c == '-';
    law_hex_written(n as nat);
    assert forall|i: int| 0 <= i < digits.len() implies !stop(#[trigger] line[i]) by {
        assert(line[i] == digits[i]);
    }
    law_before(line, stop, digits.len() as int);
    assert(line.take(digits.len() as int) =~= digits);
    law_hexadecimal(n);
}

/// A binary was loaded where the first mapping begins whose sixth word is its path; it is an error if
/// there is no such mapping, or if its address cannot be read.
pub proof fn law_base_in(lines: Seq<Text>, path: Text, i: int)
    requires
        0 <= i < lines.len(),
        words_of(lines[i]).len() > 5,
        words_of(lines[i])[5] == path,
        forall|j: int|
            0 <= j < i ==> words_of(#[trigger] lines[j]).len() <= 5 || words_of(lines[j])[5] != path,
    ensures
        match base_in(lines, path) {
            Ok(a) => address_of(lines[i]) == Some(a),
            Err(e) => e == LoadBaseError::BadAddress && address_of(lines[i]) is None,
        },
{
    let wanted = |i: int| about(lines[i], path);
    lemma_first_from(lines.len() as int, wanted, 0);
    assert(wanted(i));
    let k = first_such(lines.len(), wanted).unwrap();
    assert(wanted(k));
    if k < i {
        assert(words_of(lines[k]).len() <= 5 || words_of(lines[k])[5] != path);
    }
}

/// A binary that is not position-independent is loaded at 0. For one that is, its path must be known, and
/// stand in one of the lines.
pub proof fn law_load_base(maps: Text, exe: Option<Text>)
    ensures
        load_base_of(false, maps, exe) == Ok::<u64, LoadBaseError>(0),
        exe is None ==> load_base_of(true, maps, exe) == Err::<u64, LoadBaseError>(LoadBaseError::NotFound),
        exe matches Some(path) ==> load_base_of(true, maps, exe) == base_in(lines_of(maps), path),
        exe matches Some(path) ==> (forall|j: int|
            0 <= j < lines_of(maps).len() ==> words_of(#[trigger] lines_of(maps)[j]).len() <= 5 || words_of(
                lines_of(maps)[j],
            )[5] != path) ==> load_base_of(true, maps, exe) == Err::<u64, LoadBaseError>(LoadBaseError::NotFound),
{
    if let Some(path) = exe {
        let lines = lines_of(maps);
        let wanted = |i: int| about(lines[i], path);
        lemma_first_from(lines.len() as int, wanted, 0);
        if let Some(k) = first_such(lines.len(), wanted) {
            assert(wanted(k));
            assert(words_of(lines[k]).len() > 5);
        }
    }
}

// ---- arguments of commands ----

/// Whether no option stands among some arguments.
pub open spec fn plain(args: Seq<Text>) -> bool {
    forall|i: int| 0 <= i < args.len() ==> (#[trigger] args[i]) != "--crate"@ && args[i] != "--"@
}

/// Every `--crate`, up to two dashes, takes the argument behind it as the name of a crate for the filter;
/// one without an argument behind it is dropped. All else is handed on in order.
pub proof fn law_crate_options(front: Seq<Text>, krate: Text, back: Seq<Text>)
    requires
        plain(front),
    ensures
        sorted_args(front) == (Seq::<Text>::empty(), front),
        sorted_args(front + seq!["--crate"@]) == (Seq::<Text>::empty(), front),
        sorted_args(front + seq!["--crate"@, krate] + back) == (
            seq![krate] + sorted_args(back).0,
            front + sorted_args(back).1,
        ),
    decreases front.len(),
{
    let one = front + seq!["--crate"@];
    let two = front + seq!["--crate"@, krate] + back;
    if front.len() == 0 {
        reveal_strlit("--crate");
        reveal_strlit("--");
        assert(one[0] == "--crate"@);
        assert(two[0] == "--crate"@ && two[1] == krate);
        assert(two.skip(2) =~= back);
        assert(front + sorted_args(back).1 =~= sorted_args(back).1);
        assert(front =~= Seq::<Text>::empty());
    } else {
        let less = front.skip(1);
        assert(front[0] != "--crate"@ && front[0] != "--"@);
        assert forall|i: int| 0 <= i < less.len() implies (#[trigger] less[i]) != "--crate"@ && less[i] != "--"@ by {
            assert(front[i + 1] != "--crate"@);
        }
        law_crate_options(less, krate, back);
        assert(one.skip(1) =~= less + seq!["--crate"@]);
        assert(two.skip(1) =~= less + seq!["--crate"@, krate] + back);
        assert(one[0] == front[0] && two[0] == front[0]);
        assert(front =~= seq![front[0]] + less);
        assert(front + sorted_args(back).1 =~= seq![front[0]] + (less + sorted_args(back).1));
    }
}

/// The first argument says what is to be done: `build` with all that is handed on, or `extract` with the
/// first of it; anything else is told how to. The name of the command itself, which cargo puts before the
/// first argument, does not count.
pub proof fn law_commands(args: Seq<Text>, rest: Seq<Text>)
    ensures
        command_in(Seq::empty()) == CommandV::Usage,
        filters_in(Seq::empty()).len() == 0,
        args.len() == 0 || args[0] != "rrmf"@ ==> command_in(seq!["rrmf"@] + args) == command_in(args) && filters_in(
            seq!["rrmf"@] + args,
        ) == filters_in(args),
        command_in(seq!["build"@] + rest) == CommandV::Build(sorted_args(rest).1),
        filters_in(seq!["build"@] + rest) == sorted_args(rest).0,
        sorted_args(rest).1.len() > 0 ==> command_in(seq!["extract"@] + rest) == CommandV::Extract(
            sorted_args(rest).1[0],
        ),
        sorted_args(rest).1.len() == 0 ==> command_in(seq!["extract"@] + rest) == CommandV::MissingPath,
        filters_in(seq!["extract"@] + rest) == sorted_args(rest).0,
        args.len() > 0 && args[0] != "rrmf"@ && args[0] != "build"@ && args[0] != "extract"@ ==> command_in(args)
            == CommandV::Usage,
{
    reveal_strlit("rrmf");
    reveal_strlit("build");
    reveal_strlit("extract");
    assert("rrmf"@.len() == 4 && "build"@.len() == 5 && "extract"@.len() == 7);
    let cargo = seq!["rrmf"@] + args;
    assert(cargo[0] == "rrmf"@);
    assert(cargo.skip(1) =~= args);
    let build = seq!["build"@] + rest;
    let extract = seq!["extract"@] + rest;
    assert(build[0] == "build"@ && extract[0] == "extract"@);
    assert(build.skip(1) =~= rest);
    assert(extract.skip(1) =~= rest);
    assert(from_subcommand(build) == build);
    assert(from_subcommand(extract) == extract);
}

// ---- messages of a build ----

/// A message of the compiler is shown as it renders it, and an artifact is remembered if it is a program;
/// all other messages are skipped, and lines that are no messages are echoed.
pub proof fn law_actions(m: MessageV)
    ensures
        action_for(None) == LineActionV::Echo,
        action_for(Some(m)) matches LineActionV::Show(t) ==> m.reason == Some("compiler-message"@) && m.rendered == Some(
            t,
        ),
        action_for(Some(m)) matches LineActionV::Built(t) ==> m.reason == Some("compiler-artifact"@) && m.executable
            == Some(t),
        m.reason == Some("compiler-message"@) && m.rendered is Some ==> action_for(Some(m)) is Show,
        m.reason == Some("compiler-artifact"@) && m.executable is Some ==> action_for(Some(m)) is Built,
        !(action_for(Some(m)) is Echo),
{
    reveal_strlit("compiler-message");
    reveal_strlit("compiler-artifact");
    assert("compiler-message"@.len() != "compiler-artifact"@.len());
}

/// What is taken from a message: its reason, the rendered text inside of its message, and the program that
/// was built.
pub proof fn law_message_in(line: Text)
    ensures
        message_in(line) is Some <==> json_parses(line),
        message_in(line) matches Some(m) ==> {
            &&& m.reason == json_string(line, "/reason"@)
            &&& m.rendered == json_string(line, "/message/rendered"@)
            &&& m.executable == json_string(line, "/executable"@)
        },
{
}

/// A build that told of no program has built none; one that failed has, whatever it told of; else the last
/// program is what was built.
pub proof fn law_build_outcome(lines: Seq<Text>, executable: Option<Text>)
    ensures
        (forall|j: int| 0 <= j < lines.len() ==> !(action_for(message_in(#[trigger] lines[j])) is Built)) ==> built_by(
            lines,
        ) is None,
        build_outcome(false, executable) == Err::<Text, BuildError>(BuildError::Failed),
        build_outcome(true, None) == Err::<Text, BuildError>(BuildError::NoExecutable),
        executable matches Some(t) ==> build_outcome(true, executable) == Ok::<Text, BuildError>(t),
    decreases lines.len(),
{
    if lines.len() > 0 {
        let short = lines.drop_last();
        law_build_outcome(short, executable);
        if forall|j: int| 0 <= j < lines.len() ==> !(action_for(message_in(#[trigger] lines[j])) is Built) {
            assert forall|j: int| 0 <= j < short.len() implies !(action_for(message_in(#[trigger] short[j])) is Built) by {
                assert(short[j] == lines[j]);
            }
            assert(!(action_for(message_in(lines[lines.len() - 1])) is Built));
        }
    }
}

// ---- what is told of an extraction ----

/// Each function that has code counts.
pub proof fn law_with_code(functions: Seq<FunctionV>, f: FunctionV)
    ensures
        with_code(Seq::empty()) == 0,
        f.address is Some ==> with_code(functions.push(f)) == with_code(functions) + 1,
        f.address is None ==> with_code(functions.push(f)) == with_code(functions),
{
    assert(functions.push(f).drop_last() =~= functions);
}

/// What is told counts what was seen, what was kept, and what was left out; names are told as samples of
/// what was left out only where nothing was kept.
pub proof fn law_summary(stats: StatsV, meta: MetadataV)
    ensures
        ({
            let told = summary_of(stats, meta);
            &&& told.dwarf_versions == stats.dwarf_versions
            &&& told.subprograms_seen == stats.subprograms_seen
            &&& told.filtered_out == stats.filtered_out
            &&& told.variables_seen == stats.variables_seen
            &&& told.functions_kept == meta.functions.len()
            &&& told.variables_kept == meta.variables.len()
            &&& told.with_address == with_code(meta.functions)
            &&& meta.functions.len() > 0 ==> told.samples.len() == 0
            &&& meta.functions.len() == 0 ==> told.samples == stats.filtered_samples
        }),
{
}

// ---- sections ----

/// Debug information is read from the sections that hold it, each under its own name; a section that is
/// not there, or that cannot be read, is taken as empty.
pub proof fn law_debug_sections(data: Seq<u8>, name: Text)
    requires
        name == ".debug_abbrev"@ || name == ".debug_addr"@ || name == ".debug_info"@ || name == ".debug_line"@ || name
            == ".debug_line_str"@ || name == ".debug_loc"@ || name == ".debug_loclists"@ || name == ".debug_ranges"@
            || name == ".debug_rnglists"@ || name == ".debug_str"@ || name == ".debug_str_offsets"@ || name
            == ".debug_types"@ || name == ".debug_aranges"@ || name == ".debug_names"@ || name == ".debug_macro"@
            || name == ".debug_macinfo"@,
    ensures
        object_section(data, name) matches Some(Some(bytes)) ==> debug_sections(data)[name] == bytes,
        !(object_section(data, name) matches Some(Some(_))) ==> debug_sections(data)[name].len() == 0,
{
    let names = debug_section_names();
    assert(names[0] == ".debug_abbrev"@ && names[1] == ".debug_addr"@ && names[2] == ".debug_aranges"@);
    assert(names[3] == ".debug_info"@ && names[4] == ".debug_line"@ && names[5] == ".debug_line_str"@);
    assert(names[6] == ".debug_loc"@ && names[7] == ".debug_loclists"@ && names[8] == ".debug_macinfo"@);
    assert(names[9] == ".debug_macro"@ && names[10] == ".debug_names"@ && names[11] == ".debug_ranges"@);
    assert(names[12] == ".debug_rnglists"@ && names[13] == ".debug_str"@ && names[14] == ".debug_str_offsets"@);
    assert(names[15] == ".debug_types"@);
    assert(names.contains(name));
}

// ---- places and numbers that cannot be read ----

/// A place that is not in brackets is a register that holds the value; brackets that do not hold a number
/// behind a sign are not taken for such.
pub proof fn law_held(entry: Text)
    ensures
        ({
            let first = first_place(entry);
            let bracketed = first.len() >= 2 && first[0] == '[' && first.last() == ']';
            &&& !bracketed ==> source_of(entry) == ArgSourceV::Held(first)
            &&& source_of(entry) matches ArgSourceV::Held(reg) ==> reg == first
            &&& source_of(entry) matches ArgSourceV::Pointed(reg, _) ==> bracketed && reg.len() + 2 <= first.len()
                && reg == first.subrange(1, 1 + reg.len() as int)
        }),
{
    let first = first_place(entry);
    if first.len() >= 2 && first[0] == '[' && first.last() == ']' {
        let inner = first.subrange(1, first.len() - 1);
        if exists|i: int| sign_at(inner, i) {
            let i = choose|i: int| sign_at(inner, i);
            assert(inner.take(i) =~= first.subrange(1, 1 + i));
        } else {
            assert(inner =~= first.subrange(1, 1 + inner.len() as int));
        }
    }
}

/// A number is a sign or none, and then nothing but digits, one at least.
pub proof fn law_not_a_number(s: Text, i: int)
    requires
        0 <= i < s.len(),
        !('0' <= s[i] <= '9'),
        i > 0 || (s[0] != '+' && s[0] != '-'),
    ensures
        parsed_i64(s) is None,
        parsed_i64(Seq::empty()) is None,
        parsed_i64(seq!['+']) is None,
        parsed_i64(seq!['-']) is None,
{
    let signed = s[0] == '+' || s[0] == '-';
    let digits = if signed { s.skip(1) } else { s };
    let k = if signed { i - 1 } else { i };
    assert(digits[k] == s[i]);
    assert(!is_digit(digits[k]));
}

// ---- fixed texts ----

/// A build is one for release, with messages that can be read line by line.
pub proof fn law_build_words()
    ensures
        build_words().len() > 0 && build_words()[0] == "build"@,
        build_words().contains("--release"@),
        build_words().contains("--message-format=json-diagnostic-rendered-ansi"@),
        forall|i: int| 0 < i < build_words().len() ==> build_words()[i][0] == '-' && #[trigger] build_words()[i][1] == '-',
{
    reveal_strlit("--release");
    reveal_strlit("--message-format=json-diagnostic-rendered-ansi");
    assert(build_words()[1] == "--release"@);
    assert(build_words()[2] == "--message-format=json-diagnostic-rendered-ansi"@);
}

/// The metadata of a binary lies beside it, under its own name with `.rrmf.json` behind it.
pub proof fn law_metadata_suffix(i: int)
    requires
        0 <= i < ".rrmf.json"@.len(),
    ensures
        metadata_suffix().len() == ".rrmf.json"@.len(),
        metadata_suffix()[i] as int == ".rrmf.json"@[i] as int,
{
    reveal_strlit(".rrmf.json");
}

} // verus!
