//! The YAML reader and writer for the configuration format, built line
//! by line: a version line, a `hotkeys:` header, and six lines per
//! entry. The writer and the reader are each specified against spec
//! functions over character sequences, and reading back what was
//! written is proved to return the original configuration.

use vstd::prelude::*;
use vstd::seq_lib::*;

use crate::config::{Action, ActionV, Config, ConfigV, HotkeyEntry, HotkeyEntryV};
use crate::text::{
    all_line_free, chars_to_string, find_char, lemma_find_char, lemma_find_char_at, line_free,
    lemma_split_unlines, split_lines, split_lines_exec, str_to_chars, unlines, yaml_safe,
};
use vstd::string::{StrSliceExecFns, StringExecFns};
use vstd::slice::{slice_index_get, slice_subrange, slice_to_vec};

verus! {

// ----- decimal numbers -----

/// The digit character for a value below ten.
pub open spec fn digit_char(d: int) -> char {
    if d == 0 {
        '0'
    } else if d == 1 {
        '1'
    } else if d == 2 {
        '2'
    } else if d == 3 {
        '3'
    } else if d == 4 {
        '4'
    } else if d == 5 {
        '5'
    } else if d == 6 {
        '6'
    } else if d == 7 {
        '7'
    } else if d == 8 {
        '8'
    } else {
        '9'
    }
}

/// The value of a digit character, or -1 for any other character.
pub open spec fn digit_val(c: char) -> int {
    if c == '0' {
        0
    } else if c == '1' {
        1
    } else if c == '2' {
        2
    } else if c == '3' {
        3
    } else if c == '4' {
        4
    } else if c == '5' {
        5
    } else if c == '6' {
        6
    } else if c == '7' {
        7
    } else if c == '8' {
        8
    } else if c == '9' {
        9
    } else {
        -1
    }
}

/// Decimal notation of a byte, without leading zeros.
pub open spec fn dec_of(n: u8) -> Seq<char> {
    if n < 10 {
        seq![digit_char(n as int)]
    } else if n < 100 {
        seq![digit_char(n as int / 10), digit_char(n as int % 10)]
    } else {
        seq![
            digit_char(n as int / 100),
            digit_char((n as int / 10) % 10),
            digit_char(n as int % 10),
        ]
    }
}

/// The number a decimal string of one to three digits without leading
/// zeros denotes, or -1 if the string is not of that shape.
pub open spec fn parse_dec(s: Seq<char>) -> int {
    if s.len() == 1 {
        digit_val(s[0])
    } else if s.len() == 2 && digit_val(s[0]) >= 1 && digit_val(s[1]) >= 0 {
        10 * digit_val(s[0]) + digit_val(s[1])
    } else if s.len() == 3 && digit_val(s[0]) >= 1 && digit_val(s[1]) >= 0 && digit_val(s[2])
        >= 0 {
        100 * digit_val(s[0]) + 10 * digit_val(s[1]) + digit_val(s[2])
    } else {
        -1
    }
}

/// Reading a written byte returns the byte.
pub proof fn lemma_dec_roundtrip(n: u8)
    ensures
        parse_dec(dec_of(n)) == n as int,
{
    if n < 10 {
    } else if n < 100 {
        assert(n as int / 10 >= 1);
        assert(10 * (n as int / 10) + (n as int % 10) == n as int);
    } else {
        assert(n as int / 100 >= 1);
        assert(100 * (n as int / 100) + 10 * ((n as int / 10) % 10) + (n as int % 10) == n as int);
    }
}

// ----- quoted strings -----

/// A string between double quotes, written without escapes.
pub open spec fn quoted(s: Seq<char>) -> Seq<char> {
    seq!['"'] + s + seq!['"']
}

/// The body of a fully quoted string: the whole text must be one pair of
/// quotes around quote-free content.
pub open spec fn parse_quoted(l: Seq<char>) -> Option<Seq<char>> {
    if l.len() >= 2 && l[0] == '"' && l[l.len() - 1] == '"' && (forall|i: int|
        1 <= i < l.len() - 1 ==> #[trigger] l[i] != '"') {
        Some(l.subrange(1, l.len() - 1))
    } else {
        None
    }
}

/// Reading a written quote-free string returns the string.
pub proof fn lemma_quoted_roundtrip(s: Seq<char>)
    requires
        yaml_safe(s),
    ensures
        parse_quoted(quoted(s)) == Some(s),
{
    let l = quoted(s);
    assert(l.len() == s.len() + 2);
    assert forall|i: int| 1 <= i < l.len() - 1 implies #[trigger] l[i] != '"' by {
        assert(l[i] == s[i - 1]);
    }
    assert(l.subrange(1, l.len() - 1) =~= s);
}

// ----- the version line -----

/// The line that declares the configuration version.
pub open spec fn version_line(n: u8) -> Seq<char> {
    "version: "@ + dec_of(n)
}

/// The version a `version:` line declares, if it is one.
pub open spec fn parse_version_line(l: Seq<char>) -> Option<u8> {
    if "version: "@.is_prefix_of(l) {
        let v = parse_dec(l.skip("version: "@.len() as int));
        if 0 <= v <= 255 {
            Some(v as u8)
        } else {
            None
        }
    } else {
        None
    }
}

pub proof fn lemma_version_line_roundtrip(n: u8)
    ensures
        parse_version_line(version_line(n)) == Some(n),
{
    let l = version_line(n);
    let p = "version: "@;
    assert(l.subrange(0, p.len() as int) =~= p);
    assert(p.is_prefix_of(l));
    assert(l.skip(p.len() as int) =~= dec_of(n));
    lemma_dec_roundtrip(n);
}

// ----- the argument list -----

/// The rest of an argument list after its first element: a comma and a
/// space before each further quoted element.
pub open spec fn tail_items(es: Seq<Seq<char>>) -> Seq<char>
    decreases es.len(),
{
    if es.len() == 0 {
        Seq::empty()
    } else {
        seq![',', ' '] + quoted(es[0]) + tail_items(es.skip(1))
    }
}

/// A whole argument list region: quoted elements joined by comma-space.
pub open spec fn args_items(es: Seq<Seq<char>>) -> Seq<char> {
    if es.len() == 0 {
        Seq::empty()
    } else {
        quoted(es[0]) + tail_items(es.skip(1))
    }
}

#[via_fn]
proof fn parse_args_items_decreases(s: Seq<char>) {
    lemma_find_char(s.skip(1), '"');
}

/// The elements of an argument list region: empty, or quoted elements
/// joined by comma-space, with nothing left over.
pub open spec fn parse_args_items(s: Seq<char>) -> Option<Seq<Seq<char>>>
    decreases s.len(),
    via parse_args_items_decreases
{
    if s.len() == 0 {
        Some(Seq::empty())
    } else if s[0] == '"' {
        let j = 1 + find_char(s.skip(1), '"');
        if j < s.len() {
            let item = s.subrange(1, j);
            let rest = s.skip(j + 1);
            if rest.len() == 0 {
                Some(seq![item])
            } else if rest.len() >= 2 && rest[0] == ',' && rest[1] == ' ' {
                match parse_args_items(rest.skip(2)) {
                    Some(items) => if items.len() > 0 {
                        Some(seq![item] + items)
                    } else {
                        None
                    },
                    None => None,
                }
            } else {
                None
            }
        } else {
            None
        }
    } else {
        None
    }
}

/// Reading a written argument list returns the same elements.
pub proof fn lemma_args_roundtrip(es: Seq<Seq<char>>)
    requires
        forall|i: int| 0 <= i < es.len() ==> yaml_safe(#[trigger] es[i]),
    ensures
        parse_args_items(args_items(es)) == Some(es),
    decreases es.len(),
{
    if es.len() == 0 {
        assert(parse_args_items(args_items(es)) =~= Some(es));
    } else {
        let a0 = es[0];
        let s = args_items(es);
        let t = tail_items(es.skip(1));
        assert(s == quoted(a0) + t);
        assert(s[0] == '"');
        assert(s.len() == a0.len() + 2 + t.len());
        let s1 = s.skip(1);
        assert forall|k: int| 0 <= k < a0.len() implies #[trigger] s1[k] != '"' by {
            assert(s1[k] == a0[k]);
        }
        assert(s1[a0.len() as int] == '"');
        lemma_find_char_at(s1, '"', a0.len() as int);
        let j = 1 + a0.len() as int;
        assert(j < s.len());
        assert(s.subrange(1, j) =~= a0);
        let rest = s.skip(j + 1);
        assert(rest =~= t);
        if es.len() == 1 {
            assert(rest.len() == 0);
            assert(parse_args_items(s) == Some(seq![a0]));
            assert(seq![a0] =~= es);
        } else {
            let es1 = es.skip(1);
            assert(t == seq![',', ' '] + quoted(es1[0]) + tail_items(es1.skip(1)));
            assert(rest.len() >= 2 && rest[0] == ',' && rest[1] == ' ');
            assert(rest.skip(2) =~= args_items(es1));
            assert forall|i: int| 0 <= i < es1.len() implies yaml_safe(#[trigger] es1[i]) by {
                assert(es1[i] == es[i + 1]);
            }
            lemma_args_roundtrip(es1);
            assert(es1.len() > 0);
            assert(parse_args_items(s) == Some(seq![a0] + es1));
            assert(seq![a0] + es1 =~= es);
        }
    }
}

// ----- entry lines -----

/// The command of an action.
pub open spec fn action_command(a: ActionV) -> Seq<char> {
    match a {
        ActionV::Open { command, .. } => command,
    }
}

/// The arguments of an action.
pub open spec fn action_args(a: ActionV) -> Seq<Seq<char>> {
    match a {
        ActionV::Open { args, .. } => args,
    }
}

/// The six lines that write one entry.
pub open spec fn entry_lines(e: HotkeyEntryV) -> Seq<Seq<char>> {
    seq![
        "  - key: "@ + quoted(e.key),
        "    name: "@ + quoted(e.name),
        "    action:"@,
        "      type: open"@,
        "      command: "@ + quoted(action_command(e.action)),
        "      args: ["@ + args_items(action_args(e.action)) + seq![']'],
    ]
}

/// The entry six lines describe, if they have exactly the written shape.
pub open spec fn parse_entry_lines(
    l0: Seq<char>,
    l1: Seq<char>,
    l2: Seq<char>,
    l3: Seq<char>,
    l4: Seq<char>,
    l5: Seq<char>,
) -> Option<HotkeyEntryV> {
    if "  - key: "@.is_prefix_of(l0) && "    name: "@.is_prefix_of(l1) && l2 == "    action:"@
        && l3 == "      type: open"@ && "      command: "@.is_prefix_of(l4)
        && "      args: ["@.is_prefix_of(l5) {
        let key = parse_quoted(l0.skip("  - key: "@.len() as int));
        let name = parse_quoted(l1.skip("    name: "@.len() as int));
        let command = parse_quoted(l4.skip("      command: "@.len() as int));
        let t = l5.skip("      args: ["@.len() as int);
        if key is Some && name is Some && command is Some && t.len() >= 1 && t[t.len() - 1]
            == ']' {
            match parse_args_items(t.take(t.len() - 1)) {
                Some(args) => Some(
                    HotkeyEntryV {
                        key: key->Some_0,
                        name: name->Some_0,
                        action: ActionV::Open { command: command->Some_0, args },
                    },
                ),
                None => None,
            }
        } else {
            None
        }
    } else {
        None
    }
}

/// A prefix followed by anything is a prefix of the whole.
proof fn lemma_prefix_concat(p: Seq<char>, rest: Seq<char>)
    ensures
        p.is_prefix_of(p + rest),
        (p + rest).skip(p.len() as int) =~= rest,
{
    assert((p + rest).subrange(0, p.len() as int) =~= p);
}

/// Reading the six written lines of an entry returns the entry.
pub proof fn lemma_entry_roundtrip(e: HotkeyEntryV)
    requires
        e.wf(),
    ensures
        parse_entry_lines(
            entry_lines(e)[0],
            entry_lines(e)[1],
            entry_lines(e)[2],
            entry_lines(e)[3],
            entry_lines(e)[4],
            entry_lines(e)[5],
        ) == Some(e),
{
    let ls = entry_lines(e);
    lemma_prefix_concat("  - key: "@, quoted(e.key));
    lemma_prefix_concat("    name: "@, quoted(e.name));
    lemma_prefix_concat("      command: "@, quoted(action_command(e.action)));
    lemma_prefix_concat("      args: ["@, args_items(action_args(e.action)) + seq![']']);
    lemma_quoted_roundtrip(e.key);
    lemma_quoted_roundtrip(e.name);
    lemma_quoted_roundtrip(action_command(e.action));
    let t = ls[5].skip("      args: ["@.len() as int);
    assert(t =~= args_items(action_args(e.action)) + seq![']']);
    assert(t.len() >= 1);
    assert(t[t.len() - 1] == ']');
    assert(t.take(t.len() - 1) =~= args_items(action_args(e.action)));
    lemma_args_roundtrip(action_args(e.action));
    assert(parse_entry_lines(ls[0], ls[1], ls[2], ls[3], ls[4], ls[5]) == Some(
        HotkeyEntryV {
            key: e.key,
            name: e.name,
            action: ActionV::Open {
                command: action_command(e.action),
                args: action_args(e.action),
            },
        },
    ));
    assert(ActionV::Open {
        command: action_command(e.action),
        args: action_args(e.action),
    } =~= e.action);
}

// ----- whole configurations, line level -----

/// The lines of all entries, six per entry, in order.
pub open spec fn entries_lines(es: Seq<HotkeyEntryV>) -> Seq<Seq<char>>
    decreases es.len(),
{
    if es.len() == 0 {
        Seq::empty()
    } else {
        entry_lines(es[0]) + entries_lines(es.skip(1))
    }
}

/// The lines that write a configuration: the version line, then the
/// hotkey list, written `hotkeys: []` when empty.
pub open spec fn config_lines(c: ConfigV) -> Seq<Seq<char>> {
    if c.hotkeys.len() == 0 {
        seq![version_line(c.version), "hotkeys: []"@]
    } else {
        seq![version_line(c.version), "hotkeys:"@] + entries_lines(c.hotkeys)
    }
}

/// The entries a run of lines describes: groups of six, nothing over.
pub open spec fn parse_entries_lines(ls: Seq<Seq<char>>) -> Option<Seq<HotkeyEntryV>>
    decreases ls.len(),
{
    if ls.len() == 0 {
        Some(Seq::empty())
    } else if ls.len() >= 6 {
        match parse_entry_lines(ls[0], ls[1], ls[2], ls[3], ls[4], ls[5]) {
            Some(e) => match parse_entries_lines(ls.skip(6)) {
                Some(es) => Some(seq![e] + es),
                None => None,
            },
            None => None,
        }
    } else {
        None
    }
}

/// The configuration a sequence of lines describes.
pub open spec fn parse_config_lines(ls: Seq<Seq<char>>) -> Option<ConfigV> {
    if ls.len() < 2 {
        None
    } else {
        match parse_version_line(ls[0]) {
            None => None,
            Some(v) => if ls[1] == "hotkeys: []"@ {
                if ls.len() == 2 {
                    Some(ConfigV { version: v, hotkeys: Seq::empty() })
                } else {
                    None
                }
            } else if ls[1] == "hotkeys:"@ {
                match parse_entries_lines(ls.skip(2)) {
                    Some(es) => if es.len() > 0 {
                        Some(ConfigV { version: v, hotkeys: es })
                    } else {
                        None
                    },
                    None => None,
                }
            } else {
                None
            },
        }
    }
}

pub proof fn lemma_entries_roundtrip(es: Seq<HotkeyEntryV>)
    requires
        forall|i: int| 0 <= i < es.len() ==> (#[trigger] es[i]).wf(),
    ensures
        parse_entries_lines(entries_lines(es)) == Some(es),
    decreases es.len(),
{
    if es.len() == 0 {
        assert(parse_entries_lines(entries_lines(es)) =~= Some(es));
    } else {
        let ls = entries_lines(es);
        let first = entry_lines(es[0]);
        let rest = entries_lines(es.skip(1));
        assert(ls == first + rest);
        assert(first.len() == 6);
        assert(ls.len() >= 6);
        assert forall|k: int| 0 <= k < 6 implies ls[k] == first[k] by {}
        lemma_entry_roundtrip(es[0]);
        assert(parse_entry_lines(ls[0], ls[1], ls[2], ls[3], ls[4], ls[5]) == Some(es[0]));
        assert(ls.skip(6) =~= rest);
        assert forall|i: int| 0 <= i < es.skip(1).len() implies (#[trigger] es.skip(
            1,
        )[i]).wf() by {
            assert(es.skip(1)[i] == es[i + 1]);
        }
        lemma_entries_roundtrip(es.skip(1));
        assert(seq![es[0]] + es.skip(1) =~= es);
    }
}

/// Reading the written lines of a configuration returns it.
pub proof fn lemma_config_lines_roundtrip(c: ConfigV)
    requires
        c.wf(),
    ensures
        parse_config_lines(config_lines(c)) == Some(c),
{
    let ls = config_lines(c);
    lemma_version_line_roundtrip(c.version);
    if c.hotkeys.len() == 0 {
        assert(parse_config_lines(ls) == Some(ConfigV { version: c.version, hotkeys: Seq::empty() }));
        assert(ConfigV { version: c.version, hotkeys: Seq::empty() } =~= c);
    } else {
        reveal_strlit("hotkeys:");
        reveal_strlit("hotkeys: []");
        assert("hotkeys:"@.len() != "hotkeys: []"@.len());
        assert(ls[1] != "hotkeys: []"@);
        assert(ls.skip(2) =~= entries_lines(c.hotkeys));
        lemma_entries_roundtrip(c.hotkeys);
        assert(entries_lines(c.hotkeys).len() >= 0);
        assert(c.hotkeys.len() > 0);
        assert(parse_config_lines(ls) == Some(ConfigV { version: c.version, hotkeys: c.hotkeys }));
        assert(ConfigV { version: c.version, hotkeys: c.hotkeys } =~= c);
    }
}

// ----- whole documents -----

/// The full written text of a configuration.
pub open spec fn spec_ser_config(c: ConfigV) -> Seq<char> {
    unlines(config_lines(c))
}

/// The configuration a text describes.
pub open spec fn spec_parse_config(s: Seq<char>) -> Option<ConfigV> {
    parse_config_lines(split_lines(s))
}

/// The full written text of one entry on its own.
pub open spec fn spec_ser_entry(e: HotkeyEntryV) -> Seq<char> {
    unlines(entry_lines(e))
}

/// The entry a six-line text describes.
pub open spec fn spec_parse_entry(s: Seq<char>) -> Option<HotkeyEntryV> {
    let ls = split_lines(s);
    if ls.len() == 6 {
        parse_entry_lines(ls[0], ls[1], ls[2], ls[3], ls[4], ls[5])
    } else {
        None
    }
}

proof fn lemma_line_free_concat(a: Seq<char>, b: Seq<char>)
    requires
        line_free(a),
        line_free(b),
    ensures
        line_free(a + b),
{
    assert forall|i: int| 0 <= i < (a + b).len() implies #[trigger] (a + b)[i] != '\n' by {
        if i < a.len() {
            assert((a + b)[i] == a[i]);
        } else {
            assert((a + b)[i] == b[i - a.len()]);
        }
    }
}

proof fn lemma_line_free_quoted(s: Seq<char>)
    requires
        yaml_safe(s),
    ensures
        line_free(quoted(s)),
{
    assert forall|i: int| 0 <= i < quoted(s).len() implies #[trigger] quoted(s)[i] != '\n' by {
        if 1 <= i < quoted(s).len() - 1 {
            assert(quoted(s)[i] == s[i - 1]);
        }
    }
}

proof fn lemma_line_free_dec(n: u8)
    ensures
        line_free(dec_of(n)),
{
}

proof fn lemma_line_free_tail_items(es: Seq<Seq<char>>)
    requires
        forall|i: int| 0 <= i < es.len() ==> yaml_safe(#[trigger] es[i]),
    ensures
        line_free(tail_items(es)),
        line_free(args_items(es)),
    decreases es.len(),
{
    assert(line_free(Seq::<char>::empty()));
    if es.len() > 0 {
        lemma_line_free_quoted(es[0]);
        assert forall|i: int| 0 <= i < es.skip(1).len() implies yaml_safe(
            #[trigger] es.skip(1)[i],
        ) by {
            assert(es.skip(1)[i] == es[i + 1]);
        }
        lemma_line_free_tail_items(es.skip(1));
        assert(line_free(seq![',', ' ']));
        lemma_line_free_concat(seq![',', ' '], quoted(es[0]));
        lemma_line_free_concat(seq![',', ' '] + quoted(es[0]), tail_items(es.skip(1)));
        assert(tail_items(es) == seq![',', ' '] + quoted(es[0]) + tail_items(es.skip(1)));
        lemma_line_free_concat(quoted(es[0]), tail_items(es.skip(1)));
    }
}

proof fn lemma_line_free_entry(e: HotkeyEntryV)
    requires
        e.wf(),
    ensures
        all_line_free(entry_lines(e)),
{
    reveal_strlit("  - key: ");
    reveal_strlit("    name: ");
    reveal_strlit("    action:");
    reveal_strlit("      type: open");
    reveal_strlit("      command: ");
    reveal_strlit("      args: [");
    lemma_line_free_quoted(e.key);
    lemma_line_free_quoted(e.name);
    lemma_line_free_quoted(action_command(e.action));
    lemma_line_free_tail_items(action_args(e.action));
    lemma_line_free_concat("  - key: "@, quoted(e.key));
    lemma_line_free_concat("    name: "@, quoted(e.name));
    lemma_line_free_concat("      command: "@, quoted(action_command(e.action)));
    lemma_line_free_concat("      args: ["@, args_items(action_args(e.action)));
    assert(line_free(seq![']']));
    lemma_line_free_concat("      args: ["@ + args_items(action_args(e.action)), seq![']']);
}

proof fn lemma_line_free_entries(es: Seq<HotkeyEntryV>)
    requires
        forall|i: int| 0 <= i < es.len() ==> (#[trigger] es[i]).wf(),
    ensures
        all_line_free(entries_lines(es)),
    decreases es.len(),
{
    if es.len() > 0 {
        lemma_line_free_entry(es[0]);
        assert forall|i: int| 0 <= i < es.skip(1).len() implies (#[trigger] es.skip(
            1,
        )[i]).wf() by {
            assert(es.skip(1)[i] == es[i + 1]);
        }
        lemma_line_free_entries(es.skip(1));
        let ls = entries_lines(es);
        assert forall|i: int| 0 <= i < ls.len() implies line_free(#[trigger] ls[i]) by {
            if i < 6 {
                assert(ls[i] == entry_lines(es[0])[i]);
            } else {
                assert(ls[i] == entries_lines(es.skip(1))[i - 6]);
            }
        }
    }
}

proof fn lemma_line_free_config(c: ConfigV)
    requires
        c.wf(),
    ensures
        all_line_free(config_lines(c)),
{
    reveal_strlit("version: ");
    reveal_strlit("hotkeys: []");
    reveal_strlit("hotkeys:");
    lemma_line_free_dec(c.version);
    lemma_line_free_concat("version: "@, dec_of(c.version));
    let ls = config_lines(c);
    if c.hotkeys.len() == 0 {
        assert forall|i: int| 0 <= i < ls.len() implies line_free(#[trigger] ls[i]) by {}
    } else {
        lemma_line_free_entries(c.hotkeys);
        assert forall|i: int| 0 <= i < ls.len() implies line_free(#[trigger] ls[i]) by {
            if i >= 2 {
                assert(ls[i] == entries_lines(c.hotkeys)[i - 2]);
            }
        }
    }
}

/// Writing a well-formed configuration and reading the text back
/// returns the same configuration.
pub proof fn theorem_config_roundtrip(c: ConfigV)
    requires
        c.wf(),
    ensures
        spec_parse_config(spec_ser_config(c)) == Some(c),
{
    lemma_line_free_config(c);
    lemma_split_unlines(config_lines(c));
    lemma_config_lines_roundtrip(c);
}

/// Writing one well-formed entry and reading the text back returns the
/// same entry.
pub proof fn theorem_entry_roundtrip(e: HotkeyEntryV)
    requires
        e.wf(),
    ensures
        spec_parse_entry(spec_ser_entry(e)) == Some(e),
{
    lemma_line_free_entry(e);
    lemma_split_unlines(entry_lines(e));
    lemma_entry_roundtrip(e);
}

// ----- the writer -----

/// The string of one digit.
fn digit_str(d: u8) -> (r: &'static str)
    requires
        d < 10,
    ensures
        r@ == seq![digit_char(d as int)],
{
    let r = match d {
        0 => "0",
        1 => "1",
        2 => "2",
        3 => "3",
        4 => "4",
        5 => "5",
        6 => "6",
        7 => "7",
        8 => "8",
        _ => "9",
    };
    proof {
        reveal_strlit("0");
        reveal_strlit("1");
        reveal_strlit("2");
        reveal_strlit("3");
        reveal_strlit("4");
        reveal_strlit("5");
        reveal_strlit("6");
        reveal_strlit("7");
        reveal_strlit("8");
        reveal_strlit("9");
        assert(r@ =~= seq![digit_char(d as int)]);
    }
    r
}

/// Appends the decimal notation of a byte.
fn push_dec(out: &mut String, n: u8)
    ensures
        final(out)@ == old(out)@ + dec_of(n),
{
    if n < 10 {
        out.append(digit_str(n));
    } else if n < 100 {
        out.append(digit_str(n / 10));
        out.append(digit_str(n % 10));
        proof {
            assert(old(out)@ + seq![digit_char(n as int / 10)] + seq![digit_char(n as int % 10)]
                =~= old(out)@ + dec_of(n));
        }
    } else {
        out.append(digit_str(n / 100));
        out.append(digit_str((n / 10) % 10));
        out.append(digit_str(n % 10));
        proof {
            assert(old(out)@ + seq![digit_char(n as int / 100)] + seq![digit_char(
                (n as int / 10) % 10,
            )] + seq![digit_char(n as int % 10)] =~= old(out)@ + dec_of(n));
        }
    }
}

/// Appends a string between double quotes.
fn push_quoted(out: &mut String, s: &str)
    ensures
        final(out)@ == old(out)@ + quoted(s@),
{
    out.append("\"");
    out.append(s);
    out.append("\"");
    proof {
        reveal_strlit("\"");
        assert(("\"")@ =~= seq!['"']);
        assert(old(out)@ + ("\"")@ + s@ + ("\"")@ =~= old(out)@ + quoted(s@));
    }
}

/// Appends an argument list region.
fn push_args(out: &mut String, args: &Vec<String>)
    ensures
        final(out)@ == old(out)@ + args_items(args.deep_view()),
{
    let ghost dv = args.deep_view();
    if args.len() == 0 {
        proof {
            assert(old(out)@ + args_items(dv) =~= old(out)@);
        }
        return ;
    }
    push_quoted(out, args[0].as_str());
    let ghost start = out@;
    proof {
        assert(start == old(out)@ + quoted(dv[0]));
        assert(dv.subrange(1, 1) =~= Seq::<Seq<char>>::empty());
        assert(tail_items(dv.subrange(1, 1)) =~= Seq::<char>::empty());
        assert(out@ =~= start + tail_items(dv.subrange(1, 1)));
    }
    let mut i: usize = 1;
    while i < args.len()
        invariant
            1 <= i <= args@.len(),
            dv == args.deep_view(),
            dv.len() == args@.len(),
            out@ == start + tail_items(dv.subrange(1, i as int)),
            start == old(out)@ + quoted(dv[0]),
        decreases args@.len() - i,
    {
        out.append(", ");
        push_quoted(out, args[i].as_str());
        proof {
            reveal_strlit(", ");
            assert((", ")@ =~= seq![',', ' ']);
            lemma_tail_items_snoc(dv.subrange(1, i as int), dv[i as int]);
            assert(dv.subrange(1, i as int).push(dv[i as int]) =~= dv.subrange(1, i + 1));
            assert(args@[i as int]@ == dv[i as int]);
            assert(out@ =~= start + tail_items(dv.subrange(1, i + 1)));
        }
        i = i + 1;
    }
    proof {
        assert(dv.subrange(1, dv.len() as int) =~= dv.skip(1));
        assert(out@ =~= old(out)@ + args_items(dv));
    }
}

proof fn lemma_tail_items_snoc(es: Seq<Seq<char>>, x: Seq<char>)
    ensures
        tail_items(es.push(x)) == tail_items(es) + seq![',', ' '] + quoted(x),
    decreases es.len(),
{
    if es.len() == 0 {
        assert(es.push(x)[0] == x);
        assert(es.push(x).skip(1) =~= Seq::<Seq<char>>::empty());
        assert(tail_items(es.push(x)) == seq![',', ' '] + quoted(x) + tail_items(
            Seq::<Seq<char>>::empty(),
        ));
        assert(tail_items(Seq::<Seq<char>>::empty()) == Seq::<char>::empty());
        assert(seq![',', ' '] + quoted(x) + Seq::<char>::empty() =~= tail_items(es) + seq![
            ',',
            ' ',
        ] + quoted(x));
    } else {
        assert(es.push(x)[0] == es[0]);
        assert(es.push(x).skip(1) =~= es.skip(1).push(x));
        lemma_tail_items_snoc(es.skip(1), x);
        assert(tail_items(es.push(x)) == seq![',', ' '] + quoted(es[0]) + tail_items(
            es.skip(1).push(x),
        ));
        assert(tail_items(es.skip(1).push(x)) == tail_items(es.skip(1)) + seq![',', ' ']
            + quoted(x));
        assert(seq![',', ' '] + quoted(es[0]) + (tail_items(es.skip(1)) + seq![',', ' '] + quoted(
            x,
        )) =~= tail_items(es) + seq![',', ' '] + quoted(x));
    }
}

/// Appends the six lines of one entry, each closed by a newline.
#[verifier::rlimit(80)]
fn push_entry(out: &mut String, e: &HotkeyEntry)
    ensures
        final(out)@ == old(out)@ + unlines(entry_lines(e@)),
{
    match &e.action {
        Action::ActionOpen { command, args } => {
            out.append("  - key: ");
            push_quoted(out, e.key.as_str());
            out.append("\n");
            out.append("    name: ");
            push_quoted(out, e.name.as_str());
            out.append("\n");
            out.append("    action:");
            out.append("\n");
            out.append("      type: open");
            out.append("\n");
            out.append("      command: ");
            push_quoted(out, command.as_str());
            out.append("\n");
            out.append("      args: [");
            push_args(out, args);
            out.append("]");
            out.append("\n");
            proof {
                reveal_strlit("\n");
                reveal_strlit("]");
                assert(("\n")@ =~= seq!['\n']);
                assert(("]")@ =~= seq![']']);
                let ls = entry_lines(e@);
                assert(action_command(e@.action) == command@);
                assert(action_args(e@.action) == args.deep_view());
                assert(ls.skip(5).skip(1) =~= Seq::<Seq<char>>::empty());
                assert(ls.skip(4).skip(1) =~= ls.skip(5));
                assert(ls.skip(3).skip(1) =~= ls.skip(4));
                assert(ls.skip(2).skip(1) =~= ls.skip(3));
                assert(ls.skip(1).skip(1) =~= ls.skip(2));
                assert(ls.len() == 6);
                assert(unlines(Seq::<Seq<char>>::empty()) == Seq::<char>::empty());
                assert(ls.skip(5)[0] == ls[5]);
                assert(ls.skip(4)[0] == ls[4]);
                assert(ls.skip(3)[0] == ls[3]);
                assert(ls.skip(2)[0] == ls[2]);
                assert(ls.skip(1)[0] == ls[1]);
                assert(unlines(ls.skip(5)) =~= ls[5] + seq!['\n']);
                assert(unlines(ls.skip(4)) =~= ls[4] + seq!['\n'] + unlines(ls.skip(5)));
                assert(unlines(ls.skip(3)) =~= ls[3] + seq!['\n'] + unlines(ls.skip(4)));
                assert(unlines(ls.skip(2)) =~= ls[2] + seq!['\n'] + unlines(ls.skip(3)));
                assert(unlines(ls.skip(1)) =~= ls[1] + seq!['\n'] + unlines(ls.skip(2)));
                assert(unlines(ls) =~= ls[0] + seq!['\n'] + unlines(ls.skip(1)));
                assert(out@ =~= old(out)@ + unlines(ls));
            }
        },
    }
}

proof fn lemma_entries_lines_snoc(es: Seq<HotkeyEntryV>, x: HotkeyEntryV)
    ensures
        entries_lines(es.push(x)) == entries_lines(es) + entry_lines(x),
    decreases es.len(),
{
    if es.len() == 0 {
        assert(es.push(x)[0] == x);
        assert(es.push(x).skip(1) =~= Seq::<HotkeyEntryV>::empty());
        assert(entries_lines(Seq::<HotkeyEntryV>::empty()) == Seq::<Seq<char>>::empty());
        assert(entries_lines(es.push(x)) == entry_lines(x) + Seq::<Seq<char>>::empty());
        assert(entry_lines(x) + Seq::<Seq<char>>::empty() =~= entries_lines(es) + entry_lines(x));
    } else {
        assert(es.push(x)[0] == es[0]);
        assert(es.push(x).skip(1) =~= es.skip(1).push(x));
        lemma_entries_lines_snoc(es.skip(1), x);
        assert(entries_lines(es.push(x)) == entry_lines(es[0]) + entries_lines(
            es.skip(1).push(x),
        ));
        assert(entries_lines(es.skip(1).push(x)) == entries_lines(es.skip(1)) + entry_lines(x));
        assert(entry_lines(es[0]) + (entries_lines(es.skip(1)) + entry_lines(x)) =~= entries_lines(
            es,
        ) + entry_lines(x));
    }
}

/// Writes a configuration as YAML text.
pub fn to_yaml(c: &Config) -> (r: String)
    ensures
        r@ == spec_ser_config(c@),
{
    let mut out = String::new();
    out.append("version: ");
    push_dec(&mut out, c.version);
    out.append("\n");
    proof {
        reveal_strlit("\n");
        assert(("\n")@ =~= seq!['\n']);
    }
    if c.hotkeys.len() == 0 {
        out.append("hotkeys: []");
        out.append("\n");
        proof {
            let ls = config_lines(c@);
            assert(ls.len() == 2);
            assert(unlines(Seq::<Seq<char>>::empty()) == Seq::<char>::empty());
            assert(ls.skip(1)[0] == ls[1]);
            assert(ls.skip(1).skip(1) =~= Seq::<Seq<char>>::empty());
            assert(unlines(ls.skip(1)) =~= ls[1] + seq!['\n']);
            assert(unlines(ls) =~= ls[0] + seq!['\n'] + unlines(ls.skip(1)));
            assert(out@ =~= spec_ser_config(c@));
        }
        return out;
    }
    out.append("hotkeys:");
    out.append("\n");
    let ghost head = out@;
    let ghost hv = c@.hotkeys;
    proof {
        assert(hv.subrange(0, 0) =~= Seq::<HotkeyEntryV>::empty());
        assert(entries_lines(hv.subrange(0, 0)) =~= Seq::<Seq<char>>::empty());
        assert(unlines(Seq::<Seq<char>>::empty()) =~= Seq::<char>::empty());
        assert(out@ =~= head + unlines(entries_lines(hv.subrange(0, 0))));
    }
    let mut i: usize = 0;
    while i < c.hotkeys.len()
        invariant
            i <= c.hotkeys@.len(),
            hv == c@.hotkeys,
            hv.len() == c.hotkeys@.len(),
            out@ == head + unlines(entries_lines(hv.subrange(0, i as int))),
        decreases c.hotkeys@.len() - i,
    {
        push_entry(&mut out, &c.hotkeys[i]);
        proof {
            assert(c.hotkeys@[i as int]@ == hv[i as int]);
            lemma_entries_lines_snoc(hv.subrange(0, i as int), hv[i as int]);
            assert(hv.subrange(0, i as int).push(hv[i as int]) =~= hv.subrange(0, i + 1));
            lemma_unlines_concat(
                entries_lines(hv.subrange(0, i as int)),
                entry_lines(hv[i as int]),
            );
            assert(out@ =~= head + unlines(entries_lines(hv.subrange(0, i + 1))));
        }
        i = i + 1;
    }
    proof {
        assert(hv.subrange(0, hv.len() as int) =~= hv);
        let ls = config_lines(c@);
        assert(ls == seq![version_line(c@.version), "hotkeys:"@] + entries_lines(hv));
        let pre = seq![version_line(c@.version), "hotkeys:"@];
        assert(unlines(Seq::<Seq<char>>::empty()) == Seq::<char>::empty());
        assert(pre.skip(1)[0] == pre[1]);
        assert(pre.skip(1).skip(1) =~= Seq::<Seq<char>>::empty());
        assert(unlines(pre.skip(1)) =~= pre[1] + seq!['\n']);
        assert(unlines(pre) =~= version_line(c@.version) + seq!['\n'] + ("hotkeys:"@
            + seq!['\n']));
        lemma_unlines_concat(pre, entries_lines(hv));
        assert(head =~= unlines(pre));
        assert(out@ =~= spec_ser_config(c@));
    }
    out
}

proof fn lemma_unlines_concat(a: Seq<Seq<char>>, b: Seq<Seq<char>>)
    ensures
        unlines(a + b) == unlines(a) + unlines(b),
    decreases a.len(),
{
    if a.len() == 0 {
        assert(a + b =~= b);
        assert(unlines(a + b) =~= unlines(a) + unlines(b));
    } else {
        assert((a + b)[0] == a[0]);
        assert((a + b).skip(1) =~= a.skip(1) + b);
        lemma_unlines_concat(a.skip(1), b);
        assert(unlines(a + b) =~= unlines(a) + unlines(b));
    }
}

/// Writes one entry on its own as YAML text.
pub fn to_yaml_entry(e: &HotkeyEntry) -> (r: String)
    ensures
        r@ == spec_ser_entry(e@),
{
    let mut out = String::new();
    push_entry(&mut out, e);
    proof {
        assert(out@ =~= spec_ser_entry(e@));
    }
    out
}

// ----- the reader -----

/// The value of one digit character, or -1.
fn digit_val_e(c: char) -> (r: i32)
    ensures
        r as int == digit_val(c),
{
    match c {
        '0' => 0,
        '1' => 1,
        '2' => 2,
        '3' => 3,
        '4' => 4,
        '5' => 5,
        '6' => 6,
        '7' => 7,
        '8' => 8,
        '9' => 9,
        _ => -1,
    }
}

/// The number a decimal region denotes, or -1.
fn parse_dec_e(t: &[char]) -> (r: i32)
    ensures
        r as int == parse_dec(t@),
{
    let n = t.len();
    if n == 1 {
        digit_val_e(*slice_index_get(t, 0))
    } else if n == 2 {
        let d0 = digit_val_e(*slice_index_get(t, 0));
        let d1 = digit_val_e(*slice_index_get(t, 1));
        if d0 >= 1 && d1 >= 0 {
            10 * d0 + d1
        } else {
            -1
        }
    } else if n == 3 {
        let d0 = digit_val_e(*slice_index_get(t, 0));
        let d1 = digit_val_e(*slice_index_get(t, 1));
        let d2 = digit_val_e(*slice_index_get(t, 2));
        if d0 >= 1 && d1 >= 0 && d2 >= 0 {
            100 * d0 + 10 * d1 + d2
        } else {
            -1
        }
    } else {
        -1
    }
}

/// Whether the characters of `p` open the line `l`.
fn has_prefix(l: &Vec<char>, p: &str) -> (r: bool)
    ensures
        r == p@.is_prefix_of(l@),
{
    let pv = str_to_chars(p);
    if pv.len() > l.len() {
        return false;
    }
    let mut i: usize = 0;
    while i < pv.len()
        invariant
            i <= pv@.len() <= l@.len(),
            pv@ == p@,
            forall|k: int| 0 <= k < i ==> l@[k] == pv@[k],
        decreases pv@.len() - i,
    {
        if l[i] != pv[i] {
            proof {
                if p@.is_prefix_of(l@) {
                    assert(l@.subrange(0, p@.len() as int)[i as int] == l@[i as int]);
                }
            }
            return false;
        }
        i = i + 1;
    }
    proof {
        assert(l@.subrange(0, p@.len() as int) =~= p@);
    }
    true
}

/// Whether the line `l` is exactly the characters of `p`.
fn eq_str(l: &Vec<char>, p: &str) -> (r: bool)
    ensures
        r == (l@ == p@),
{
    let pv = str_to_chars(p);
    if pv.len() != l.len() {
        return false;
    }
    let mut i: usize = 0;
    while i < pv.len()
        invariant
            i <= pv@.len(),
            pv@.len() == l@.len(),
            pv@ == p@,
            forall|k: int| 0 <= k < i ==> l@[k] == pv@[k],
        decreases pv@.len() - i,
    {
        if l[i] != pv[i] {
            proof {
                if l@ == p@ {
                    assert(l@[i as int] == p@[i as int]);
                }
            }
            return false;
        }
        i = i + 1;
    }
    proof {
        assert(l@ =~= p@);
    }
    true
}

/// The body of a fully quoted region, if the region is one.
fn parse_quoted_e(l: &Vec<char>) -> (r: Option<Vec<char>>)
    ensures
        match r {
            Some(v) => parse_quoted(l@) == Some(v@),
            None => parse_quoted(l@) is None,
        },
{
    let n = l.len();
    if n < 2 {
        return None;
    }
    if l[0] != '"' {
        return None;
    }
    if l[n - 1] != '"' {
        return None;
    }
    let mut i: usize = 1;
    while i < n - 1
        invariant
            1 <= i <= n - 1,
            n == l@.len(),
            n >= 2,
            forall|k: int| 1 <= k < i ==> #[trigger] l@[k] != '"',
        decreases n - 1 - i,
    {
        if l[i] == '"' {
            return None;
        }
        i = i + 1;
    }
    let v = slice_to_vec(slice_subrange(l.as_slice(), 1, n - 1));
    proof {
        assert(v@ =~= l@.subrange(1, l@.len() - 1));
    }
    Some(v)
}

/// The elements of an argument list region from `pos` on, as written.
fn parse_args_from(t: &[char], pos: usize) -> (r: Option<Vec<Vec<char>>>)
    requires
        pos <= t@.len(),
    ensures
        match r {
            Some(v) => parse_args_items(t@.skip(pos as int)) == Some(v.deep_view()),
            None => parse_args_items(t@.skip(pos as int)) is None,
        },
    decreases t@.len() - pos,
{
    let n = t.len();
    let ghost s = t@.skip(pos as int);
    if pos == n {
        let v: Vec<Vec<char>> = Vec::new();
        proof {
            assert(s =~= Seq::<char>::empty());
            assert(v.deep_view() =~~= Seq::<Seq<char>>::empty());
        }
        return Some(v);
    }
    if *slice_index_get(t, pos) != '"' {
        proof {
            assert(s[0] == t@[pos as int]);
        }
        return None;
    }
    let mut j: usize = pos + 1;
    while j < n && *slice_index_get(t, j) != '"'
        invariant
            pos + 1 <= j <= n,
            n == t@.len(),
            forall|k: int| pos + 1 <= k < j ==> #[trigger] t@[k] != '"',
        decreases n - j,
    {
        j = j + 1;
    }
    proof {
        assert(s.skip(1) =~= t@.skip(pos as int + 1));
        assert forall|k: int| 0 <= k < j - pos - 1 implies #[trigger] s.skip(1)[k] != '"' by {
            assert(s.skip(1)[k] == t@[pos + 1 + k]);
        }
        if j < n {
            assert(s.skip(1)[j - pos - 1] == t@[j as int]);
        }
        lemma_find_char_at(s.skip(1), '"', j - pos - 1);
        assert(find_char(s.skip(1), '"') == j - pos - 1);
    }
    if j == n {
        return None;
    }
    let item = slice_to_vec(slice_subrange(t, pos + 1, j));
    proof {
        assert(item@ =~= s.subrange(1, j - pos));
    }
    if j + 1 == n {
        let ghost rest = s.skip(j - pos + 1);
        let mut v: Vec<Vec<char>> = Vec::new();
        v.push(item);
        proof {
            assert(rest =~= Seq::<char>::empty());
            assert(v.deep_view() =~~= seq![s.subrange(1, j - pos)]);
        }
        return Some(v);
    }
    let ghost rest = s.skip(j - pos + 1);
    proof {
        assert(rest =~= t@.skip(j + 1));
        assert(rest.len() == n - j - 1);
        assert(rest[0] == t@[j + 1]);
        if n - (j + 1) >= 2 {
            assert(rest[1] == t@[j + 2]);
        }
    }
    if n - (j + 1) >= 2 && *slice_index_get(t, j + 1) == ',' && *slice_index_get(t, j + 2)
        == ' ' {
        proof {
            assert(rest.skip(2) =~= t@.skip(j + 3));
        }
        match parse_args_from(t, j + 3) {
            Some(mut items) => {
                if items.len() > 0 {
                    let ghost before = items.deep_view();
                    items.insert(0, item);
                    proof {
                        assert(items.deep_view() =~~= seq![item@] + before);
                        assert(seq![item@] + before =~~= seq![s.subrange(1, j - pos)] + before);
                    }
                    Some(items)
                } else {
                    None
                }
            },
            None => None,
        }
    } else {
        None
    }
}

/// The version a version line declares, if it is one.
fn parse_version_e(l: &Vec<char>) -> (r: Option<u8>)
    ensures
        r == parse_version_line(l@),
{
    if !has_prefix(l, "version: ") {
        return None;
    }
    let plen = "version: ".unicode_len();
    let rest = slice_subrange(l.as_slice(), plen, l.len());
    proof {
        assert(rest@ =~= l@.skip("version: "@.len() as int));
    }
    let v = parse_dec_e(rest);
    if 0 <= v && v <= 255 {
        Some(v as u8)
    } else {
        None
    }
}

/// The entry six lines describe, if they have the written shape.
fn parse_entry_e(
    l0: &Vec<char>,
    l1: &Vec<char>,
    l2: &Vec<char>,
    l3: &Vec<char>,
    l4: &Vec<char>,
    l5: &Vec<char>,
) -> (r: Option<HotkeyEntry>)
    ensures
        match r {
            Some(e) => parse_entry_lines(l0@, l1@, l2@, l3@, l4@, l5@) == Some(e@),
            None => parse_entry_lines(l0@, l1@, l2@, l3@, l4@, l5@) is None,
        },
{
    if !has_prefix(l0, "  - key: ") {
        return None;
    }
    if !has_prefix(l1, "    name: ") {
        return None;
    }
    if !eq_str(l2, "    action:") {
        return None;
    }
    if !eq_str(l3, "      type: open") {
        return None;
    }
    if !has_prefix(l4, "      command: ") {
        return None;
    }
    if !has_prefix(l5, "      args: [") {
        return None;
    }
    let kl = "  - key: ".unicode_len();
    let key_part = slice_to_vec(slice_subrange(l0.as_slice(), kl, l0.len()));
    proof {
        assert(key_part@ =~= l0@.skip("  - key: "@.len() as int));
    }
    let key = match parse_quoted_e(&key_part) {
        Some(v) => v,
        None => {
            return None;
        },
    };
    let nl = "    name: ".unicode_len();
    let name_part = slice_to_vec(slice_subrange(l1.as_slice(), nl, l1.len()));
    proof {
        assert(name_part@ =~= l1@.skip("    name: "@.len() as int));
    }
    let name = match parse_quoted_e(&name_part) {
        Some(v) => v,
        None => {
            return None;
        },
    };
    let cl = "      command: ".unicode_len();
    let cmd_part = slice_to_vec(slice_subrange(l4.as_slice(), cl, l4.len()));
    proof {
        assert(cmd_part@ =~= l4@.skip("      command: "@.len() as int));
    }
    let command = match parse_quoted_e(&cmd_part) {
        Some(v) => v,
        None => {
            return None;
        },
    };
    let al = "      args: [".unicode_len();
    let t = slice_to_vec(slice_subrange(l5.as_slice(), al, l5.len()));
    let ghost ts = l5@.skip("      args: ["@.len() as int);
    proof {
        assert(t@ =~= ts);
    }
    if t.len() < 1 {
        return None;
    }
    if t[t.len() - 1] != ']' {
        return None;
    }
    let inner = slice_subrange(t.as_slice(), 0, t.len() - 1);
    proof {
        assert(inner@ =~= ts.take(ts.len() - 1));
        assert(inner@.skip(0) =~= inner@);
    }
    let items = match parse_args_from(inner, 0) {
        Some(v) => v,
        None => {
            return None;
        },
    };
    let key_s = chars_to_string(&key);
    let name_s = chars_to_string(&name);
    let cmd_s = chars_to_string(&command);
    let mut args: Vec<String> = Vec::new();
    let mut i: usize = 0;
    while i < items.len()
        invariant
            i <= items@.len(),
            args.deep_view() == items.deep_view().take(i as int),
        decreases items@.len() - i,
    {
        let ghost prev = args.deep_view();
        args.push(chars_to_string(&items[i]));
        proof {
            assert(items@[i as int]@ == items.deep_view()[i as int]);
            assert(args.deep_view() =~~= prev.push(items.deep_view()[i as int]));
            assert(items.deep_view().take(i as int).push(items.deep_view()[i as int])
                =~= items.deep_view().take(i as int + 1));
            assert(args.deep_view() =~~= items.deep_view().take(i as int + 1));
        }
        i = i + 1;
    }
    proof {
        assert(items.deep_view().take(items.deep_view().len() as int) =~= items.deep_view());
    }
    let e = HotkeyEntry {
        key: key_s,
        name: name_s,
        action: Action::ActionOpen { command: cmd_s, args },
    };
    proof {
        assert(e@.action->Open_args == args.deep_view());
        assert(e@ =~~= parse_entry_lines(l0@, l1@, l2@, l3@, l4@, l5@)->Some_0);
    }
    Some(e)
}

/// The views of a run of entries.
pub open spec fn views_of(es: Seq<HotkeyEntry>) -> Seq<HotkeyEntryV> {
    Seq::new(es.len(), |i: int| es[i]@)
}

/// The entries a run of lines describes, from `pos` on, in groups of six.
fn parse_entries_from(lines: &Vec<Vec<char>>, pos: usize) -> (r: Option<Vec<HotkeyEntry>>)
    requires
        pos <= lines@.len(),
    ensures
        match r {
            Some(v) => parse_entries_lines(lines.deep_view().skip(pos as int)) == Some(
                views_of(v@),
            ),
            None => parse_entries_lines(lines.deep_view().skip(pos as int)) is None,
        },
    decreases lines@.len() - pos,
{
    let n = lines.len();
    let ghost ls = lines.deep_view().skip(pos as int);
    proof {
        assert(lines.deep_view().len() == lines@.len());
    }
    if pos == n {
        let v: Vec<HotkeyEntry> = Vec::new();
        proof {
            assert(ls =~= Seq::<Seq<char>>::empty());
            assert(views_of(v@) =~= Seq::<HotkeyEntryV>::empty());
        }
        return Some(v);
    }
    if n - pos < 6 {
        return None;
    }
    proof {
        assert forall|k: int| 0 <= k < 6 implies #[trigger] ls[k] == lines@[pos + k]@ by {
            assert(ls[k] == lines.deep_view()[pos + k]);
        }
    }
    let e = match parse_entry_e(
        &lines[pos],
        &lines[pos + 1],
        &lines[pos + 2],
        &lines[pos + 3],
        &lines[pos + 4],
        &lines[pos + 5],
    ) {
        Some(e) => e,
        None => {
            return None;
        },
    };
    proof {
        assert(ls.skip(6) =~= lines.deep_view().skip(pos + 6));
    }
    let rest = match parse_entries_from(lines, pos + 6) {
        Some(v) => v,
        None => {
            return None;
        },
    };
    let ghost rest_seq = rest@;
    let mut v = rest;
    v.insert(0, e);
    proof {
        assert(v@.skip(1) =~= rest_seq);
        assert(views_of(v@) =~= seq![e@] + views_of(rest_seq));
    }
    Some(v)
}

/// Reads a whole configuration from YAML text.
pub fn parse_config(s: &str) -> (r: Option<Config>)
    ensures
        match r {
            Some(c) => spec_parse_config(s@) == Some(c@),
            None => spec_parse_config(s@) is None,
        },
{
    let chars = str_to_chars(s);
    let lines = split_lines_exec(&chars);
    let ghost ls = lines.deep_view();
    if lines.len() < 2 {
        proof {
            assert(ls.len() == lines@.len());
        }
        return None;
    }
    proof {
        assert(ls[0] == lines@[0]@);
        assert(ls[1] == lines@[1]@);
        assert(ls.len() == lines@.len());
    }
    let v = match parse_version_e(&lines[0]) {
        Some(v) => v,
        None => {
            return None;
        },
    };
    if eq_str(&lines[1], "hotkeys: []") {
        if lines.len() == 2 {
            let c = Config { version: v, hotkeys: Vec::new() };
            proof {
                assert(c@ =~~= ConfigV { version: v, hotkeys: Seq::empty() });
            }
            return Some(c);
        } else {
            return None;
        }
    }
    if !eq_str(&lines[1], "hotkeys:") {
        return None;
    }
    let es = match parse_entries_from(&lines, 2) {
        Some(es) => es,
        None => {
            return None;
        },
    };
    if es.len() == 0 {
        return None;
    }
    let c = Config { version: v, hotkeys: es };
    proof {
        assert(c@.hotkeys =~~= views_of(c.hotkeys@));
        assert(c@ =~~= ConfigV { version: v, hotkeys: views_of(c.hotkeys@) });
    }
    Some(c)
}

/// Reads one entry from a six-line YAML text.
pub fn parse_entry_str(s: &str) -> (r: Option<HotkeyEntry>)
    ensures
        match r {
            Some(e) => spec_parse_entry(s@) == Some(e@),
            None => spec_parse_entry(s@) is None,
        },
{
    let chars = str_to_chars(s);
    let lines = split_lines_exec(&chars);
    let ghost ls = lines.deep_view();
    if lines.len() != 6 {
        proof {
            assert(ls.len() == lines@.len());
        }
        return None;
    }
    proof {
        assert forall|k: int| 0 <= k < 6 implies #[trigger] ls[k] == lines@[k]@ by {
            assert(ls[k] == lines.deep_view()[k]);
        }
    }
    parse_entry_e(&lines[0], &lines[1], &lines[2], &lines[3], &lines[4], &lines[5])
}

/// Why a configuration text was rejected.
#[derive(Clone, Copy, Debug, PartialEq, Eq, Structural)]
pub enum LoadError {
    /// The text is not a configuration document of this format.
    Malformed,
    /// The document is well formed but declares another version.
    WrongVersion { found: u8 },
}

/// Reads and checks a configuration: the text must be well formed and
/// declare the supported version, or the exact reason comes back.
pub fn load_from_str(s: &str) -> (r: Result<Config, LoadError>)
    ensures
        r matches Ok(c) ==> spec_parse_config(s@) == Some(c@) && c@.version
            == crate::config::SUPPORTED_VERSION,
        r matches Err(LoadError::Malformed) <==> spec_parse_config(s@) is None,
        r matches Err(LoadError::WrongVersion { found }) ==> spec_parse_config(s@) matches Some(cv)
            && cv.version == found && found != crate::config::SUPPORTED_VERSION,
        r is Ok <==> (spec_parse_config(s@) matches Some(cv) && cv.version
            == crate::config::SUPPORTED_VERSION),
{
    match parse_config(s) {
        None => Err(LoadError::Malformed),
        Some(c) => match c.check_version() {
            Ok(()) => Ok(c),
            Err(e) => Err(LoadError::WrongVersion { found: e.found }),
        },
    }
}

} // verus!
