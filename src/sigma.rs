//! Sigma rules: the detection block of a rule becomes named-capture patterns,
//! and the rule's condition decides, from the captures that fired, whether
//! the rule matches.

use vstd::prelude::*;
use vstd::string::*;
use crate::codec::{xxh3_64, xxh3_64_of};
use crate::condition::{eval_condition, parse_condition_text, parse_sigma_condition, table_insert, SelectorHits, SigmaConditionExpr, is_ascii_alphanumeric, is_ascii_digit, is_white_space, lower_char, to_lower_char};
use crate::text::{chars_of, decimal, decimal_string, hex_padded, hex_string_padded, push_char, string_of_chars};

verus! {

/// Longest allowed capture-group name.
pub const PCRE2_CAPTURE_NAME_MAX: usize = 32;

/// `s` without leading and trailing white space.
pub open spec fn trim_ws(s: Seq<char>) -> Seq<char>
    decreases s.len(),
{
    if s.len() > 0 && is_white_space(s[0]) {
        trim_ws(s.drop_first())
    } else if s.len() > 0 && is_white_space(s.last()) {
        trim_ws(s.drop_last())
    } else {
        s
    }
}

fn white_space(c: char) -> (r: bool)
    ensures
        r == is_white_space(c),
{
    ('\t' <= c && c <= '\r') || c == ' ' || c == '\u{85}' || c == '\u{A0}' || c == '\u{1680}'
        || ('\u{2000}' <= c && c <= '\u{200A}') || c == '\u{2028}' || c == '\u{2029}' || c == '\u{202F}'
        || c == '\u{205F}' || c == '\u{3000}'
}

/// The bounds of `s[from..to]` without its leading and trailing white space.
fn trim_bounds(s: &Vec<char>, from: usize, to: usize) -> (r: (usize, usize))
    requires
        from <= to <= s@.len(),
    ensures
        from <= r.0 <= r.1 <= to,
        s@.subrange(r.0 as int, r.1 as int) == trim_ws(s@.subrange(from as int, to as int)),
{
    let mut a = from;
    let mut b = to;
    while a < b && white_space(s[a])
        invariant
            from <= a <= b <= to <= s@.len(),
            trim_ws(s@.subrange(a as int, b as int)) == trim_ws(s@.subrange(from as int, to as int)),
        decreases b - a,
    {
        assert(s@.subrange(a as int, b as int).drop_first() =~= s@.subrange(a + 1, b as int));
        a = a + 1;
    }
    while a < b && white_space(s[b - 1])
        invariant
            from <= a <= b <= to <= s@.len(),
            a < b ==> !is_white_space(s@[a as int]),
            trim_ws(s@.subrange(a as int, b as int)) == trim_ws(s@.subrange(from as int, to as int)),
        decreases b - a,
    {
        assert(s@.subrange(a as int, b as int).drop_last() =~= s@.subrange(a as int, b - 1));
        b = b - 1;
    }
    (a, b)
}

/// `value` without surrounding white space, and then without one pair of
/// matching single or double quotes around it.
pub open spec fn strip_quotes_spec(value: Seq<char>) -> Seq<char> {
    let t = trim_ws(value);
    if t.len() >= 2 && ((t[0] == '\'' && t.last() == '\'') || (t[0] == '"' && t.last() == '"')) {
        t.subrange(1, t.len() - 1)
    } else {
        t
    }
}

fn strip_bounds(s: &Vec<char>, from: usize, to: usize) -> (r: (usize, usize))
    requires
        from <= to <= s@.len(),
    ensures
        from <= r.0 <= r.1 <= to,
        s@.subrange(r.0 as int, r.1 as int) == strip_quotes_spec(s@.subrange(from as int, to as int)),
{
    let (a, b) = trim_bounds(s, from, to);
    if b - a >= 2 && ((s[a] == '\'' && s[b - 1] == '\'') || (s[a] == '"' && s[b - 1] == '"')) {
        assert(s@.subrange(a + 1, b - 1) =~= s@.subrange(a as int, b as int).subrange(1, (b - a) - 1));
        (a + 1, b - 1)
    } else {
        (a, b)
    }
}

/// Strips white space and one pair of matching quotes from a YAML scalar.
pub fn strip_yaml_quotes(value: &str) -> (r: String)
    ensures
        r@ == strip_quotes_spec(value@),
{
    let cs = chars_of(value);
    let (a, b) = strip_bounds(&cs, 0, cs.len());
    assert(cs@.subrange(0, cs@.len() as int) =~= cs@);
    string_of_chars(cs.as_slice(), a, b)
}

/// The number of leading spaces of a line.
pub open spec fn leading_spaces(s: Seq<char>) -> nat
    decreases s.len(),
{
    if s.len() > 0 && s[0] == ' ' {
        1 + leading_spaces(s.drop_first())
    } else {
        0
    }
}

fn leading_space_count(s: &Vec<char>) -> (r: usize)
    ensures
        r == leading_spaces(s@),
        r <= s@.len(),
{
    let mut i: usize = 0;
    assert(s@.skip(0) =~= s@);
    while i < s.len() && s[i] == ' '
        invariant
            i <= s@.len(),
            i + leading_spaces(s@.skip(i as int)) == leading_spaces(s@),
        decreases s.len() - i,
    {
        assert(s@.skip(i as int).drop_first() =~= s@.skip(i + 1));
        i = i + 1;
    }
    i
}

/// Counts the leading spaces of a line.
pub fn yaml_leading_space_count(line: &str) -> (r: usize)
    ensures
        r == leading_spaces(line@),
{
    let cs = chars_of(line);
    leading_space_count(&cs)
}

/// A capture-group name made of a text: ASCII letters and digits lowercased,
/// every other character `_`; leading and trailing `_` removed; `sigma_match`
/// when nothing is left, and `sigma_` in front of a leading digit.
pub open spec fn sanitize_char(c: char) -> char {
    if is_ascii_alphanumeric(c) {
        lower_char(c)
    } else {
        '_'
    }
}

pub open spec fn trim_underscores(s: Seq<char>) -> Seq<char>
    decreases s.len(),
{
    if s.len() > 0 && s[0] == '_' {
        trim_underscores(s.drop_first())
    } else if s.len() > 0 && s.last() == '_' {
        trim_underscores(s.drop_last())
    } else {
        s
    }
}

pub open spec fn sanitized(input: Seq<char>) -> Seq<char> {
    let out = trim_underscores(input.map_values(|c: char| sanitize_char(c)));
    if out.len() == 0 {
        "sigma_match"@
    } else if is_ascii_digit(out[0]) {
        "sigma_"@ + out
    } else {
        out
    }
}

/// Turns a text into a capture-group name.
pub fn sanitize_capture_name(input: &str) -> (r: String)
    ensures
        r@ == sanitized(input@),
{
    let cs = chars_of(input);
    let mut mapped: Vec<char> = Vec::new();
    let mut i: usize = 0;
    while i < cs.len()
        invariant
            i <= cs@.len(),
            cs@ == input@,
            mapped@ == cs@.take(i as int).map_values(|c: char| sanitize_char(c)),
        decreases cs.len() - i,
    {
        let c = cs[i];
        let m = if ('0' <= c && c <= '9') || ('a' <= c && c <= 'z') || ('A' <= c && c <= 'Z') {
            to_lower_char(c)
        } else {
            '_'
        };
        mapped.push(m);
        i = i + 1;
        assert(mapped@ =~= cs@.take(i as int).map_values(|c: char| sanitize_char(c)));
    }
    assert(cs@.take(i as int) =~= cs@);
    let mut a: usize = 0;
    let mut b: usize = mapped.len();
    assert(mapped@.subrange(0, b as int) =~= mapped@);
    while a < b && mapped[a] == '_'
        invariant
            a <= b <= mapped@.len(),
            trim_underscores(mapped@.subrange(a as int, b as int)) == trim_underscores(mapped@),
        decreases b - a,
    {
        assert(mapped@.subrange(a as int, b as int).drop_first() =~= mapped@.subrange(a + 1, b as int));
        a = a + 1;
    }
    while a < b && mapped[b - 1] == '_'
        invariant
            a <= b <= mapped@.len(),
            a < b ==> mapped@[a as int] != '_',
            trim_underscores(mapped@.subrange(a as int, b as int)) == trim_underscores(mapped@),
        decreases b - a,
    {
        assert(mapped@.subrange(a as int, b as int).drop_last() =~= mapped@.subrange(a as int, b - 1));
        b = b - 1;
    }
    assert(trim_underscores(mapped@.subrange(a as int, b as int)) == mapped@.subrange(a as int, b as int));
    if a == b {
        return String::from_str("sigma_match");
    }
    let body = string_of_chars(mapped.as_slice(), a, b);
    if '0' <= mapped[a] && mapped[a] <= '9' {
        let mut out = String::from_str("sigma_");
        out.append(body.as_str());
        out
    } else {
        body
    }
}

/// The compact capture name of the `ordinal`-th value of a selector field:
/// `sigma_<16 hex digits>_<ordinal>`, or without the ordinal when that would
/// pass `PCRE2_CAPTURE_NAME_MAX`, where the digits are the XXH3-64 hash of
/// `<rule slug>:<stem>:<ordinal>`.
pub open spec fn capture_name_spec(rule_slug: Seq<char>, stem: Seq<char>, ordinal: nat) -> Seq<char> {
    let key = rule_slug + ":"@ + stem + ":"@ + decimal(ordinal);
    let digits = hex_padded(xxh3_64_of(vstd::utf8::encode_utf8(key)) as nat, 16);
    let long = "sigma_"@ + digits + "_"@ + decimal(ordinal);
    if long.len() > PCRE2_CAPTURE_NAME_MAX {
        "sigma_"@ + digits
    } else {
        long
    }
}

/// Names the `ordinal`-th capture of a selector field within a rule.
pub fn sigma_capture_name(rule_slug: &str, stem: &str, ordinal: usize) -> (r: String)
    ensures
        r@ == capture_name_spec(rule_slug@, stem@, ordinal as nat),
{
    let mut key = String::from_str(rule_slug);
    key.append(":");
    key.append(stem);
    key.append(":");
    let ord = decimal_string(ordinal as u64);
    key.append(ord.as_str());
    let digest = xxh3_64(key.as_str().as_bytes());
    let digits = hex_string_padded(digest, 16);
    let mut name = String::from_str("sigma_");
    name.append(digits.as_str());
    let short = name.clone();
    name.append("_");
    name.append(ord.as_str());
    if name.as_str().unicode_len() > PCRE2_CAPTURE_NAME_MAX {
        short
    } else {
        name
    }
}

/// A literal Sigma value as a regex: metacharacters escaped, `*` as `.*` and `?` as `.`.
pub open spec fn escape_char(c: char) -> Seq<char> {
    if c == '\\' || c == '.' || c == '+' || c == '^' || c == '$' || c == '{' || c == '}' || c == '('
        || c == ')' || c == '[' || c == ']' || c == '|' {
        seq!['\\', c]
    } else if c == '*' {
        seq!['.', '*']
    } else if c == '?' {
        seq!['.']
    } else {
        seq![c]
    }
}

pub open spec fn escaped(s: Seq<char>) -> Seq<char>
    decreases s.len(),
{
    if s.len() == 0 {
        Seq::empty()
    } else {
        escaped(s.drop_last()) + escape_char(s.last())
    }
}

/// Escapes a Sigma value for the regex engine, with wildcard semantics.
pub fn sigma_escape_literal(input: &str) -> (r: String)
    ensures
        r@ == escaped(input@),
{
    let cs = chars_of(input);
    let mut out = String::new();
    let mut i: usize = 0;
    while i < cs.len()
        invariant
            i <= cs@.len(),
            cs@ == input@,
            out@ == escaped(cs@.take(i as int)),
        decreases cs.len() - i,
    {
        let c = cs[i];
        if c == '\\' || c == '.' || c == '+' || c == '^' || c == '$' || c == '{' || c == '}' || c == '('
            || c == ')' || c == '[' || c == ']' || c == '|' {
            push_char(&mut out, '\\');
            push_char(&mut out, c);
        } else if c == '*' {
            push_char(&mut out, '.');
            push_char(&mut out, '*');
        } else if c == '?' {
            push_char(&mut out, '.');
        } else {
            push_char(&mut out, c);
        }
        proof {
            assert(cs@.take(i + 1).drop_last() =~= cs@.take(i as int));
            assert(out@ =~= escaped(cs@.take(i + 1)));
        }
        i = i + 1;
    }
    assert(cs@.take(i as int) =~= cs@);
    out
}

/// Whether a character occurs in a sequence.
pub open spec fn has_char(s: Seq<char>, c: char) -> bool {
    exists|i: int| 0 <= i < s.len() && s[i] == c
}

/// Whether a list of modifiers holds `m`.
pub open spec fn has_modifier(mods: Seq<Seq<char>>, m: Seq<char>) -> bool {
    exists|i: int| 0 <= i < mods.len() && mods[i] == m
}

/// The regex for a Sigma value under its field modifiers: `re` takes the value
/// as it is; otherwise the value is escaped, and unless it holds a wildcard
/// `contains`, `startswith` and `endswith` (first that applies) open it on
/// both sides, on the right, or on the left.
pub open spec fn value_regex(value: Seq<char>, mods: Seq<Seq<char>>) -> Seq<char> {
    let wild = has_char(value, '*') || has_char(value, '?');
    let e = escaped(value);
    if has_modifier(mods, "re"@) {
        value
    } else if has_modifier(mods, "contains"@) && !wild {
        ".*"@ + e + ".*"@
    } else if has_modifier(mods, "startswith"@) && !wild {
        e + ".*"@
    } else if has_modifier(mods, "endswith"@) && !wild {
        ".*"@ + e
    } else {
        e
    }
}

fn contains_modifier(modifiers: &Vec<String>, m: &str) -> (r: bool)
    ensures
        r == has_modifier(modifiers@.map_values(|s: String| s@), m@),
{
    let ghost mv = modifiers@.map_values(|s: String| s@);
    let mut i: usize = 0;
    while i < modifiers.len()
        invariant
            i <= modifiers@.len(),
            mv == modifiers@.map_values(|s: String| s@),
            forall|k: int| 0 <= k < i ==> mv[k] != m@,
        decreases modifiers.len() - i,
    {
        if crate::text::str_eq(modifiers[i].as_str(), m) {
            assert(mv[i as int] == m@);
            return true;
        }
        i = i + 1;
    }
    false
}

fn contains_char(s: &Vec<char>, c: char) -> (r: bool)
    ensures
        r == has_char(s@, c),
{
    let mut i: usize = 0;
    while i < s.len()
        invariant
            i <= s@.len(),
            forall|k: int| 0 <= k < i ==> s@[k] != c,
        decreases s.len() - i,
    {
        if s[i] == c {
            return true;
        }
        i = i + 1;
    }
    false
}

/// The regex for a Sigma value under its field modifiers.
pub fn sigma_value_to_pcre(value: &str, modifiers: &Vec<String>) -> (r: String)
    ensures
        r@ == value_regex(value@, modifiers@.map_values(|s: String| s@)),
{
    proof {
        reveal_strlit(".*");
    }
    if contains_modifier(modifiers, "re") {
        return String::from_str(value);
    }
    let cs = chars_of(value);
    let wildcard_present = contains_char(&cs, '*') || contains_char(&cs, '?');
    let escaped_value = sigma_escape_literal(value);
    if contains_modifier(modifiers, "contains") && !wildcard_present {
        let mut out = String::from_str(".*");
        out.append(escaped_value.as_str());
        out.append(".*");
        out
    } else if contains_modifier(modifiers, "startswith") && !wildcard_present {
        let mut out = escaped_value;
        out.append(".*");
        out
    } else if contains_modifier(modifiers, "endswith") && !wildcard_present {
        let mut out = String::from_str(".*");
        out.append(escaped_value.as_str());
        out
    } else {
        escaped_value
    }
}

/// The rest of `line` after `key:`, trimmed, when the line starts with it.
pub fn parse_mapping_line(line: &str, key: &str) -> (r: Option<String>)
    ensures
        r is Some <==> crate::text::has_prefix(line@, key@ + ":"@),
        r is Some ==> r->Some_0@ == trim_ws(line@.skip(key@.len() as int + 1)),
{
    let cs = chars_of(line);
    let mut prefix = chars_of(key);
    prefix.push(':');
    proof {
        reveal_strlit(":");
        assert(prefix@ =~= key@ + ":"@);
    }
    if !crate::text::chars_occur_at(cs.as_slice(), prefix.as_slice(), 0) {
        return None;
    }
    let (a, b) = trim_bounds(&cs, prefix.len(), cs.len());
    assert(cs@.subrange(prefix@.len() as int, cs@.len() as int) =~= line@.skip(key@.len() as int + 1));
    Some(string_of_chars(cs.as_slice(), a, b))
}

/// The index of the first `c` in `s`, if any.
pub open spec fn first_index(s: Seq<char>, c: char) -> Option<int>
    decreases s.len(),
{
    if s.len() == 0 {
        None
    } else if s[0] == c {
        Some(0)
    } else {
        match first_index(s.drop_first(), c) {
            Some(i) => Some(i + 1),
            None => None,
        }
    }
}

fn find_char(s: &Vec<char>, from: usize, to: usize, c: char) -> (r: Option<usize>)
    requires
        from <= to <= s@.len(),
    ensures
        r is None <==> first_index(s@.subrange(from as int, to as int), c) is None,
        r is Some ==> from <= r->Some_0 < to && first_index(s@.subrange(from as int, to as int), c) == Some(r->Some_0 - from),
{
    let mut i = from;
    while i < to
        invariant
            from <= i <= to <= s@.len(),
            first_index(s@.subrange(from as int, to as int), c) == match first_index(s@.subrange(i as int, to as int), c) {
                Some(k) => Some(k + (i - from)),
                None => None::<int>,
            },
        decreases to - i,
    {
        assert(s@.subrange(i as int, to as int).drop_first() =~= s@.subrange(i + 1, to as int));
        if s[i] == c {
            return Some(i);
        }
        i = i + 1;
    }
    None
}

/// Splits `key: value` at the first colon, both sides trimmed.
pub fn split_yaml_key_value(line: &str) -> (r: Option<(String, String)>)
    ensures
        r is None <==> first_index(line@, ':') is None,
        r is Some ==> ({
            let i = first_index(line@, ':')->Some_0;
            r->Some_0.0@ == trim_ws(line@.subrange(0, i)) && r->Some_0.1@ == trim_ws(line@.skip(i + 1))
        }),
{
    let cs = chars_of(line);
    assert(cs@.subrange(0, cs@.len() as int) =~= cs@);
    match find_char(&cs, 0, cs.len(), ':') {
        None => None,
        Some(i) => {
            let (a, b) = trim_bounds(&cs, 0, i);
            let (c, d) = trim_bounds(&cs, i + 1, cs.len());
            assert(cs@.subrange(i + 1, cs@.len() as int) =~= line@.skip(i + 1));
            Some((string_of_chars(cs.as_slice(), a, b), string_of_chars(cs.as_slice(), c, d)))
        },
    }
}

/// The pieces of `s` between occurrences of `c`.
pub open spec fn split_on(s: Seq<char>, c: char) -> Seq<Seq<char>>
    decreases s.len(),
{
    match first_index(s, c) {
        None => seq![s],
        Some(i) => if 0 <= i < s.len() {
            seq![s.subrange(0, i)] + split_on(s.skip(i + 1), c)
        } else {
            seq![s]
        },
    }
}

/// Splits a field name `base|mod1|mod2` into its base and modifiers.
pub fn parse_field_modifiers(field_name: Option<&str>) -> (r: (Option<String>, Vec<String>))
    ensures
        field_name is None ==> r.0 is None && r.1@.len() == 0,
        field_name is Some ==> r.0 is Some && seq![r.0->Some_0@] + r.1@.map_values(|s: String| s@) == split_on(field_name->Some_0@, '|'),
{
    let Some(field) = field_name else {
        return (None, Vec::new());
    };
    let cs = chars_of(field);
    let mut parts: Vec<String> = Vec::new();
    let mut start: usize = 0;
    let ghost whole = cs@;
    assert(cs@.skip(0) =~= cs@);
    let mut done = false;
    while !done
        invariant
            start <= cs@.len(),
            whole == cs@,
            whole == field@,
            !done ==> parts@.map_values(|s: String| s@) + split_on(cs@.skip(start as int), '|') == split_on(whole, '|'),
            done ==> parts@.map_values(|s: String| s@) == split_on(whole, '|'),
        decreases cs@.len() - start, if done { 0int } else { 1int },
    {
        let ghost before = parts@.map_values(|s: String| s@);
        let ghost rest = cs@.skip(start as int);
        assert(cs@.subrange(start as int, cs@.len() as int) =~= rest);
        match find_char(&cs, start, cs.len(), '|') {
            None => {
                parts.push(string_of_chars(cs.as_slice(), start, cs.len()));
                assert(split_on(rest, '|') == seq![rest]);
                assert(parts@.map_values(|s: String| s@) =~= before + split_on(rest, '|'));
                done = true;
            },
            Some(i) => {
                parts.push(string_of_chars(cs.as_slice(), start, i));
                assert(cs@.subrange(start as int, i as int) =~= rest.subrange(0, i - start));
                assert(rest.skip(i - start + 1) =~= cs@.skip(i + 1));
                assert(split_on(rest, '|') == seq![rest.subrange(0, i - start)] + split_on(rest.skip(i - start + 1), '|'));
                assert(parts@.map_values(|s: String| s@) + split_on(cs@.skip(i + 1), '|') =~= before + split_on(rest, '|'));
                start = i + 1;
            },
        }
    }
    let ghost pv = parts@.map_values(|s: String| s@);
    assert(pv == split_on(whole, '|'));
    assert(pv.len() > 0);
    let base = parts.remove(0);
    assert(seq![base@] + parts@.map_values(|s: String| s@) =~= pv);
    (Some(base), parts)
}

/// One regex generated from a Sigma rule.
#[derive(Clone, Debug)]
pub struct SigmaPatternSpec {
    pub regex: String,
}

/// A compiled Sigma rule: its patterns, which captures belong to which
/// selector, and its condition.
#[derive(Debug)]
pub struct SigmaRulePlan {
    pub rule_name: String,
    pub rule_slug: String,
    pub condition: SigmaConditionExpr,
    pub selector_capture_names: Vec<(String, Vec<String>)>,
    pub pattern_specs: Vec<SigmaPatternSpec>,
}

/// Whether one of `captures` is among `tags`.
pub open spec fn any_tagged(captures: Seq<Seq<char>>, tags: Seq<Seq<char>>) -> bool {
    exists|i: int, j: int| 0 <= i < captures.len() && 0 <= j < tags.len() && captures[i] == tags[j]
}

pub open spec fn capture_table(es: Seq<(String, Vec<String>)>) -> Seq<(Seq<char>, Seq<Seq<char>>)> {
    es.map_values(|e: (String, Vec<String>)| (e.0@, e.1@.map_values(|s: String| s@)))
}

/// The selector table of a rule for a payload's tags: each selector fired
/// when one of its captures is among the tags.
pub open spec fn hits_table(es: Seq<(Seq<char>, Seq<Seq<char>>)>, tags: Seq<Seq<char>>) -> Seq<(Seq<char>, bool)>
    decreases es.len(),
{
    if es.len() == 0 {
        Seq::empty()
    } else {
        table_insert(hits_table(es.drop_last(), tags), es.last().0, any_tagged(es.last().1, tags))
    }
}

/// Whether a rule matches a payload's tags.
pub open spec fn rule_fires(plan: SigmaRulePlan, tags: Seq<Seq<char>>) -> bool {
    eval_condition(plan.condition@, hits_table(capture_table(plan.selector_capture_names@), tags))
}

fn any_capture_tagged(captures: &Vec<String>, tags: &Vec<String>) -> (r: bool)
    ensures
        r == any_tagged(captures@.map_values(|s: String| s@), tags@.map_values(|s: String| s@)),
{
    let ghost cv = captures@.map_values(|s: String| s@);
    let ghost tv = tags@.map_values(|s: String| s@);
    let mut i: usize = 0;
    while i < captures.len()
        invariant
            i <= captures@.len(),
            cv == captures@.map_values(|s: String| s@),
            tv == tags@.map_values(|s: String| s@),
            forall|a: int, b: int| 0 <= a < i && 0 <= b < tv.len() ==> cv[a] != tv[b],
        decreases captures.len() - i,
    {
        let mut j: usize = 0;
        while j < tags.len()
            invariant
                i < captures@.len(),
                j <= tags@.len(),
                cv == captures@.map_values(|s: String| s@),
                tv == tags@.map_values(|s: String| s@),
                forall|b: int| 0 <= b < j ==> cv[i as int] != tv[b],
            decreases tags.len() - j,
        {
            if crate::text::str_eq(captures[i].as_str(), tags[j].as_str()) {
                assert(cv[i as int] == tv[j as int]);
                return true;
            }
            j = j + 1;
        }
        i = i + 1;
    }
    false
}

/// Which selectors of a rule fired for a payload's tags.
pub fn selector_hits_for_rule(rule: &SigmaRulePlan, matched_tags: &Vec<String>) -> (r: SelectorHits)
    ensures
        r@ == hits_table(capture_table(rule.selector_capture_names@), matched_tags@.map_values(|s: String| s@)),
        r.wf(),
{
    let ghost table = capture_table(rule.selector_capture_names@);
    let ghost tv = matched_tags@.map_values(|s: String| s@);
    let mut hits = SelectorHits::new();
    let mut i: usize = 0;
    assert(hits@ =~= hits_table(table.take(0), tv));
    while i < rule.selector_capture_names.len()
        invariant
            i <= rule.selector_capture_names@.len(),
            table == capture_table(rule.selector_capture_names@),
            tv == matched_tags@.map_values(|s: String| s@),
            hits.wf(),
            hits@ == hits_table(table.take(i as int), tv),
        decreases rule.selector_capture_names.len() - i,
    {
        let entry = &rule.selector_capture_names[i];
        let hit = any_capture_tagged(&entry.1, matched_tags);
        hits.insert(entry.0.clone(), hit);
        proof {
            assert(table.take(i + 1).drop_last() =~= table.take(i as int));
        }
        i = i + 1;
    }
    assert(table.take(i as int) =~= table);
    hits
}

/// The rules whose condition holds for a payload's tags, in order. With no
/// rules or no tags nothing matches.
pub fn matching_sigma_rules<'a>(rule_plans: &'a Vec<SigmaRulePlan>, matched_tags: &Vec<String>) -> (r: Vec<usize>)
    ensures
        rule_plans@.len() == 0 || matched_tags@.len() == 0 ==> r@.len() == 0,
        rule_plans@.len() > 0 && matched_tags@.len() > 0 ==> r@ == fired_rules(rule_plans@, matched_tags@.map_values(|s: String| s@), rule_plans@.len() as int),
{
    let mut hits: Vec<usize> = Vec::new();
    if rule_plans.len() == 0 || matched_tags.len() == 0 {
        return hits;
    }
    let ghost tv = matched_tags@.map_values(|s: String| s@);
    let mut i: usize = 0;
    while i < rule_plans.len()
        invariant
            i <= rule_plans@.len(),
            tv == matched_tags@.map_values(|s: String| s@),
            hits@ == fired_rules(rule_plans@, tv, i as int),
        decreases rule_plans.len() - i,
    {
        let rule = &rule_plans[i];
        let selector_hits = selector_hits_for_rule(rule, matched_tags);
        if rule.condition.evaluate(&selector_hits) {
            hits.push(i);
        }
        i = i + 1;
    }
    hits
}

/// Indices of the first `n` rules that fire.
pub open spec fn fired_rules(plans: Seq<SigmaRulePlan>, tags: Seq<Seq<char>>, n: int) -> Seq<usize>
    decreases n,
{
    if n <= 0 {
        Seq::empty()
    } else if rule_fires(plans[n - 1], tags) {
        fired_rules(plans, tags, n - 1).push((n - 1) as usize)
    } else {
        fired_rules(plans, tags, n - 1)
    }
}

/// The next ordinal stored for `stem` (the first entry for it), zero when none is.
pub open spec fn ordinal_of(ci: Seq<(String, usize)>, stem: Seq<char>) -> nat
    decreases ci.len(),
{
    if ci.len() == 0 {
        0
    } else if ci[0].0@ == stem {
        ci[0].1 as nat
    } else {
        ordinal_of(ci.drop_first(), stem)
    }
}

/// An ordinal advanced by one, saturating.
pub open spec fn bump(n: nat) -> nat {
    if n < usize::MAX {
        n + 1
    } else {
        n
    }
}

/// An ordinal advanced `k` times.
pub open spec fn bump_times(n: nat, k: nat) -> nat
    decreases k,
{
    if k == 0 {
        n
    } else {
        bump(bump_times(n, (k - 1) as nat))
    }
}

proof fn lemma_ordinal_update(ci: Seq<(String, usize)>, i: int, entry: (String, usize), stem: Seq<char>)
    requires
        0 <= i < ci.len(),
        forall|k: int| 0 <= k < i ==> ci[k].0@ != stem,
        ci[i].0@ == stem,
        entry.0@ == stem,
    ensures
        forall|s: Seq<char>| #[trigger] ordinal_of(ci.update(i, entry), s) == if s == stem { entry.1 as nat } else { ordinal_of(ci, s) },
    decreases i,
{
    let u = ci.update(i, entry);
    if i > 0 {
        assert(u.drop_first() =~= ci.drop_first().update(i - 1, entry));
        lemma_ordinal_update(ci.drop_first(), i - 1, entry, stem);
        assert forall|s: Seq<char>| #[trigger] ordinal_of(u, s) == if s == stem { entry.1 as nat } else { ordinal_of(ci, s) } by {
            assert(u[0] == ci[0]);
            assert(ordinal_of(ci.drop_first().update(i - 1, entry), s) == if s == stem { entry.1 as nat } else { ordinal_of(ci.drop_first(), s) });
        }
    } else {
        assert(u.drop_first() =~= ci.drop_first());
        assert forall|s: Seq<char>| #[trigger] ordinal_of(u, s) == if s == stem { entry.1 as nat } else { ordinal_of(ci, s) } by {
            assert(u[0] == entry);
        }
    }
}

proof fn lemma_ordinal_push(ci: Seq<(String, usize)>, entry: (String, usize))
    requires
        forall|k: int| 0 <= k < ci.len() ==> ci[k].0@ != entry.0@,
    ensures
        forall|s: Seq<char>| #[trigger] ordinal_of(ci.push(entry), s) == if s == entry.0@ { entry.1 as nat } else { ordinal_of(ci, s) },
    decreases ci.len(),
{
    let u = ci.push(entry);
    if ci.len() > 0 {
        assert(u.drop_first() =~= ci.drop_first().push(entry));
        lemma_ordinal_push(ci.drop_first(), entry);
        assert forall|s: Seq<char>| #[trigger] ordinal_of(u, s) == if s == entry.0@ { entry.1 as nat } else { ordinal_of(ci, s) } by {
            assert(u[0] == ci[0]);
            assert(ordinal_of(ci.drop_first().push(entry), s) == if s == entry.0@ { entry.1 as nat } else { ordinal_of(ci.drop_first(), s) });
        }
    } else {
        assert forall|s: Seq<char>| #[trigger] ordinal_of(u, s) == if s == entry.0@ { entry.1 as nat } else { ordinal_of(ci, s) } by {
            assert(u[0] == entry);
            assert(u.drop_first().len() == 0);
            assert(ordinal_of(u.drop_first(), s) == 0);
        }
    }
}

/// Looks up the next ordinal for `stem` and advances it.
fn next_ordinal(capture_index: &mut Vec<(String, usize)>, stem: &str) -> (r: usize)
    ensures
        r as nat == ordinal_of(old(capture_index)@, stem@),
        forall|s: Seq<char>| #[trigger] ordinal_of(final(capture_index)@, s) == if s == stem@ {
            bump(ordinal_of(old(capture_index)@, s))
        } else {
            ordinal_of(old(capture_index)@, s)
        },
{
    let ghost before = capture_index@;
    let mut i: usize = 0;
    assert(before.skip(0) =~= before);
    while i < capture_index.len()
        invariant
            i <= capture_index@.len(),
            capture_index@ == before,
            before == old(capture_index)@,
            forall|k: int| 0 <= k < i ==> before[k].0@ != stem@,
            ordinal_of(before, stem@) == ordinal_of(before.skip(i as int), stem@),
        decreases capture_index.len() - i,
    {
        proof {
            assert(before.skip(i as int).drop_first() =~= before.skip(i + 1));
            assert(before.skip(i as int)[0] == before[i as int]);
        }
        if crate::text::str_eq(capture_index[i].0.as_str(), stem) {
            let (key, ordinal) = capture_index.remove(i);
            let next = if ordinal < usize::MAX { ordinal + 1 } else { ordinal };
            capture_index.insert(i, (key, next));
            proof {
                assert(capture_index@ =~= before.update(i as int, (key, next)));
                assert(ordinal_of(before, stem@) == ordinal_of(before.skip(i as int), stem@));
                assert(before.skip(i as int)[0] == before[i as int]);
                lemma_ordinal_update(before, i as int, (key, next), stem@);
            }
            return ordinal;
        }
        i = i + 1;
    }
    let entry = (String::from_str(stem), 1usize);
    proof {
        lemma_ordinal_push(before, entry);
        lemma_ordinal_absent(before, stem@);
    }
    capture_index.push(entry);
    0
}

proof fn lemma_ordinal_absent(ci: Seq<(String, usize)>, stem: Seq<char>)
    requires
        forall|k: int| 0 <= k < ci.len() ==> ci[k].0@ != stem,
    ensures
        ordinal_of(ci, stem) == 0,
    decreases ci.len(),
{
    if ci.len() > 0 {
        lemma_ordinal_absent(ci.drop_first(), stem);
    }
}

/// The selector table with `name` added to the first entry of `sel`, or in a
/// new entry at the end.
pub open spec fn table_add(t: Seq<(Seq<char>, Seq<Seq<char>>)>, sel: Seq<char>, name: Seq<char>) -> Seq<(Seq<char>, Seq<Seq<char>>)>
    decreases t.len(),
{
    if t.len() == 0 {
        seq![(sel, seq![name])]
    } else if t[0].0 == sel {
        t.update(0, (sel, t[0].1.push(name)))
    } else {
        seq![t[0]] + table_add(t.drop_first(), sel, name)
    }
}

/// The selector table with several names added in order.
pub open spec fn table_add_all(t: Seq<(Seq<char>, Seq<Seq<char>>)>, sel: Seq<char>, names: Seq<Seq<char>>) -> Seq<(Seq<char>, Seq<Seq<char>>)>
    decreases names.len(),
{
    if names.len() == 0 {
        t
    } else {
        table_add(table_add_all(t, sel, names.drop_last()), sel, names.last())
    }
}

proof fn lemma_table_add_at(t: Seq<(Seq<char>, Seq<Seq<char>>)>, i: int, sel: Seq<char>, name: Seq<char>)
    requires
        0 <= i < t.len(),
        forall|k: int| 0 <= k < i ==> t[k].0 != sel,
        t[i].0 == sel,
    ensures
        table_add(t, sel, name) == t.update(i, (sel, t[i].1.push(name))),
    decreases i,
{
    if i > 0 {
        lemma_table_add_at(t.drop_first(), i - 1, sel, name);
        assert(table_add(t, sel, name) =~= t.update(i, (sel, t[i].1.push(name))));
    }
}

proof fn lemma_table_add_new(t: Seq<(Seq<char>, Seq<Seq<char>>)>, sel: Seq<char>, name: Seq<char>)
    requires
        forall|k: int| 0 <= k < t.len() ==> t[k].0 != sel,
    ensures
        table_add(t, sel, name) == t.push((sel, seq![name])),
    decreases t.len(),
{
    if t.len() > 0 {
        lemma_table_add_new(t.drop_first(), sel, name);
        assert(table_add(t, sel, name) =~= t.push((sel, seq![name])));
    }
}

/// Appends `capture` to the capture list of `selector_name`.
fn record_capture(selector_capture_names: &mut Vec<(String, Vec<String>)>, selector_name: &str, capture: String)
    ensures
        capture_table(final(selector_capture_names)@) == table_add(capture_table(old(selector_capture_names)@), selector_name@, capture@),
{
    let ghost before = capture_table(selector_capture_names@);
    let mut i: usize = 0;
    while i < selector_capture_names.len()
        invariant
            i <= selector_capture_names@.len(),
            selector_capture_names@ == old(selector_capture_names)@,
            before == capture_table(old(selector_capture_names)@),
            forall|k: int| 0 <= k < i ==> before[k].0 != selector_name@,
        decreases selector_capture_names.len() - i,
    {
        if crate::text::str_eq(selector_capture_names[i].0.as_str(), selector_name) {
            let ghost cv = capture@;
            let (key, mut names) = selector_capture_names.remove(i);
            let ghost nv = names@.map_values(|s: String| s@);
            names.push(capture);
            assert(names@.map_values(|s: String| s@) =~= nv.push(cv));
            selector_capture_names.insert(i, (key, names));
            proof {
                lemma_table_add_at(before, i as int, selector_name@, cv);
                assert(capture_table(selector_capture_names@) =~= before.update(i as int, (selector_name@, before[i as int].1.push(cv))));
            }
            return;
        }
        i = i + 1;
    }
    let ghost cv = capture@;
    let mut names: Vec<String> = Vec::new();
    names.push(capture);
    assert(names@.map_values(|s: String| s@) =~= seq![cv]);
    selector_capture_names.push((String::from_str(selector_name), names));
    proof {
        lemma_table_add_new(before, selector_name@, cv);
        assert(capture_table(selector_capture_names@) =~= before.push((selector_name@, seq![cv])));
    }
}

/// The capture-name stem of a selector and its field.
pub open spec fn stem_of(selector: Seq<char>, field: Option<Seq<char>>) -> Seq<char> {
    match field {
        Some(f) => sanitized(selector) + "_"@ + sanitized(f),
        None => sanitized(selector),
    }
}

/// The full regex of one Sigma value: its value regex in a named group.
pub open spec fn named_regex(name: Seq<char>, value: Seq<char>, mods: Seq<Seq<char>>) -> Seq<char> {
    "(?<"@ + name + ">"@ + value_regex(value, mods) + ")"@
}

/// Adds one named-capture pattern per value of a selector field. The `k`-th
/// value is named after the rule, the stem of the selector and field, and
/// the stem's next ordinal; the names are added to the selector's list.
pub fn add_sigma_patterns(
    selector_name: &str,
    field_name: Option<&str>,
    modifiers: &Vec<String>,
    values: Vec<String>,
    capture_index: &mut Vec<(String, usize)>,
    selector_capture_names: &mut Vec<(String, Vec<String>)>,
    pattern_specs: &mut Vec<SigmaPatternSpec>,
    rule_id: &str,
)
    ensures
        ({
            let stem = stem_of(selector_name@, match field_name { Some(f) => Some(f@), None => None });
            let slug = sanitized(rule_id@);
            let o = ordinal_of(old(capture_index)@, stem);
            let names = Seq::new(values@.len(), |k: int| capture_name_spec(slug, stem, bump_times(o, k as nat)));
            &&& final(pattern_specs)@.len() == old(pattern_specs)@.len() + values@.len()
            &&& final(pattern_specs)@.subrange(0, old(pattern_specs)@.len() as int) == old(pattern_specs)@
            &&& forall|k: int| 0 <= k < values@.len() ==> #[trigger] final(pattern_specs)@[old(pattern_specs)@.len() + k].regex@
                == named_regex(names[k], values@[k]@, modifiers@.map_values(|s: String| s@))
            &&& forall|s: Seq<char>| #[trigger] ordinal_of(final(capture_index)@, s) == if s == stem {
                bump_times(o, values@.len() as nat)
            } else {
                ordinal_of(old(capture_index)@, s)
            }
            &&& capture_table(final(selector_capture_names)@) == table_add_all(capture_table(old(selector_capture_names)@), selector_name@, names)
        }),
{
    let rule_slug = sanitize_capture_name(rule_id);
    let stem = match field_name {
        Some(field) => {
            let mut st = sanitize_capture_name(selector_name);
            st.append("_");
            let f = sanitize_capture_name(field);
            st.append(f.as_str());
            st
        },
        None => sanitize_capture_name(selector_name),
    };
    let ghost sv = stem_of(selector_name@, match field_name { Some(f) => Some(f@), None => None });
    let ghost slug = sanitized(rule_id@);
    let ghost o = ordinal_of(capture_index@, sv);
    let ghost names = Seq::new(values@.len(), |k: int| capture_name_spec(slug, sv, bump_times(o, k as nat)));
    let ghost mv = modifiers@.map_values(|s: String| s@);
    let ghost t0 = capture_table(selector_capture_names@);
    proof {
        reveal_strlit("_");
        assert(stem@ == sv);
        assert(names.take(0) =~= Seq::<Seq<char>>::empty());
    }
    let mut k: usize = 0;
    while k < values.len()
        invariant
            k <= values@.len(),
            stem@ == sv,
            rule_slug@ == slug,
            mv == modifiers@.map_values(|s: String| s@),
            names == Seq::new(values@.len(), |j: int| capture_name_spec(slug, sv, bump_times(o, j as nat))),
            pattern_specs@.len() == old(pattern_specs)@.len() + k,
            pattern_specs@.subrange(0, old(pattern_specs)@.len() as int) == old(pattern_specs)@,
            forall|j: int| 0 <= j < k ==> #[trigger] pattern_specs@[old(pattern_specs)@.len() + j].regex@
                == named_regex(names[j], values@[j]@, mv),
            forall|s: Seq<char>| #[trigger] ordinal_of(capture_index@, s) == if s == sv {
                bump_times(o, k as nat)
            } else {
                ordinal_of(old(capture_index)@, s)
            },
            o == ordinal_of(old(capture_index)@, sv),
            t0 == capture_table(old(selector_capture_names)@),
            capture_table(selector_capture_names@) == table_add_all(t0, selector_name@, names.take(k as int)),
        decreases values.len() - k,
    {
        let ordinal = next_ordinal(capture_index, stem.as_str());
        let capture_name = sigma_capture_name(rule_slug.as_str(), stem.as_str(), ordinal);
        let rendered = sigma_value_to_pcre(values[k].as_str(), modifiers);
        let mut regex = String::from_str("(?<");
        regex.append(capture_name.as_str());
        regex.append(">");
        regex.append(rendered.as_str());
        regex.append(")");
        proof {
            assert(capture_name@ == names[k as int]);
            assert(regex@ =~= named_regex(names[k as int], values@[k as int]@, mv));
        }
        record_capture(selector_capture_names, selector_name, capture_name);
        proof {
            assert(names.take(k + 1).drop_last() =~= names.take(k as int));
            assert(names.take(k + 1).last() == names[k as int]);
        }
        let ghost before = pattern_specs@;
        pattern_specs.push(SigmaPatternSpec { regex });
        proof {
            assert forall|j: int| 0 <= j < k + 1 implies #[trigger] pattern_specs@[old(pattern_specs)@.len() + j].regex@
                == named_regex(names[j], values@[j]@, mv) by {
                if j < k {
                    assert(pattern_specs@[old(pattern_specs)@.len() + j] == before[old(pattern_specs)@.len() + j]);
                }
            }
            assert(pattern_specs@.subrange(0, old(pattern_specs)@.len() as int) =~= before.subrange(0, old(pattern_specs)@.len() as int));
        }
        k = k + 1;
    }
    assert(names.take(k as int) =~= names);
}

/// Whether `s` starts with `c`.
fn starts_with_char(s: &str, c: char) -> (r: bool)
    ensures
        r == (s@.len() > 0 && s@[0] == c),
{
    let n = s.unicode_len();
    n > 0 && s.get_char(0) == c
}

/// Whether `s` ends with `c`.
fn ends_with_char(s: &str, c: char) -> (r: bool)
    ensures
        r == (s@.len() > 0 && s@.last() == c),
{
    let n = s.unicode_len();
    n > 0 && s.get_char(n - 1) == c
}

/// `s` without its trailing run of `c`.
pub open spec fn strip_trailing(s: Seq<char>, c: char) -> Seq<char>
    decreases s.len(),
{
    if s.len() > 0 && s.last() == c {
        strip_trailing(s.drop_last(), c)
    } else {
        s
    }
}

/// `s` without its leading run of `c`.
pub open spec fn strip_leading(s: Seq<char>, c: char) -> Seq<char>
    decreases s.len(),
{
    if s.len() > 0 && s[0] == c {
        strip_leading(s.drop_first(), c)
    } else {
        s
    }
}

/// `s` without trailing `c` characters, then trimmed.
fn trim_trailing_then_ws(s: &str, c: char) -> (r: String)
    ensures
        r@ == trim_ws(strip_trailing(s@, c)),
{
    let cs = chars_of(s);
    let mut b = cs.len();
    assert(cs@.subrange(0, b as int) =~= cs@);
    while b > 0 && cs[b - 1] == c
        invariant
            b <= cs@.len(),
            strip_trailing(cs@.subrange(0, b as int), c) == strip_trailing(cs@, c),
        decreases b,
    {
        assert(cs@.subrange(0, b as int).drop_last() =~= cs@.subrange(0, b - 1));
        b = b - 1;
    }
    let (x, y) = trim_bounds(&cs, 0, b);
    string_of_chars(cs.as_slice(), x, y)
}

/// `s` without leading `c` characters, then trimmed.
fn trim_leading_then_ws(s: &str, c: char) -> (r: String)
    ensures
        r@ == trim_ws(strip_leading(s@, c)),
{
    let cs = chars_of(s);
    let mut a: usize = 0;
    assert(cs@.subrange(0, cs@.len() as int) =~= cs@);
    while a < cs.len() && cs[a] == c
        invariant
            a <= cs@.len(),
            strip_leading(cs@.subrange(a as int, cs@.len() as int), c) == strip_leading(cs@, c),
        decreases cs.len() - a,
    {
        assert(cs@.subrange(a as int, cs@.len() as int).drop_first() =~= cs@.subrange(a + 1, cs@.len() as int));
        a = a + 1;
    }
    let (x, y) = trim_bounds(&cs, a, cs.len());
    string_of_chars(cs.as_slice(), x, y)
}

/// One value that a detection block contributes: its selector, its field
/// (base name and modifiers) if any, and the value text.
pub struct SigmaValue {
    pub selector: Seq<char>,
    pub field: Option<Seq<char>>,
    pub modifiers: Seq<Seq<char>>,
    pub value: Seq<char>,
}

/// What reading a rule has gathered so far.
pub struct RuleWalk {
    pub name: Seq<char>,
    pub id: Seq<char>,
    pub in_detection: bool,
    pub selector: Option<Seq<char>>,
    pub field: Option<Seq<char>>,
    pub condition: Seq<char>,
    pub done: bool,
    pub values: Seq<SigmaValue>,
}

/// The value of a field line `field: value` or of a list item under a field.
pub open spec fn field_value(selector: Seq<char>, field: Option<Seq<char>>, value: Seq<char>) -> SigmaValue {
    match field {
        Some(f) => {
            let parts = split_on(f, '|');
            SigmaValue { selector, field: Some(parts[0]), modifiers: parts.drop_first(), value }
        },
        None => SigmaValue { selector, field: None, modifiers: Seq::empty(), value },
    }
}

/// The effect of one line of a rule. Top-level `title:` and `id:` name the
/// rule until `detection:` opens the detection block, which ends at the next
/// line indented no deeper than it. Inside it, `condition:` sets the
/// condition; a line indented two spaces opens a selector (with an optional
/// inline value); a deeper `key:` opens a field (with an optional inline
/// value); and a `- value` item adds a value to the current selector and field.
pub open spec fn walk_step(w: RuleWalk, line: Seq<char>) -> RuleWalk {
    let t = trim_ws(line);
    let indent = leading_spaces(line);
    if w.done || t.len() == 0 || t[0] == '#' {
        w
    } else if !w.in_detection {
        if indent != 0 {
            w
        } else if crate::text::has_prefix(t, "title:"@) {
            RuleWalk { name: strip_quotes_spec(trim_ws(t.skip(6))), ..w }
        } else if crate::text::has_prefix(t, "id:"@) {
            RuleWalk { id: strip_quotes_spec(trim_ws(t.skip(3))), ..w }
        } else if t == "detection:"@ {
            RuleWalk { in_detection: true, ..w }
        } else {
            w
        }
    } else if indent == 0 {
        RuleWalk { done: true, ..w }
    } else if crate::text::has_prefix(t, "condition:"@) {
        RuleWalk { condition: strip_quotes_spec(trim_ws(t.skip(10))), selector: None, field: None, ..w }
    } else if t[0] != '-' && indent == 2 && t.last() == ':' {
        RuleWalk { selector: Some(trim_ws(strip_trailing(t, ':'))), field: None, ..w }
    } else if t[0] != '-' && indent == 2 && first_index(t, ':') is Some {
        let i = first_index(t, ':')->Some_0;
        let sel = trim_ws(t.subrange(0, i));
        let inline = trim_ws(t.skip(i + 1));
        let added = if inline.len() > 0 {
            seq![field_value(sel, None, strip_quotes_spec(inline))]
        } else {
            Seq::empty()
        };
        RuleWalk { selector: Some(sel), field: None, values: w.values + added, ..w }
    } else if t[0] != '-' && t.last() == ':' {
        RuleWalk { field: Some(trim_ws(strip_trailing(t, ':'))), ..w }
    } else if t[0] != '-' && first_index(t, ':') is Some {
        let i = first_index(t, ':')->Some_0;
        let f = trim_ws(t.subrange(0, i));
        let inline = trim_ws(t.skip(i + 1));
        let added = if inline.len() > 0 && w.selector is Some {
            seq![field_value(w.selector->Some_0, Some(f), strip_quotes_spec(inline))]
        } else {
            Seq::empty()
        };
        RuleWalk { field: Some(f), values: w.values + added, ..w }
    } else if t[0] != '-' {
        w
    } else {
        let v = strip_quotes_spec(trim_ws(strip_leading(t, '-')));
        if v.len() == 0 || w.selector is None {
            w
        } else {
            RuleWalk { values: w.values.push(field_value(w.selector->Some_0, w.field, v)), ..w }
        }
    }
}

/// The walk over the first `k` lines.
pub open spec fn walk_lines(lines: Seq<Seq<char>>, k: int, stem: Seq<char>) -> RuleWalk
    decreases k,
{
    if k <= 0 {
        RuleWalk {
            name: stem,
            id: stem,
            in_detection: false,
            selector: None,
            field: None,
            condition: "1 of them"@,
            done: false,
            values: Seq::empty(),
        }
    } else {
        walk_step(walk_lines(lines, k - 1, stem), lines[k - 1])
    }
}

/// The walk over a whole rule text, line by line.
pub open spec fn rule_walk(text: Seq<char>, stem: Seq<char>) -> RuleWalk {
    let lines = split_on(text, '\n');
    walk_lines(lines, lines.len() as int, stem)
}

/// The capture-name stem of a value.
pub open spec fn value_stem(v: SigmaValue) -> Seq<char> {
    stem_of(v.selector, v.field)
}

/// How many values have the stem (saturating): the next ordinal for it.
pub open spec fn stem_count(vs: Seq<SigmaValue>, stem: Seq<char>) -> nat
    decreases vs.len(),
{
    if vs.len() == 0 {
        0
    } else if value_stem(vs.last()) == stem {
        bump(stem_count(vs.drop_last(), stem))
    } else {
        stem_count(vs.drop_last(), stem)
    }
}

/// The capture name of the `k`-th value: the rule slug, its stem, and how
/// many earlier values share the stem.
pub open spec fn value_name(vs: Seq<SigmaValue>, k: int, slug: Seq<char>) -> Seq<char> {
    capture_name_spec(slug, value_stem(vs[k]), stem_count(vs.take(k), value_stem(vs[k])))
}

/// The generated patterns are the gathered values, one for one, each in its named group.
pub open spec fn patterns_exact(specs: Seq<SigmaPatternSpec>, vs: Seq<SigmaValue>, slug: Seq<char>) -> bool {
    specs.len() == vs.len() && forall|k: int| 0 <= k < specs.len() ==> (#[trigger] specs[k]).regex@
        == named_regex(value_name(vs, k, slug), vs[k].value, vs[k].modifiers)
}

/// Each selector with the capture names of its values, in order of first appearance.
pub open spec fn selector_table(vs: Seq<SigmaValue>, slug: Seq<char>) -> Seq<(Seq<char>, Seq<Seq<char>>)>
    decreases vs.len(),
{
    if vs.len() == 0 {
        Seq::empty()
    } else {
        table_add(selector_table(vs.drop_last(), slug), vs.last().selector, value_name(vs, vs.len() - 1, slug))
    }
}

/// The capture tables of a rule under construction agree with its values.
pub open spec fn tables_follow(
    specs: Seq<SigmaPatternSpec>,
    ci: Seq<(String, usize)>,
    scn: Seq<(String, Vec<String>)>,
    vs: Seq<SigmaValue>,
    slug: Seq<char>,
) -> bool {
    &&& patterns_exact(specs, vs, slug)
    &&& forall|s: Seq<char>| #[trigger] ordinal_of(ci, s) == stem_count(vs, s)
    &&& capture_table(scn) == selector_table(vs, slug)
}

proof fn lemma_concat_shapes(vs: Seq<SigmaValue>)
    ensures
        vs + Seq::<SigmaValue>::empty() == vs,
        forall|x: SigmaValue| #[trigger] (vs + seq![x]) == vs.push(x),
{
    assert(vs + Seq::<SigmaValue>::empty() =~= vs);
    assert forall|x: SigmaValue| #[trigger] (vs + seq![x]) == vs.push(x) by {
        assert(vs + seq![x] =~= vs.push(x));
    }
}

fn opt_str(o: &Option<String>) -> (r: Option<&str>)
    ensures
        o is None ==> r is None,
        o is Some ==> r is Some && r->Some_0@ == o->Some_0@,
{
    match o {
        Some(s) => Some(s.as_str()),
        None => None,
    }
}

/// Adds one value under the current selector and field.
fn add_value(
    selector_name: &str,
    field_name: Option<&str>,
    value: String,
    capture_index: &mut Vec<(String, usize)>,
    selector_capture_names: &mut Vec<(String, Vec<String>)>,
    pattern_specs: &mut Vec<SigmaPatternSpec>,
    rule_id: &str,
    Ghost(values): Ghost<Seq<SigmaValue>>,
)
    requires
        tables_follow(old(pattern_specs)@, old(capture_index)@, old(selector_capture_names)@, values, sanitized(rule_id@)),
    ensures
        tables_follow(final(pattern_specs)@, final(capture_index)@, final(selector_capture_names)@,
            values.push(field_value(selector_name@, match field_name { Some(f) => Some(f@), None => None }, value@)), sanitized(rule_id@)),
{
    let (field_base, modifiers) = parse_field_modifiers(field_name);
    let base_ref = opt_str(&field_base);
    let ghost v = field_value(selector_name@, match field_name { Some(f) => Some(f@), None => None }, value@);
    let ghost mv = modifiers@.map_values(|s: String| s@);
    proof {
        if let Some(f) = field_name {
            assert(split_on(f@, '|') == seq![field_base->Some_0@] + mv);
            assert(split_on(f@, '|').drop_first() =~= mv);
        } else {
            assert(mv =~= Seq::<Seq<char>>::empty());
        }
        assert(v.modifiers == mv);
    }
    let mut values_vec: Vec<String> = Vec::new();
    let ghost value_view = value@;
    values_vec.push(value);
    assert(values_vec@[0]@ == value_view);
    let ghost before = pattern_specs@;
    let ghost ci0 = capture_index@;
    let ghost t0 = capture_table(selector_capture_names@);
    assert(values_vec@.len() == 1);
    let ghost slug = sanitized(rule_id@);
    let ghost stem = value_stem(v);
    proof {
        assert(stem == stem_of(selector_name@, match base_ref { Some(f) => Some(f@), None => None }));
    }
    add_sigma_patterns(selector_name, base_ref, &modifiers, values_vec, capture_index, selector_capture_names, pattern_specs, rule_id);
    proof {
        let nv = values.push(v);
        let n = values.len() as int;
        assert(nv.take(n) =~= values);
        assert(nv.drop_last() =~= values);
        assert(value_name(nv, n, slug) == capture_name_spec(slug, stem, bump_times(ordinal_of(ci0, stem), 0)));
        assert forall|k: int| 0 <= k < pattern_specs@.len() implies (#[trigger] pattern_specs@[k]).regex@
            == named_regex(value_name(nv, k, slug), nv[k].value, nv[k].modifiers) by {
            if k < before.len() {
                assert(pattern_specs@.subrange(0, before.len() as int)[k] == before[k]);
                assert(nv.take(k) =~= values.take(k));
                assert(nv[k] == values[k]);
            } else {
                assert(k == before.len() + 0);
                assert(nv[k].value == value_view);
                assert(nv[k].modifiers == mv);
            }
        }
        assert forall|s: Seq<char>| #[trigger] ordinal_of(capture_index@, s) == stem_count(nv, s) by {
            assert(ordinal_of(ci0, s) == stem_count(values, s));
        }
        let names = Seq::new(1, |k: int| capture_name_spec(slug, stem, bump_times(ordinal_of(ci0, stem), k as nat)));
        assert(names.drop_last() =~= Seq::<Seq<char>>::empty());
        assert(names.last() == value_name(nv, n, slug));
        assert(table_add_all(t0, selector_name@, names.drop_last()) == t0);
        assert(table_add_all(t0, selector_name@, names) == table_add(t0, selector_name@, value_name(nv, n, slug)));
        assert(capture_table(selector_capture_names@) == table_add(t0, selector_name@, value_name(nv, n, slug)));
        assert(nv.last() == v);
        assert(selector_table(nv, slug) == table_add(selector_table(values, slug), v.selector, value_name(nv, n, slug)));
        assert(capture_table(selector_capture_names@) == selector_table(nv, slug));
        assert(patterns_exact(pattern_specs@, nv, slug));
    }
}

/// Compiles the text of a Sigma rule into a plan. `rule_stem` names the rule
/// when it has no `title:` and identifies it when it has no `id:`;
/// `rule_source` names the rule in messages. The rule needs a `detection:`
/// block that yields at least one value, and a condition that parses
/// (`1 of them` when none is given).
pub fn load_sigma_rule_plan(yaml_raw: &str, rule_stem: &str, rule_source: &str) -> (r: Result<SigmaRulePlan, String>)
    ensures
        ({
            let w = rule_walk(yaml_raw@, rule_stem@);
            &&& r is Ok <==> (w.in_detection && w.values.len() > 0 && parse_condition_text(w.condition) is Some)
            &&& r is Ok ==> {
                &&& r->Ok_0.rule_name@ == w.name
                &&& r->Ok_0.rule_slug@ == sanitized(w.id)
                &&& Some(r->Ok_0.condition@) == parse_condition_text(w.condition)
                &&& patterns_exact(r->Ok_0.pattern_specs@, w.values, sanitized(w.id))
                &&& capture_table(r->Ok_0.selector_capture_names@) == selector_table(w.values, sanitized(w.id))
            }
        }),
{
    let cs = chars_of(yaml_raw);
    let ghost whole = cs@;
    let ghost lines = split_on(whole, '\n');
    let ghost stem = rule_stem@;
    let mut rule_name = String::from_str(rule_stem);
    let mut rule_id = String::from_str(rule_stem);
    let mut in_detection = false;
    let mut current_selector: Option<String> = None;
    let mut current_field: Option<String> = None;
    let mut condition_raw = String::from_str("1 of them");
    let mut done = false;
    let mut capture_index: Vec<(String, usize)> = Vec::new();
    let mut selector_capture_names: Vec<(String, Vec<String>)> = Vec::new();
    let mut pattern_specs: Vec<SigmaPatternSpec> = Vec::new();
    let mut start: usize = 0;
    let mut finished = false;
    let ghost mut seen: Seq<Seq<char>> = Seq::empty();
    let ghost mut w = walk_lines(lines, 0, stem);
    assert(cs@.skip(0) =~= cs@);
    assert(tables_follow(pattern_specs@, capture_index@, selector_capture_names@, w.values, sanitized(w.id))) by {
        assert(capture_table(selector_capture_names@) =~= Seq::<(Seq<char>, Seq<Seq<char>>)>::empty());
    }
    while !finished
        invariant
            start <= cs@.len(),
            whole == cs@,
            lines == split_on(whole, '\n'),
            !finished ==> seen + split_on(cs@.skip(start as int), '\n') == lines,
            finished ==> seen == lines,
            w == walk_lines(lines, seen.len() as int, stem),
            seen.len() <= lines.len(),
            forall|k: int| 0 <= k < seen.len() ==> seen[k] == lines[k],
            w.name == rule_name@,
            w.id == rule_id@,
            w.in_detection == in_detection,
            w.done == done,
            w.condition == condition_raw@,
            w.selector is None <==> current_selector is None,
            w.selector is Some ==> w.selector->Some_0 == current_selector->Some_0@,
            w.field is None <==> current_field is None,
            w.field is Some ==> w.field->Some_0 == current_field->Some_0@,
            tables_follow(pattern_specs@, capture_index@, selector_capture_names@, w.values, sanitized(w.id)),
            !w.in_detection ==> w.values.len() == 0 && pattern_specs@.len() == 0 && capture_index@.len() == 0 && selector_capture_names@.len() == 0,
        decreases cs@.len() - start, if finished { 0int } else { 1int },
    {
        let ghost rest = cs@.skip(start as int);
        assert(cs@.subrange(start as int, cs@.len() as int) =~= rest);
        let end = match find_char(&cs, start, cs.len(), '\n') {
            Some(e) => e,
            None => cs.len(),
        };
        let raw_line = string_of_chars(cs.as_slice(), start, end);
        proof {
            let pieces = split_on(rest, '\n');
            if end < cs@.len() {
                assert(cs@.subrange(start as int, end as int) =~= rest.subrange(0, end - start));
                assert(rest.skip(end - start + 1) =~= cs@.skip(end + 1));
                assert(pieces == seq![rest.subrange(0, end - start)] + split_on(rest.skip(end - start + 1), '\n'));
                assert(seen.push(raw_line@) + split_on(cs@.skip(end + 1), '\n') =~= seen + pieces);
            } else {
                assert(pieces == seq![rest]);
                assert(seen.push(raw_line@) =~= seen + pieces);
            }
            assert(lines[seen.len() as int] == raw_line@);
        }
        if end < cs.len() {
            start = end + 1;
        } else {
            finished = true;
        }
        let ghost line = raw_line@;
        let ghost next = walk_step(w, line);
        let lc = chars_of(raw_line.as_str());
        let (ta, tb) = trim_bounds(&lc, 0, lc.len());
        assert(lc@.subrange(0, lc@.len() as int) =~= line);
        let trimmed = string_of_chars(lc.as_slice(), ta, tb);
        let t = trimmed.as_str();
        let ghost tv = trim_ws(line);
        assert(t@ == tv);
        let indent = leading_space_count(&lc);
        proof {
            reveal_strlit("title:");
            reveal_strlit("id:");
            reveal_strlit("detection:");
            reveal_strlit("condition:");
            reveal_strlit("title");
            reveal_strlit("id");
            reveal_strlit("condition");
            reveal_strlit(":");
            assert("title"@ + ":"@ =~= "title:"@);
            assert("id"@ + ":"@ =~= "id:"@);
            assert("condition"@ + ":"@ =~= "condition:"@);
        }
        if done || ta == tb || lc[ta] == '#' {
        } else if !in_detection {
            if indent == 0 {
                if let Some(rest_text) = parse_mapping_line(t, "title") {
                    rule_name = strip_yaml_quotes(rest_text.as_str());
                } else if let Some(rest_text) = parse_mapping_line(t, "id") {
                    rule_id = strip_yaml_quotes(rest_text.as_str());
                } else if crate::text::str_eq(t, "detection:") {
                    in_detection = true;
                }
            }
        } else if indent == 0 {
            done = true;
        } else if let Some(rest_text) = parse_mapping_line(t, "condition") {
            condition_raw = strip_yaml_quotes(rest_text.as_str());
            current_selector = None;
            current_field = None;
        } else {
            let dash = starts_with_char(t, '-');
            let colon_end = ends_with_char(t, ':');
            if !dash && indent == 2 && colon_end {
                current_selector = Some(trim_trailing_then_ws(t, ':'));
                current_field = None;
            } else if !dash && indent == 2 && split_yaml_key_value(t).is_some() {
                let (selector, inline_value) = split_yaml_key_value(t).unwrap();
                current_field = None;
                if inline_value.as_str().unicode_len() > 0 {
                    let v = strip_yaml_quotes(inline_value.as_str());
                    add_value(selector.as_str(), None, v, &mut capture_index, &mut selector_capture_names,
                        &mut pattern_specs, rule_id.as_str(), Ghost(w.values));
                }
                current_selector = Some(selector);
            } else if !dash && colon_end {
                current_field = Some(trim_trailing_then_ws(t, ':'));
            } else if !dash && split_yaml_key_value(t).is_some() {
                let (field, inline_value) = split_yaml_key_value(t).unwrap();
                if inline_value.as_str().unicode_len() > 0 {
                    if let Some(selector_name) = &current_selector {
                        let v = strip_yaml_quotes(inline_value.as_str());
                        add_value(selector_name.as_str(), Some(field.as_str()), v, &mut capture_index,
                            &mut selector_capture_names, &mut pattern_specs, rule_id.as_str(), Ghost(w.values));
                    }
                }
                current_field = Some(field);
            } else if !dash {
            } else {
                let unlisted = trim_leading_then_ws(t, '-');
                let value_text = strip_yaml_quotes(unlisted.as_str());
                if value_text.as_str().unicode_len() > 0 {
                    if let Some(selector_name) = &current_selector {
                        add_value(selector_name.as_str(), opt_str(&current_field), value_text, &mut capture_index,
                            &mut selector_capture_names, &mut pattern_specs, rule_id.as_str(), Ghost(w.values));
                    }
                }
            }
        }
        proof {
            if !w.in_detection {
                assert(next.values == w.values);
                assert(next.values.len() == 0);
                assert(patterns_exact(pattern_specs@, next.values, sanitized(next.id)));
                assert(capture_table(selector_capture_names@) =~= Seq::<(Seq<char>, Seq<Seq<char>>)>::empty());
                assert(selector_table(next.values, sanitized(next.id)) =~= Seq::<(Seq<char>, Seq<Seq<char>>)>::empty());
                assert forall|x: Seq<char>| #[trigger] ordinal_of(capture_index@, x) == stem_count(next.values, x) by {}
                assert(tables_follow(pattern_specs@, capture_index@, selector_capture_names@, next.values, sanitized(next.id)));
            } else {
                assert(next.id == w.id);
                lemma_concat_shapes(w.values);
                assert(tables_follow(pattern_specs@, capture_index@, selector_capture_names@, next.values, sanitized(next.id)));
            }
        }
        proof {
            assert(walk_lines(lines, seen.len() as int + 1, stem) == walk_step(walk_lines(lines, seen.len() as int, stem), lines[seen.len() as int]));
            seen = seen.push(line);
            w = next;
        }
        assert(w.name == rule_name@);
    }
    proof {
        assert(seen.len() == lines.len());
    }
    if !in_detection {
        let mut message = String::from_str("Sigma rule ");
        message.append(rule_source);
        message.append(" is missing a detection block");
        return Err(message);
    }
    if pattern_specs.len() == 0 {
        let mut message = String::from_str("Sigma rule ");
        message.append(rule_source);
        message.append(" did not yield any keyword patterns");
        return Err(message);
    }
    let condition = match parse_sigma_condition(condition_raw.as_str()) {
        Ok(c) => c,
        Err(err) => {
            let mut message = String::from_str("unable to parse condition in Sigma rule ");
            message.append(rule_source);
            message.append(": ");
            message.append(err.as_str());
            return Err(message);
        },
    };
    Ok(SigmaRulePlan {
        rule_name,
        rule_slug: sanitize_capture_name(rule_id.as_str()),
        condition,
        selector_capture_names,
        pattern_specs,
    })
}

proof fn lemma_hex_digits_len(n: nat, k: nat)
    requires
        k >= 1,
        n < pow16(k),
    ensures
        hex_digits_len_ok(n, k),
    decreases k,
{
    reveal_with_fuel(crate::text::hex_digits, 2);
    if n >= 16 {
        assert(k >= 2) by {
            if k == 1 {
                assert(pow16(1) == 16) by {
                    reveal_with_fuel(pow16, 2);
                }
            }
        }
        assert(n / 16 < pow16((k - 1) as nat)) by {
            assert(pow16(k) == 16 * pow16((k - 1) as nat));
        }
        lemma_hex_digits_len(n / 16, (k - 1) as nat);
    }
}

spec fn pow16(k: nat) -> nat
    decreases k,
{
    if k == 0 {
        1
    } else {
        16 * pow16((k - 1) as nat)
    }
}

spec fn hex_digits_len_ok(n: nat, k: nat) -> bool {
    crate::text::hex_digits(n).len() <= k
}

/// Every capture name that a rule generates starts with `sigma_` and fits in
/// `PCRE2_CAPTURE_NAME_MAX` characters.
pub proof fn law_capture_names_fit(slug: Seq<char>, stem: Seq<char>, ordinal: nat)
    ensures
        capture_name_spec(slug, stem, ordinal).len() <= PCRE2_CAPTURE_NAME_MAX,
        crate::text::has_prefix(capture_name_spec(slug, stem, ordinal), "sigma_"@),
{
    reveal_strlit("sigma_");
    reveal_strlit("_");
    let key = slug + ":"@ + stem + ":"@ + decimal(ordinal);
    let h = xxh3_64_of(vstd::utf8::encode_utf8(key)) as nat;
    reveal_with_fuel(pow16, 17);
    assert(pow16(16) == 18446744073709551616);
    lemma_hex_digits_len(h, 16);
    let digits = hex_padded(h, 16);
    assert(digits.len() == 16);
    let short = "sigma_"@ + digits;
    assert(short.subrange(0, 6) =~= "sigma_"@);
    let long = "sigma_"@ + digits + "_"@ + decimal(ordinal);
    assert(long.subrange(0, 6) =~= "sigma_"@);
}

} // verus!
