//! Sigma `condition:` expressions: tokens, the recursive-descent grammar, and
//! evaluation against the selectors that fired.
//!
//! Grammar: `OR <- AND ('or' AND)*`, `AND <- UNARY ('and' UNARY)*`,
//! `UNARY <- 'not' UNARY | PRIMARY`, `PRIMARY <- '(' OR ')' | 'all' 'of' TARGET
//! | NUMBER 'of' TARGET | IDENT`, `TARGET <- 'them' | IDENT`.

use vstd::prelude::*;
use vstd::string::*;
use crate::text::{chars_of, string_of_chars};

verus! {

/// Whether `c` is white space in Unicode's sense (the `White_Space` property).
pub open spec fn is_white_space(c: char) -> bool {
    ('\t' <= c <= '\r') || c == ' ' || c == '\u{85}' || c == '\u{A0}' || c == '\u{1680}'
        || ('\u{2000}' <= c <= '\u{200A}') || c == '\u{2028}' || c == '\u{2029}' || c == '\u{202F}'
        || c == '\u{205F}' || c == '\u{3000}'
}

pub open spec fn is_ascii_digit(c: char) -> bool {
    '0' <= c <= '9'
}

pub open spec fn is_ascii_alphanumeric(c: char) -> bool {
    is_ascii_digit(c) || ('a' <= c <= 'z') || ('A' <= c <= 'Z')
}

/// Characters that may make up a selector name or glob.
pub open spec fn is_ident_char(c: char) -> bool {
    is_ascii_alphanumeric(c) || c == '_' || c == '*' || c == '-' || c == '.'
}

/// ASCII lowercase of one character.
pub open spec fn lower_char(c: char) -> char {
    if 'A' <= c <= 'Z' {
        ((c as u32) + 32) as char
    } else {
        c
    }
}

/// ASCII lowercase of a character sequence.
pub open spec fn lower_chars(s: Seq<char>) -> Seq<char> {
    s.map_values(|c: char| lower_char(c))
}

fn white_space(c: char) -> (r: bool)
    ensures
        r == is_white_space(c),
{
    ('\t' <= c && c <= '\r') || c == ' ' || c == '\u{85}' || c == '\u{A0}' || c == '\u{1680}'
        || ('\u{2000}' <= c && c <= '\u{200A}') || c == '\u{2028}' || c == '\u{2029}' || c == '\u{202F}'
        || c == '\u{205F}' || c == '\u{3000}'
}

fn ascii_digit(c: char) -> (r: bool)
    ensures
        r == is_ascii_digit(c),
{
    '0' <= c && c <= '9'
}

fn ident_char(c: char) -> (r: bool)
    ensures
        r == is_ident_char(c),
{
    ('0' <= c && c <= '9') || ('a' <= c && c <= 'z') || ('A' <= c && c <= 'Z') || c == '_' || c == '*' || c == '-' || c == '.'
}

/// ASCII lowercase of one character.
pub fn to_lower_char(c: char) -> (r: char)
    ensures
        r == lower_char(c),
{
    if 'A' <= c && c <= 'Z' {
        ((c as u8) + 32) as char
    } else {
        c
    }
}

/// A token of a condition.
#[derive(Clone, Debug, PartialEq, Eq)]
pub enum ConditionToken {
    LParen,
    RParen,
    And,
    Or,
    Not,
    All,
    Of,
    Them,
    Number(usize),
    Ident(String),
}

/// A token with its text as a character sequence.
pub enum TokenView {
    LParen,
    RParen,
    And,
    Or,
    Not,
    All,
    Of,
    Them,
    Number(nat),
    Ident(Seq<char>),
}

impl View for ConditionToken {
    type V = TokenView;

    open spec fn view(&self) -> TokenView {
        match self {
            ConditionToken::LParen => TokenView::LParen,
            ConditionToken::RParen => TokenView::RParen,
            ConditionToken::And => TokenView::And,
            ConditionToken::Or => TokenView::Or,
            ConditionToken::Not => TokenView::Not,
            ConditionToken::All => TokenView::All,
            ConditionToken::Of => TokenView::Of,
            ConditionToken::Them => TokenView::Them,
            ConditionToken::Number(n) => TokenView::Number(*n as nat),
            ConditionToken::Ident(s) => TokenView::Ident(s@),
        }
    }
}

/// The end of the run of characters from `i` on that satisfy digit (`digits`) or identifier rules.
pub open spec fn run_end(cs: Seq<char>, i: int, digits: bool) -> int
    decreases cs.len() - i,
{
    if 0 <= i < cs.len() && (if digits { is_ascii_digit(cs[i]) } else { is_ident_char(cs[i]) }) {
        run_end(cs, i + 1, digits)
    } else {
        i
    }
}

/// The value of a run of decimal digits.
pub open spec fn digits_value(ds: Seq<char>) -> nat
    decreases ds.len(),
{
    if ds.len() == 0 {
        0
    } else {
        digits_value(ds.drop_last()) * 10 + ((ds.last() as u32) - 48) as nat
    }
}

/// The token that a word stands for: a keyword, in any case, or a name.
pub open spec fn word_token(w: Seq<char>) -> TokenView {
    let l = lower_chars(w);
    if l == "and"@ {
        TokenView::And
    } else if l == "or"@ {
        TokenView::Or
    } else if l == "not"@ {
        TokenView::Not
    } else if l == "all"@ {
        TokenView::All
    } else if l == "of"@ {
        TokenView::Of
    } else if l == "them"@ {
        TokenView::Them
    } else {
        TokenView::Ident(w)
    }
}

/// The tokens of `cs[i..]`, or `None` when a character fits no token or a
/// number does not fit a `usize`.
pub open spec fn lex_from(cs: Seq<char>, i: int) -> Option<Seq<TokenView>>
    decreases cs.len() - i,
{
    if i < 0 || i >= cs.len() {
        Some(Seq::empty())
    } else if is_white_space(cs[i]) {
        lex_from(cs, i + 1)
    } else if cs[i] == '(' {
        match lex_from(cs, i + 1) {
            Some(rest) => Some(seq![TokenView::LParen] + rest),
            None => None,
        }
    } else if cs[i] == ')' {
        match lex_from(cs, i + 1) {
            Some(rest) => Some(seq![TokenView::RParen] + rest),
            None => None,
        }
    } else if is_ascii_digit(cs[i]) {
        let e = run_end(cs, i, true);
        if e <= i || e > cs.len() || digits_value(cs.subrange(i, e)) > usize::MAX {
            None
        } else {
            let v = digits_value(cs.subrange(i, e));
            match lex_from(cs, e) {
                Some(rest) => Some(seq![TokenView::Number(v)] + rest),
                None => None,
            }
        }
    } else if is_ident_char(cs[i]) {
        let e = run_end(cs, i, false);
        if e <= i || e > cs.len() {
            None
        } else {
            match lex_from(cs, e) {
                Some(rest) => Some(seq![word_token(cs.subrange(i, e))] + rest),
                None => None,
            }
        }
    } else {
        None
    }
}

proof fn lemma_run_end_bounds(cs: Seq<char>, i: int, digits: bool)
    requires
        0 <= i <= cs.len(),
    ensures
        i <= run_end(cs, i, digits) <= cs.len(),
        forall|k: int| i <= k < run_end(cs, i, digits) ==> (if digits { is_ascii_digit(cs[k]) } else { is_ident_char(cs[k]) }),
    decreases cs.len() - i,
{
    if i < cs.len() && (if digits { is_ascii_digit(cs[i]) } else { is_ident_char(cs[i]) }) {
        lemma_run_end_bounds(cs, i + 1, digits);
    }
}

fn run_char(c: char, digits: bool) -> (r: bool)
    ensures
        r == (if digits { is_ascii_digit(c) } else { is_ident_char(c) }),
{
    if digits {
        ascii_digit(c)
    } else {
        ident_char(c)
    }
}

/// Scans the run that starts at `i`.
fn scan_run(cs: &Vec<char>, i: usize, digits: bool) -> (r: usize)
    requires
        i <= cs@.len(),
    ensures
        r as int == run_end(cs@, i as int, digits),
        i <= r <= cs@.len(),
        i < cs@.len() && (if digits { is_ascii_digit(cs@[i as int]) } else { is_ident_char(cs@[i as int]) }) ==> r > i,
{
    let mut j = i;
    while j < cs.len() && run_char(cs[j], digits)
        invariant
            i <= j <= cs@.len(),
            run_end(cs@, j as int, digits) == run_end(cs@, i as int, digits),
        decreases cs.len() - j,
    {
        j = j + 1;
    }
    j
}

/// The token for the word `cs[from..to]`.
fn word_to_token(cs: &Vec<char>, from: usize, to: usize) -> (r: ConditionToken)
    requires
        from <= to <= cs@.len(),
    ensures
        r@ == word_token(cs@.subrange(from as int, to as int)),
{
    let mut lowered: Vec<char> = Vec::new();
    let mut k = from;
    while k < to
        invariant
            from <= k <= to <= cs@.len(),
            lowered@ == lower_chars(cs@.subrange(from as int, k as int)),
        decreases to - k,
    {
        lowered.push(to_lower_char(cs[k]));
        k = k + 1;
        assert(lowered@ =~= lower_chars(cs@.subrange(from as int, k as int)));
    }
    let l = lowered.as_slice();
    proof {
        reveal_strlit("and");
        reveal_strlit("or");
        reveal_strlit("not");
        reveal_strlit("all");
        reveal_strlit("of");
        reveal_strlit("them");
    }
    let and_kw = ['a', 'n', 'd'];
    let or_kw = ['o', 'r'];
    let not_kw = ['n', 'o', 't'];
    let all_kw = ['a', 'l', 'l'];
    let of_kw = ['o', 'f'];
    let them_kw = ['t', 'h', 'e', 'm'];
    assert(and_kw@ =~= "and"@);
    assert(or_kw@ =~= "or"@);
    assert(not_kw@ =~= "not"@);
    assert(all_kw@ =~= "all"@);
    assert(of_kw@ =~= "of"@);
    assert(them_kw@ =~= "them"@);
    if crate::text::chars_eq(l, and_kw.as_slice()) {
        ConditionToken::And
    } else if crate::text::chars_eq(l, or_kw.as_slice()) {
        ConditionToken::Or
    } else if crate::text::chars_eq(l, not_kw.as_slice()) {
        ConditionToken::Not
    } else if crate::text::chars_eq(l, all_kw.as_slice()) {
        ConditionToken::All
    } else if crate::text::chars_eq(l, of_kw.as_slice()) {
        ConditionToken::Of
    } else if crate::text::chars_eq(l, them_kw.as_slice()) {
        ConditionToken::Them
    } else {
        ConditionToken::Ident(string_of_chars(cs.as_slice(), from, to))
    }
}

/// Splits a condition into tokens.
pub fn tokenize_condition(expression: &str) -> (r: Result<Vec<ConditionToken>, String>)
    ensures
        r is Ok <==> lex_from(expression@, 0) is Some,
        r is Ok ==> r->Ok_0@.map_values(|t: ConditionToken| t@) == lex_from(expression@, 0)->Some_0,
{
    let cs = chars_of(expression);
    let ghost whole = cs@;
    let mut out: Vec<ConditionToken> = Vec::new();
    let mut idx: usize = 0;
    proof {
        assert(out@.map_values(|t: ConditionToken| t@) =~= Seq::<TokenView>::empty());
    }
    while idx < cs.len()
        invariant
            whole == cs@,
            whole == expression@,
            idx <= cs@.len(),
            lex_from(whole, 0) is Some <==> lex_from(whole, idx as int) is Some,
            lex_from(whole, idx as int) is Some ==> lex_from(whole, 0)->Some_0 == out@.map_values(|t: ConditionToken| t@) + lex_from(whole, idx as int)->Some_0,
        decreases cs.len() - idx,
    {
        let ch = cs[idx];
        let ghost before = out@.map_values(|t: ConditionToken| t@);
        if white_space(ch) {
            idx = idx + 1;
        } else if ch == '(' || ch == ')' {
            out.push(if ch == '(' { ConditionToken::LParen } else { ConditionToken::RParen });
            proof {
                assert(out@.map_values(|t: ConditionToken| t@) =~= before.push(out@.last()@));
                if lex_from(whole, idx + 1) is Some {
                    assert(lex_from(whole, idx as int)->Some_0 =~= seq![out@.last()@] + lex_from(whole, idx + 1)->Some_0);
                    assert(before + lex_from(whole, idx as int)->Some_0 =~= out@.map_values(|t: ConditionToken| t@) + lex_from(whole, idx + 1)->Some_0);
                }
            }
            idx = idx + 1;
        } else if ascii_digit(ch) {
            let end = scan_run(&cs, idx, true);
            let mut value: usize = 0;
            let mut k = idx;
            let mut overflow = false;
            proof {
                lemma_run_end_bounds(whole, idx as int, true);
                assert(whole.subrange(idx as int, idx as int) =~= Seq::<char>::empty());
            }
            while k < end
                invariant
                    idx <= k <= end <= cs@.len(),
                    whole == cs@,
                    forall|j: int| idx <= j < end ==> is_ascii_digit(#[trigger] whole[j]),
                    !overflow ==> value as nat == digits_value(whole.subrange(idx as int, k as int)),
                    overflow ==> digits_value(whole.subrange(idx as int, k as int)) > usize::MAX,
                decreases end - k,
            {
                let d = (cs[k] as u32 - 48) as usize;
                proof {
                    assert(whole.subrange(idx as int, k + 1).drop_last() =~= whole.subrange(idx as int, k as int));
                }
                if !overflow {
                    if value > (usize::MAX - d) / 10 {
                        overflow = true;
                        assert(value * 10 + d > usize::MAX) by (nonlinear_arith)
                            requires
                                value > (usize::MAX - d) / 10,
                                d <= 9,
                        ;
                    } else {
                        assert(value * 10 + d <= usize::MAX) by (nonlinear_arith)
                            requires
                                value <= (usize::MAX - d) / 10,
                                d <= 9,
                        ;
                        value = value * 10 + d;
                    }
                } else {
                    let ghost prev = digits_value(whole.subrange(idx as int, k as int));
                    assert(prev * 10 + d as nat > usize::MAX) by (nonlinear_arith)
                        requires
                            prev > usize::MAX,
                    ;
                }
                k = k + 1;
            }
            if overflow {
                proof {
                    assert(lex_from(whole, idx as int) is None);
                }
                let mut message = String::from_str("invalid numeric token '");
                let digits = string_of_chars(cs.as_slice(), idx, end);
                message.append(digits.as_str());
                message.append("': number too large to fit in target type");
                return Err(message);
            }
            out.push(ConditionToken::Number(value));
            proof {
                assert(out@.map_values(|t: ConditionToken| t@) =~= before.push(out@.last()@));
                if lex_from(whole, end as int) is Some {
                    assert(lex_from(whole, idx as int)->Some_0 =~= seq![out@.last()@] + lex_from(whole, end as int)->Some_0);
                    assert(before + lex_from(whole, idx as int)->Some_0 =~= out@.map_values(|t: ConditionToken| t@) + lex_from(whole, end as int)->Some_0);
                }
            }
            idx = end;
        } else if ident_char(ch) {
            let end = scan_run(&cs, idx, false);
            proof {
                lemma_run_end_bounds(whole, idx as int, false);
            }
            let token = word_to_token(&cs, idx, end);
            out.push(token);
            proof {
                assert(out@.map_values(|t: ConditionToken| t@) =~= before.push(out@.last()@));
                if lex_from(whole, end as int) is Some {
                    assert(lex_from(whole, idx as int)->Some_0 =~= seq![out@.last()@] + lex_from(whole, end as int)->Some_0);
                    assert(before + lex_from(whole, idx as int)->Some_0 =~= out@.map_values(|t: ConditionToken| t@) + lex_from(whole, end as int)->Some_0);
                }
            }
            idx = end;
        } else {
            proof {
                assert(lex_from(whole, idx as int) is None);
            }
            let mut message = String::from_str("unsupported token '");
            crate::text::push_char(&mut message, ch);
            message.append("' in condition");
            return Err(message);
        }
    }
    proof {
        assert(out@.map_values(|t: ConditionToken| t@) + Seq::<TokenView>::empty() =~= out@.map_values(|t: ConditionToken| t@));
    }
    Ok(out)
}

/// How many selectors a `... of` clause asks for.
#[derive(Clone, Copy, Debug, PartialEq, Eq, Structural)]
pub enum SigmaCountQuantifier {
    All,
    AtLeast(usize),
}

/// A parsed condition.
#[derive(Debug)]
pub enum SigmaConditionExpr {
    Selector(String),
    CountOf { quantifier: SigmaCountQuantifier, target: String },
    Not(Box<SigmaConditionExpr>),
    And(Box<SigmaConditionExpr>, Box<SigmaConditionExpr>),
    Or(Box<SigmaConditionExpr>, Box<SigmaConditionExpr>),
}

/// A condition with its names as character sequences.
pub enum ExprView {
    Selector(Seq<char>),
    CountOf(SigmaCountQuantifier, Seq<char>),
    Not(Box<ExprView>),
    And(Box<ExprView>, Box<ExprView>),
    Or(Box<ExprView>, Box<ExprView>),
}

impl View for SigmaConditionExpr {
    type V = ExprView;

    open spec fn view(&self) -> ExprView
        decreases self,
    {
        match self {
            SigmaConditionExpr::Selector(s) => ExprView::Selector(s@),
            SigmaConditionExpr::CountOf { quantifier, target } => ExprView::CountOf(*quantifier, target@),
            SigmaConditionExpr::Not(a) => ExprView::Not(Box::new((**a).view())),
            SigmaConditionExpr::And(a, b) => ExprView::And(Box::new((**a).view()), Box::new((**b).view())),
            SigmaConditionExpr::Or(a, b) => ExprView::Or(Box::new((**a).view()), Box::new((**b).view())),
        }
    }
}

/// `... of TARGET` at `p`: the target is `them` or a name.
pub open spec fn count_of_s(t: Seq<TokenView>, p: int, q: SigmaCountQuantifier) -> Option<(ExprView, int)> {
    if 0 <= p && p + 1 < t.len() && t[p] is Of {
        match t[p + 1] {
            TokenView::Them => Some((ExprView::CountOf(q, "them"@), p + 2)),
            TokenView::Ident(name) => Some((ExprView::CountOf(q, name), p + 2)),
            _ => None,
        }
    } else {
        None
    }
}

/// `PRIMARY` at `p`: the expression and the position after it.
pub open spec fn primary_s(t: Seq<TokenView>, p: int) -> Option<(ExprView, int)>
    decreases t.len() - p, 0nat,
{
    if p < 0 || p >= t.len() {
        None
    } else {
        match t[p] {
            TokenView::LParen => match or_s(t, p + 1) {
                Some((e, q)) => if q > p && q < t.len() && t[q] is RParen {
                    Some((e, q + 1))
                } else {
                    None
                },
                None => None,
            },
            TokenView::All => count_of_s(t, p + 1, SigmaCountQuantifier::All),
            TokenView::Number(n) => if n <= usize::MAX {
                count_of_s(t, p + 1, SigmaCountQuantifier::AtLeast(n as usize))
            } else {
                None
            },
            TokenView::Ident(name) => Some((ExprView::Selector(name), p + 1)),
            _ => None,
        }
    }
}

/// `UNARY` at `p`.
pub open spec fn unary_s(t: Seq<TokenView>, p: int) -> Option<(ExprView, int)>
    decreases t.len() - p, 1nat,
{
    if p < 0 || p >= t.len() {
        None
    } else if t[p] is Not {
        match unary_s(t, p + 1) {
            Some((e, q)) => Some((ExprView::Not(Box::new(e)), q)),
            None => None,
        }
    } else {
        primary_s(t, p)
    }
}

/// The `('and' UNARY)*` tail after `left`, which ends at `p`.
pub open spec fn and_rest_s(t: Seq<TokenView>, left: ExprView, p: int) -> Option<(ExprView, int)>
    decreases t.len() - p, 2nat,
{
    if 0 <= p < t.len() && t[p] is And {
        match unary_s(t, p + 1) {
            Some((r, q)) => if q > p && q <= t.len() {
                and_rest_s(t, ExprView::And(Box::new(left), Box::new(r)), q)
            } else {
                None
            },
            None => None,
        }
    } else {
        Some((left, p))
    }
}

/// `AND` at `p`.
pub open spec fn and_s(t: Seq<TokenView>, p: int) -> Option<(ExprView, int)>
    decreases t.len() - p, 3nat,
{
    if p < 0 || p > t.len() {
        None
    } else {
        match unary_s(t, p) {
            Some((e, q)) => if q >= p && q <= t.len() {
                and_rest_s(t, e, q)
            } else {
                None
            },
            None => None,
        }
    }
}

/// The `('or' AND)*` tail after `left`, which ends at `p`.
pub open spec fn or_rest_s(t: Seq<TokenView>, left: ExprView, p: int) -> Option<(ExprView, int)>
    decreases t.len() - p, 4nat,
{
    if 0 <= p < t.len() && t[p] is Or {
        match and_s(t, p + 1) {
            Some((r, q)) => if q > p && q <= t.len() {
                or_rest_s(t, ExprView::Or(Box::new(left), Box::new(r)), q)
            } else {
                None
            },
            None => None,
        }
    } else {
        Some((left, p))
    }
}

/// `OR` at `p`.
pub open spec fn or_s(t: Seq<TokenView>, p: int) -> Option<(ExprView, int)>
    decreases t.len() - p, 5nat,
{
    if p < 0 || p > t.len() {
        None
    } else {
        match and_s(t, p) {
            Some((e, q)) => if q >= p && q <= t.len() {
                or_rest_s(t, e, q)
            } else {
                None
            },
            None => None,
        }
    }
}

/// The condition that a whole token sequence stands for, or `None` when it
/// does not parse or tokens are left over.
pub open spec fn parse_tokens(t: Seq<TokenView>) -> Option<ExprView> {
    match or_s(t, 0) {
        Some((e, q)) => if q == t.len() {
            Some(e)
        } else {
            None
        },
        None => None,
    }
}

/// The condition that a text stands for.
pub open spec fn parse_condition_text(text: Seq<char>) -> Option<ExprView> {
    match lex_from(text, 0) {
        Some(t) => parse_tokens(t),
        None => None,
    }
}

pub open spec fn token_views(tokens: Seq<ConditionToken>) -> Seq<TokenView> {
    tokens.map_values(|t: ConditionToken| t@)
}

struct ConditionParser {
    tokens: Vec<ConditionToken>,
    index: usize,
}

impl ConditionParser {
    spec fn tv(&self) -> Seq<TokenView> {
        token_views(self.tokens@)
    }

    fn current(&self) -> (r: Option<&ConditionToken>)
        ensures
            self.index < self.tokens@.len() ==> r == Some(&self.tokens@[self.index as int]),
            self.index >= self.tokens@.len() ==> r is None,
    {
        if self.index < self.tokens.len() {
            Some(&self.tokens[self.index])
        } else {
            None
        }
    }

    fn advance(&mut self)
        requires
            old(self).index < old(self).tokens.len(),
        ensures
            final(self).index == old(self).index + 1,
            final(self).tokens == old(self).tokens,
    {
        self.index = self.index + 1;
    }

    fn parse_count_of(&mut self, quantifier: SigmaCountQuantifier) -> (r: Result<SigmaConditionExpr, String>)
        requires
            old(self).index <= old(self).tokens@.len(),
        ensures
            final(self).tokens == old(self).tokens,
            r is Ok <==> count_of_s(old(self).tv(), old(self).index as int, quantifier) is Some,
            r is Ok ==> count_of_s(old(self).tv(), old(self).index as int, quantifier) == Some((r->Ok_0@, final(self).index as int)),
    {
        proof {
            reveal_strlit("them");
        }
        if !matches!(self.current(), Some(ConditionToken::Of)) {
            return Err(String::from_str("expected 'of'"));
        }
        self.advance();
        let target = match self.current() {
            Some(ConditionToken::Them) => String::from_str("them"),
            Some(ConditionToken::Ident(value)) => value.clone(),
            _ => {
                return Err(String::from_str("expected selector name or 'them' after 'of'"));
            },
        };
        self.advance();
        Ok(SigmaConditionExpr::CountOf { quantifier, target })
    }

    fn parse_primary(&mut self) -> (r: Result<SigmaConditionExpr, String>)
        requires
            old(self).index <= old(self).tokens@.len(),
        ensures
            final(self).tokens == old(self).tokens,
            r is Ok <==> primary_s(old(self).tv(), old(self).index as int) is Some,
            r is Ok ==> primary_s(old(self).tv(), old(self).index as int) == Some((r->Ok_0@, final(self).index as int)),
            r is Ok ==> old(self).index < final(self).index <= final(self).tokens@.len(),
        decreases old(self).tokens@.len() - old(self).index, 0nat,
    {
        let ghost t = self.tv();
        let ghost p = self.index as int;
        match self.current() {
            Some(ConditionToken::LParen) => {
                self.advance();
                let expr = self.parse_or()?;
                if !matches!(self.current(), Some(ConditionToken::RParen)) {
                    return Err(String::from_str("expected ')'"));
                }
                self.advance();
                Ok(expr)
            },
            Some(ConditionToken::All) => {
                self.advance();
                self.parse_count_of(SigmaCountQuantifier::All)
            },
            Some(ConditionToken::Number(value)) => {
                let value = *value;
                self.advance();
                self.parse_count_of(SigmaCountQuantifier::AtLeast(value))
            },
            Some(ConditionToken::Ident(selector)) => {
                let selector = selector.clone();
                self.advance();
                Ok(SigmaConditionExpr::Selector(selector))
            },
            _ => Err(String::from_str("unexpected token in condition")),
        }
    }

    fn parse_unary(&mut self) -> (r: Result<SigmaConditionExpr, String>)
        requires
            old(self).index <= old(self).tokens@.len(),
        ensures
            final(self).tokens == old(self).tokens,
            r is Ok <==> unary_s(old(self).tv(), old(self).index as int) is Some,
            r is Ok ==> unary_s(old(self).tv(), old(self).index as int) == Some((r->Ok_0@, final(self).index as int)),
            r is Ok ==> old(self).index < final(self).index <= final(self).tokens@.len(),
        decreases old(self).tokens@.len() - old(self).index, 1nat,
    {
        if matches!(self.current(), Some(ConditionToken::Not)) {
            self.advance();
            let inner = self.parse_unary()?;
            return Ok(SigmaConditionExpr::Not(Box::new(inner)));
        }
        self.parse_primary()
    }

    fn parse_and(&mut self) -> (r: Result<SigmaConditionExpr, String>)
        requires
            old(self).index <= old(self).tokens@.len(),
        ensures
            final(self).tokens == old(self).tokens,
            r is Ok <==> and_s(old(self).tv(), old(self).index as int) is Some,
            r is Ok ==> and_s(old(self).tv(), old(self).index as int) == Some((r->Ok_0@, final(self).index as int)),
            r is Ok ==> old(self).index < final(self).index <= final(self).tokens@.len(),
        decreases old(self).tokens@.len() - old(self).index, 3nat,
    {
        let ghost t = self.tv();
        let ghost p = self.index as int;
        let mut node = self.parse_unary()?;
        while matches!(self.current(), Some(ConditionToken::And))
            invariant
                self.tokens == old(self).tokens,
                t == self.tv(),
                p == old(self).index as int,
                p < self.index <= self.tokens@.len(),
                and_s(t, p) == and_rest_s(t, node@, self.index as int),
            decreases self.tokens@.len() - self.index,
        {
            let ghost q = self.index as int;
            self.advance();
            match self.parse_unary() {
                Ok(right) => {
                    node = SigmaConditionExpr::And(Box::new(node), Box::new(right));
                },
                Err(e) => {
                    assert(and_rest_s(t, node@, q) is None);
                    return Err(e);
                },
            }
        }
        Ok(node)
    }

    fn parse_or(&mut self) -> (r: Result<SigmaConditionExpr, String>)
        requires
            old(self).index <= old(self).tokens@.len(),
        ensures
            final(self).tokens == old(self).tokens,
            r is Ok <==> or_s(old(self).tv(), old(self).index as int) is Some,
            r is Ok ==> or_s(old(self).tv(), old(self).index as int) == Some((r->Ok_0@, final(self).index as int)),
            r is Ok ==> old(self).index < final(self).index <= final(self).tokens@.len(),
        decreases old(self).tokens@.len() - old(self).index, 5nat,
    {
        let ghost t = self.tv();
        let ghost p = self.index as int;
        let mut node = self.parse_and()?;
        while matches!(self.current(), Some(ConditionToken::Or))
            invariant
                self.tokens == old(self).tokens,
                t == self.tv(),
                p == old(self).index as int,
                p < self.index <= self.tokens@.len(),
                or_s(t, p) == or_rest_s(t, node@, self.index as int),
            decreases self.tokens@.len() - self.index,
        {
            let ghost q = self.index as int;
            self.advance();
            match self.parse_and() {
                Ok(right) => {
                    node = SigmaConditionExpr::Or(Box::new(node), Box::new(right));
                },
                Err(e) => {
                    assert(or_rest_s(t, node@, q) is None);
                    return Err(e);
                },
            }
        }
        Ok(node)
    }

}

/// Parses a condition expression.
pub fn parse_sigma_condition(expression: &str) -> (r: Result<SigmaConditionExpr, String>)
    ensures
        r is Ok <==> parse_condition_text(expression@) is Some,
        r is Ok ==> parse_condition_text(expression@) == Some(r->Ok_0@),
{
    let tokens = tokenize_condition(expression)?;
    let mut parser = ConditionParser { tokens, index: 0 };
    let expr = parser.parse_or()?;
    if parser.index < parser.tokens.len() {
        return Err(String::from_str("unexpected trailing tokens"));
    }
    Ok(expr)
}

/// Whether a glob (`*` matches any run of characters) matches a name.
pub open spec fn glob(p: Seq<char>, c: Seq<char>) -> bool
    decreases p.len(), c.len(),
{
    if p.len() == 0 {
        c.len() == 0
    } else if p[0] == '*' {
        glob(p.drop_first(), c) || (c.len() > 0 && glob(p, c.drop_first()))
    } else {
        c.len() > 0 && c[0] == p[0] && glob(p.drop_first(), c.drop_first())
    }
}

fn glob_from(p: &Vec<char>, i: usize, c: &Vec<char>, j: usize) -> (r: bool)
    requires
        i <= p@.len(),
        j <= c@.len(),
    ensures
        r == glob(p@.skip(i as int), c@.skip(j as int)),
    decreases p@.len() - i, c@.len() - j,
{
    let ghost ps = p@.skip(i as int);
    let ghost cs = c@.skip(j as int);
    if i == p.len() {
        return j == c.len();
    }
    proof {
        assert(ps.drop_first() =~= p@.skip(i + 1));
        if j < c@.len() {
            assert(cs.drop_first() =~= c@.skip(j + 1));
        }
    }
    if p[i] == '*' {
        if glob_from(p, i + 1, c, j) {
            return true;
        }
        j < c.len() && glob_from(p, i, c, j + 1)
    } else {
        j < c.len() && c[j] == p[i] && glob_from(p, i + 1, c, j + 1)
    }
}

/// Whether a selector glob matches a selector name.
pub fn wildcard_match(pattern: &str, candidate: &str) -> (r: bool)
    ensures
        r == glob(pattern@, candidate@),
{
    let p = chars_of(pattern);
    let c = chars_of(candidate);
    proof {
        assert(p@.skip(0) =~= p@);
        assert(c@.skip(0) =~= c@);
    }
    glob_from(&p, 0, &c, 0)
}

/// Which selectors of a rule fired, as `(selector name, fired)` pairs with
/// distinct names.
#[derive(Debug)]
pub struct SelectorHits {
    entries: Vec<(String, bool)>,
}

/// The entries of a selector table.
pub open spec fn entries_view(es: Seq<(String, bool)>) -> Seq<(Seq<char>, bool)> {
    es.map_values(|e: (String, bool)| (e.0@, e.1))
}

/// Names are distinct.
pub open spec fn distinct_names(es: Seq<(Seq<char>, bool)>) -> bool {
    forall|i: int, j: int| 0 <= i < j < es.len() ==> es[i].0 != es[j].0
}

impl View for SelectorHits {
    type V = Seq<(Seq<char>, bool)>;

    closed spec fn view(&self) -> Seq<(Seq<char>, bool)> {
        entries_view(self.entries@)
    }
}

/// Whether the selector `name` fired; an unknown selector did not.
pub open spec fn selector_hit(es: Seq<(Seq<char>, bool)>, name: Seq<char>) -> bool
    decreases es.len(),
{
    if es.len() == 0 {
        false
    } else if es.last().0 == name {
        es.last().1
    } else {
        selector_hit(es.drop_last(), name)
    }
}

/// The table after setting whether `name` fired: an existing entry of that
/// name is replaced in place, a new name is appended.
pub open spec fn table_insert(es: Seq<(Seq<char>, bool)>, name: Seq<char>, hit: bool) -> Seq<(Seq<char>, bool)> {
    if has_name(es, name) {
        es.update(choose|i: int| 0 <= i < es.len() && es[i].0 == name, (name, hit))
    } else {
        es.push((name, hit))
    }
}

/// Whether `name` is in the table.
pub open spec fn has_name(es: Seq<(Seq<char>, bool)>, name: Seq<char>) -> bool {
    exists|i: int| 0 <= i < es.len() && es[i].0 == name
}

impl SelectorHits {
    pub closed spec fn wf(&self) -> bool {
        distinct_names(self@)
    }

    pub fn new() -> (r: Self)
        ensures
            r@ == Seq::<(Seq<char>, bool)>::empty(),
            r.wf(),
    {
        let r = SelectorHits { entries: Vec::new() };
        assert(r@ =~= Seq::<(Seq<char>, bool)>::empty());
        r
    }

    /// Sets whether `name` fired, replacing an earlier entry for it.
    pub fn insert(&mut self, name: String, hit: bool)
        requires
            old(self).wf(),
        ensures
            final(self).wf(),
            final(self)@ == table_insert(old(self)@, name@, hit),
            selector_hit(final(self)@, name@) == hit,
            forall|n: Seq<char>| n != name@ ==> selector_hit(final(self)@, n) == selector_hit(old(self)@, n),
            forall|n: Seq<char>| has_name(final(self)@, n) <==> (has_name(old(self)@, n) || n == name@),
    {
        let ghost before = self@;
        let mut i: usize = 0;
        while i < self.entries.len()
            invariant
                self@ == before,
                before == old(self)@,
                distinct_names(before),
                i <= self.entries@.len(),
                forall|k: int| 0 <= k < i ==> before[k].0 != name@,
            decreases self.entries.len() - i,
        {
            if crate::text::str_eq(self.entries[i].0.as_str(), name.as_str()) {
                let key = self.entries[i].0.clone();
                self.entries.set(i, (key, hit));
                proof {
                    assert(self@ =~= before.update(i as int, (name@, hit)));
                    assert forall|a: int, b: int| 0 <= a < b < self@.len() implies self@[a].0 != self@[b].0 by {
                        assert(self@[a].0 == before[a].0);
                        assert(self@[b].0 == before[b].0);
                    }
                    lemma_selector_hit_update(before, i as int, name@, hit);
                    lemma_has_name_update(before, i as int, name@, hit);
                    assert(before[i as int].0 == name@);
                    assert(has_name(before, name@));
                    let j = choose|j: int| 0 <= j < before.len() && before[j].0 == name@;
                    assert(j == i);
                }
                return;
            }
            i = i + 1;
        }
        let ghost key = name@;
        assert(!has_name(before, key));
        self.entries.push((name, hit));
        proof {
            assert(self@ =~= before.push((key, hit)));
            assert(self@.drop_last() =~= before);
            assert forall|n: Seq<char>| has_name(self@, n) <==> (has_name(before, n) || n == key) by {
                if has_name(before, n) {
                    let k = choose|k: int| 0 <= k < before.len() && before[k].0 == n;
                    assert(self@[k].0 == n);
                }
                if has_name(self@, n) {
                    let k = choose|k: int| 0 <= k < self@.len() && self@[k].0 == n;
                    if k < before.len() {
                        assert(before[k].0 == n);
                    }
                }
                if n == key {
                    assert(self@[before.len() as int].0 == n);
                }
            }
        }
    }

    /// Whether the selector `name` fired.
    pub fn get(&self, name: &str) -> (r: bool)
        ensures
            r == selector_hit(self@, name@),
    {
        let mut i = self.entries.len();
        assert(self@.take(i as int) =~= self@);
        while i > 0
            invariant
                i <= self.entries@.len(),
                selector_hit(self@.take(i as int), name@) == selector_hit(self@, name@),
            decreases i,
        {
            proof {
                assert(self@.take(i as int).drop_last() =~= self@.take(i - 1));
            }
            if crate::text::str_eq(self.entries[i - 1].0.as_str(), name) {
                return self.entries[i - 1].1;
            }
            i = i - 1;
        }
        false
    }
}

proof fn lemma_has_name_update(es: Seq<(Seq<char>, bool)>, i: int, name: Seq<char>, hit: bool)
    requires
        0 <= i < es.len(),
        es[i].0 == name,
    ensures
        forall|n: Seq<char>| has_name(es.update(i, (name, hit)), n) <==> (has_name(es, n) || n == name),
{
    let u = es.update(i, (name, hit));
    assert forall|n: Seq<char>| has_name(u, n) <==> (has_name(es, n) || n == name) by {
        if has_name(es, n) {
            let k = choose|k: int| 0 <= k < es.len() && es[k].0 == n;
            assert(u[k].0 == n);
        }
        if has_name(u, n) {
            let k = choose|k: int| 0 <= k < u.len() && u[k].0 == n;
            assert(es[k].0 == n);
        }
        if n == name {
            assert(u[i].0 == n);
        }
    }
}

proof fn lemma_selector_hit_update(es: Seq<(Seq<char>, bool)>, i: int, name: Seq<char>, hit: bool)
    requires
        0 <= i < es.len(),
        es[i].0 == name,
        distinct_names(es),
    ensures
        selector_hit(es.update(i, (name, hit)), name) == hit,
        forall|n: Seq<char>| n != name ==> selector_hit(es.update(i, (name, hit)), n) == selector_hit(es, n),
    decreases es.len(),
{
    let u = es.update(i, (name, hit));
    if i == es.len() - 1 {
        assert(u.drop_last() =~= es.drop_last());
        assert forall|n: Seq<char>| n != name implies selector_hit(u, n) == selector_hit(es, n) by {
            assert(u.last().0 == name);
        }
    } else {
        assert(u.drop_last() =~= es.drop_last().update(i, (name, hit)));
        assert(es.last().0 != name);
        assert(u.last() == es.last());
        lemma_selector_hit_update(es.drop_last(), i, name, hit);
        assert forall|n: Seq<char>| n != name implies selector_hit(u, n) == selector_hit(es, n) by {
            if es.last().0 != n {
                assert(selector_hit(u, n) == selector_hit(u.drop_last(), n));
                assert(selector_hit(u.drop_last(), n) == selector_hit(es.drop_last().update(i, (name, hit)), n));
                assert(selector_hit(es, n) == selector_hit(es.drop_last(), n));
            }
        }
    }
}

/// Whether a `... of` target names this selector: `them` (in any case) names
/// every selector, any other target is a glob.
pub open spec fn targets(target: Seq<char>, name: Seq<char>) -> bool {
    lower_chars(target) == "them"@ || glob(target, name)
}

/// The selector names that a target picks, in table order.
pub open spec fn matching_names(es: Seq<(Seq<char>, bool)>, target: Seq<char>) -> Seq<Seq<char>>
    decreases es.len(),
{
    if es.len() == 0 {
        Seq::empty()
    } else if targets(target, es.last().0) {
        matching_names(es.drop_last(), target).push(es.last().0)
    } else {
        matching_names(es.drop_last(), target)
    }
}

/// How many of `names` fired.
pub open spec fn count_fired(es: Seq<(Seq<char>, bool)>, names: Seq<Seq<char>>) -> nat
    decreases names.len(),
{
    if names.len() == 0 {
        0
    } else {
        count_fired(es, names.drop_last()) + if selector_hit(es, names.last()) { 1nat } else { 0nat }
    }
}

/// What a condition evaluates to, given which selectors fired.
pub open spec fn eval_condition(e: ExprView, es: Seq<(Seq<char>, bool)>) -> bool
    decreases e,
{
    match e {
        ExprView::Selector(name) => selector_hit(es, name),
        ExprView::CountOf(q, target) => {
            let names = matching_names(es, target);
            if names.len() == 0 {
                false
            } else {
                match q {
                    SigmaCountQuantifier::All => count_fired(es, names) == names.len(),
                    SigmaCountQuantifier::AtLeast(n) => count_fired(es, names) >= n,
                }
            }
        },
        ExprView::Not(a) => !eval_condition(*a, es),
        ExprView::And(a, b) => eval_condition(*a, es) && eval_condition(*b, es),
        ExprView::Or(a, b) => eval_condition(*a, es) || eval_condition(*b, es),
    }
}

fn is_them(target: &str) -> (r: bool)
    ensures
        r == (lower_chars(target@) == "them"@),
{
    proof {
        reveal_strlit("them");
    }
    let t = chars_of(target);
    assert(lower_chars(target@).len() == target@.len());
    assert("them"@.len() == 4);
    if t.len() != 4 {
        return false;
    }
    let a = to_lower_char(t[0]);
    let b = to_lower_char(t[1]);
    let c = to_lower_char(t[2]);
    let d = to_lower_char(t[3]);
    let r = a == 't' && b == 'h' && c == 'e' && d == 'm';
    proof {
        if r {
            assert(lower_chars(target@) =~= "them"@);
        } else {
            assert(lower_chars(target@) != "them"@) by {
                if lower_chars(target@) == "them"@ {
                    assert(lower_chars(target@)[0] == 't');
                    assert(lower_chars(target@)[1] == 'h');
                    assert(lower_chars(target@)[2] == 'e');
                    assert(lower_chars(target@)[3] == 'm');
                }
            }
        }
    }
    r
}

/// The selectors that a `... of` target picks, in table order.
pub fn matching_selectors(selector_hits: &SelectorHits, target: &str) -> (r: Vec<String>)
    ensures
        r@.map_values(|s: String| s@) == matching_names(selector_hits@, target@),
{
    let them = is_them(target);
    let mut out: Vec<String> = Vec::new();
    let mut i: usize = 0;
    proof {
        assert(out@.map_values(|s: String| s@) =~= matching_names(selector_hits@.take(0), target@));
    }
    while i < selector_hits.entries.len()
        invariant
            i <= selector_hits@.len(),
            them == (lower_chars(target@) == "them"@),
            out@.map_values(|s: String| s@) == matching_names(selector_hits@.take(i as int), target@),
        decreases selector_hits.entries.len() - i,
    {
        proof {
            assert(selector_hits@.take(i + 1).drop_last() =~= selector_hits@.take(i as int));
        }
        let name = &selector_hits.entries[i].0;
        if them || wildcard_match(target, name.as_str()) {
            out.push(name.clone());
            proof {
                assert(out@.map_values(|s: String| s@) =~= matching_names(selector_hits@.take(i as int), target@).push(name@));
            }
        }
        i = i + 1;
    }
    proof {
        assert(selector_hits@.take(i as int) =~= selector_hits@);
    }
    out
}

impl SigmaConditionExpr {
    /// Whether the condition holds, given which selectors fired.
    pub fn evaluate(&self, selector_hits: &SelectorHits) -> (r: bool)
        ensures
            r == eval_condition(self@, selector_hits@),
        decreases self,
    {
        match self {
            SigmaConditionExpr::Selector(selector) => selector_hits.get(selector.as_str()),
            SigmaConditionExpr::CountOf { quantifier, target } => {
                let matched = matching_selectors(selector_hits, target.as_str());
                let ghost names = matched@.map_values(|s: String| s@);
                if matched.len() == 0 {
                    return false;
                }
                let mut hit_count: usize = 0;
                let mut i: usize = 0;
                proof {
                    assert(names.take(0) =~= Seq::<Seq<char>>::empty());
                }
                while i < matched.len()
                    invariant
                        i <= matched@.len(),
                        names == matched@.map_values(|s: String| s@),
                        hit_count == count_fired(selector_hits@, names.take(i as int)),
                        hit_count <= i,
                    decreases matched.len() - i,
                {
                    proof {
                        assert(names.take(i + 1).drop_last() =~= names.take(i as int));
                    }
                    if selector_hits.get(matched[i].as_str()) {
                        hit_count = hit_count + 1;
                    }
                    i = i + 1;
                }
                proof {
                    assert(names.take(i as int) =~= names);
                }
                match quantifier {
                    SigmaCountQuantifier::All => hit_count == matched.len(),
                    SigmaCountQuantifier::AtLeast(minimum) => hit_count >= *minimum,
                }
            },
            SigmaConditionExpr::Not(inner) => !inner.evaluate(selector_hits),
            SigmaConditionExpr::And(left, right) => left.evaluate(selector_hits) && right.evaluate(selector_hits),
            SigmaConditionExpr::Or(left, right) => left.evaluate(selector_hits) || right.evaluate(selector_hits),
        }
    }
}

/// A condition `A and not B` holds exactly when selector `A` fired and selector `B` did not.
pub proof fn law_and_not_condition(a: Seq<char>, b: Seq<char>, es: Seq<(Seq<char>, bool)>)
    ensures
        eval_condition(
            ExprView::And(Box::new(ExprView::Selector(a)), Box::new(ExprView::Not(Box::new(ExprView::Selector(b))))),
            es,
        ) == (selector_hit(es, a) && !selector_hit(es, b)),
{
    reveal_with_fuel(eval_condition, 3);
}

} // verus!
