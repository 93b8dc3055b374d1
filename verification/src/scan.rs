//! The grammar of a class rule and the scan that finds the rules of a text.

use vstd::prelude::*;
use crate::chars::{CharClass, in_class, class_has, is_name_char, is_decl_char};

verus! {

/// The grammar of a rule in the notation of regular expressions, for a
/// reader who knows it and for comparing the scan with a pattern engine:
/// the first group is the selector name, the second the declaration.
pub const RULE_PATTERN: &'static str =
    "[ ]*[.]([a-zA-Z0-9-]+[:]?[a-zA-Z0-9-]+)[ ]?[{][ ]*([ a-zA-Z0-9;:!%.-]*[a-zA-Z0-9;:!%.-]+)[ ]*[}]";

/// Number of consecutive characters of `class` in `s` from index `from` on.
pub open spec fn run_len(s: Seq<char>, from: int, class: CharClass) -> nat
    decreases s.len() - from,
{
    if 0 <= from < s.len() && in_class(class, s[from]) {
        1 + run_len(s, from + 1, class)
    } else {
        0
    }
}

/// Index just behind the run of `class` characters that starts at `from`.
pub fn run_end(text: &Vec<char>, from: usize, class: CharClass) -> (r: usize)
    ensures
        r == from + run_len(text@, from as int, class),
        from <= text@.len() ==> r <= text@.len(),
{
    let n = text.len();
    let mut j: usize = from;
    while j < n && class_has(class, text[j])
        invariant
            n == text@.len(),
            from <= j,
            from <= n ==> j <= n,
            run_len(text@, from as int, class) == (j - from) + run_len(text@, j as int, class),
        decreases n - j,
    {
        j += 1;
    }
    j
}

/// A run lies inside the text, holds characters of its class only, and ends
/// at the end of the text or in front of a character of another class.
pub proof fn lemma_run(s: Seq<char>, from: int, class: CharClass)
    requires
        0 <= from <= s.len(),
    ensures
        from + run_len(s, from, class) <= s.len(),
        forall|k: int|
            from <= k < from + run_len(s, from, class) ==> in_class(class, #[trigger] s[k]),
        from + run_len(s, from, class) < s.len() ==> !in_class(
            class,
            s[from + run_len(s, from, class)],
        ),
    decreases s.len() - from,
{
    if from < s.len() && in_class(class, s[from]) {
        lemma_run(s, from + 1, class);
    }
}

/// Characters of one class that end at the end of the text, or in front of
/// a character of another class, are a whole run.
pub proof fn lemma_run_is(s: Seq<char>, from: int, to: int, class: CharClass)
    requires
        0 <= from <= to <= s.len(),
        forall|k: int| from <= k < to ==> in_class(class, #[trigger] s[k]),
        to == s.len() || !in_class(class, s[to]),
    ensures
        run_len(s, from, class) == to - from,
    decreases to - from,
{
    if from < to {
        lemma_run_is(s, from + 1, to, class);
    }
}

/// Index just behind the last character of `s[lo..hi]` that is not a space,
/// or `lo` where there is none.
pub open spec fn trimmed_end(s: Seq<char>, lo: int, hi: int) -> int
    decreases hi - lo,
{
    if lo < hi && 0 < hi <= s.len() && s[hi - 1] == ' ' {
        trimmed_end(s, lo, hi - 1)
    } else {
        hi
    }
}

/// Drops the spaces at the end of `text[lo..hi]`: the index where they begin.
pub fn trim_end(text: &Vec<char>, lo: usize, hi: usize) -> (r: usize)
    requires
        lo <= hi <= text@.len(),
    ensures
        r == trimmed_end(text@, lo as int, hi as int),
        lo <= r <= hi,
{
    let mut e: usize = hi;
    while e > lo && text[e - 1] == ' '
        invariant
            lo <= e <= hi <= text@.len(),
            trimmed_end(text@, lo as int, hi as int) == trimmed_end(text@, lo as int, e as int),
        decreases e - lo,
    {
        e -= 1;
    }
    e
}

/// Trimming cuts off spaces only, and stops behind a character that is none.
pub proof fn lemma_trimmed_end(s: Seq<char>, lo: int, hi: int)
    requires
        0 <= lo <= hi <= s.len(),
    ensures
        lo <= trimmed_end(s, lo, hi) <= hi,
        forall|k: int| trimmed_end(s, lo, hi) <= k < hi ==> #[trigger] s[k] == ' ',
        trimmed_end(s, lo, hi) > lo ==> s[trimmed_end(s, lo, hi) - 1] != ' ',
    decreases hi - lo,
{
    if lo < hi && s[hi - 1] == ' ' {
        lemma_trimmed_end(s, lo, hi - 1);
    }
}

/// Spaces that reach back from `hi` to a character that is none are what
/// trimming cuts off.
pub proof fn lemma_trimmed_is(s: Seq<char>, lo: int, hi: int, e: int)
    requires
        0 <= lo <= e <= hi <= s.len(),
        forall|k: int| e <= k < hi ==> #[trigger] s[k] == ' ',
        e > lo ==> s[e - 1] != ' ',
    ensures
        trimmed_end(s, lo, hi) == e,
    decreases hi - e,
{
    if e < hi {
        assert(s[hi - 1] == ' ');
        lemma_trimmed_is(s, lo, hi - 1, e);
    }
}

/// Where one rule lies in a text, as indices into its characters: the
/// selector name is `[name_start, name_end)`, the declaration
/// `[decl_start, decl_end)`, and `end` is the index behind the closing brace.
pub struct RuleBounds {
    pub name_start: int,
    pub name_end: int,
    pub decl_start: int,
    pub decl_end: int,
    pub end: int,
}

/// The executable counterpart of [`RuleBounds`].
#[derive(Clone, Copy, Debug, PartialEq, Eq)]
pub struct RuleSpan {
    pub name_start: usize,
    pub name_end: usize,
    pub decl_start: usize,
    pub decl_end: usize,
    pub end: usize,
}

impl View for RuleSpan {
    type V = RuleBounds;

    open spec fn view(&self) -> RuleBounds {
        RuleBounds {
            name_start: self.name_start as int,
            name_end: self.name_end as int,
            decl_start: self.decl_start as int,
            decl_end: self.decl_end as int,
            end: self.end as int,
        }
    }
}

/// The rule whose period stands at index `dot` of `s`, if there is one.
///
/// A rule is a period; a selector name, which is one or more name characters,
/// then optionally one colon, then one or more further name characters (so a
/// name without a colon has at least two characters); at most one space; an opening brace; a run of spaces and declaration
/// characters that holds at least one character other than a space; and a
/// closing brace. The declaration is that run without the spaces at its two
/// ends. Spaces in front of the period belong to the rule as well, but they
/// change neither the name, nor the declaration, nor where the rule ends.
pub open spec fn rule_at(s: Seq<char>, dot: int) -> Option<RuleBounds> {
    let name_start = dot + 1;
    let colon = name_start + run_len(s, name_start, CharClass::Name);
    let has_colon = colon < s.len() && s[colon] == ':';
    let name_end = if has_colon {
        colon + 1 + run_len(s, colon + 1, CharClass::Name)
    } else {
        colon
    };
    let brace = if name_end < s.len() && s[name_end] == ' ' {
        name_end + 1
    } else {
        name_end
    };
    let content = brace + 1;
    let close = content + run_len(s, content, CharClass::Content);
    let decl_start = content + run_len(s, content, CharClass::Space);
    if 0 <= dot < s.len() && s[dot] == '.' && colon > name_start && (has_colon ==> name_end > colon
        + 1) && (!has_colon ==> name_end > name_start + 1) && brace < s.len() && s[brace] == '{' && close < s.len() && s[close] == '}'
        && decl_start < close {
        Some(
            RuleBounds {
                name_start,
                name_end,
                decl_start,
                decl_end: trimmed_end(s, decl_start, close),
                end: close + 1,
            },
        )
    } else {
        None
    }
}

/// Whether `t` is a selector name: two or more characters, all of them name
/// characters but for at most one colon, which stands neither first nor last.
pub open spec fn is_selector_name(t: Seq<char>) -> bool {
    &&& t.len() >= 2
    &&& forall|i: int| 0 <= i < t.len() ==> is_name_char(#[trigger] t[i]) || t[i] == ':'
    &&& forall|i: int, j: int|
        #![trigger t[i], t[j]]
        0 <= i < j < t.len() ==> !(t[i] == ':' && t[j] == ':')
    &&& t[0] != ':'
    &&& t[t.len() - 1] != ':'
}

/// Whether `t` is a declaration: declaration characters and spaces, with a
/// space neither first nor last.
pub open spec fn is_declaration(t: Seq<char>) -> bool {
    &&& t.len() > 0
    &&& forall|i: int| 0 <= i < t.len() ==> is_decl_char(#[trigger] t[i]) || t[i] == ' '
    &&& t[0] != ' '
    &&& t[t.len() - 1] != ' '
}

/// Whether the name and the declaration that `b` marks lie inside `s`.
pub open spec fn in_text(s: Seq<char>, b: RuleBounds) -> bool {
    &&& 0 <= b.name_start <= b.name_end <= s.len()
    &&& 0 <= b.decl_start <= b.decl_end <= s.len()
}

/// Whether `b` marks a rule of the allowed shape in `s`: a period, then a
/// selector name, and further on a declaration and the closing brace.
pub open spec fn rule_ok(s: Seq<char>, b: RuleBounds) -> bool {
    &&& 1 <= b.name_start < b.name_end < b.decl_start < b.decl_end < b.end <= s.len()
    &&& s[b.name_start - 1] == '.'
    &&& s[b.end - 1] == '}'
    &&& is_selector_name(s.subrange(b.name_start, b.name_end))
    &&& is_declaration(s.subrange(b.decl_start, b.decl_end))
}

/// A rule is never taken where a character outside the allowed sets stands in
/// the name or between the braces: what `rule_at` finds has the allowed shape.
pub proof fn lemma_rule_shape(s: Seq<char>, dot: int)
    requires
        rule_at(s, dot) is Some,
    ensures
        rule_at(s, dot)->0.name_start == dot + 1,
        rule_ok(s, rule_at(s, dot)->0),
{
    let b = rule_at(s, dot)->0;
    let name_start = dot + 1;
    let colon = name_start + run_len(s, name_start, CharClass::Name);
    let has_colon = colon < s.len() && s[colon] == ':';
    lemma_run(s, name_start, CharClass::Name);
    if has_colon {
        lemma_run(s, colon + 1, CharClass::Name);
    }
    let name_end = b.name_end;
    let brace = if name_end < s.len() && s[name_end] == ' ' {
        name_end + 1
    } else {
        name_end
    };
    let content = brace + 1;
    let close = content + run_len(s, content, CharClass::Content);
    lemma_run(s, content, CharClass::Content);
    lemma_run(s, content, CharClass::Space);
    lemma_trimmed_end(s, b.decl_start, close);
    let name = s.subrange(b.name_start, b.name_end);
    assert forall|i: int| 0 <= i < name.len() implies is_name_char(#[trigger] name[i]) || name[i]
        == ':' by {
        assert(name[i] == s[name_start + i]);
    }
    assert forall|i: int, j: int|
        #![trigger name[i], name[j]]
        0 <= i < j < name.len() implies !(name[i] == ':' && name[j] == ':') by {
        assert(name[i] == s[name_start + i]);
        assert(name[j] == s[name_start + j]);
        if name_start + i != colon {
            assert(in_class(CharClass::Name, s[name_start + i]));
        }
        if name_start + j != colon {
            assert(in_class(CharClass::Name, s[name_start + j]));
        }
    }
    assert(in_class(CharClass::Name, s[name_start]));
    assert(in_class(CharClass::Name, s[name_end - 1]));
    let decl = s.subrange(b.decl_start, b.decl_end);
    assert(!in_class(CharClass::Space, s[b.decl_start]));
    assert forall|i: int| 0 <= i < decl.len() implies is_decl_char(#[trigger] decl[i]) || decl[i]
        == ' ' by {
        assert(decl[i] == s[b.decl_start + i]);
        assert(in_class(CharClass::Content, s[b.decl_start + i]));
    }
}

/// Whether a rule stands in `s` with its period at `dot` and its parts where
/// `b` says: the period, the selector name, at most one space, the opening
/// brace, spaces, the declaration, spaces, and the closing brace, with
/// nothing in between.
pub open spec fn stands_at(s: Seq<char>, dot: int, b: RuleBounds) -> bool {
    let brace = if s[b.name_end] == ' ' {
        b.name_end + 1
    } else {
        b.name_end
    };
    &&& 0 <= dot
    &&& b.name_start == dot + 1
    &&& rule_ok(s, b)
    &&& brace < b.decl_start
    &&& s[brace] == '{'
    &&& forall|k: int| brace < k < b.decl_start ==> #[trigger] s[k] == ' '
    &&& forall|k: int| b.decl_end <= k < b.end - 1 ==> #[trigger] s[k] == ' '
}

/// `rule_at` finds a rule exactly where one stands, with the parts that it
/// has: a text holds at most one rule at a given period.
pub proof fn lemma_rule_at_iff_stands(s: Seq<char>, dot: int, b: RuleBounds)
    ensures
        rule_at(s, dot) == Some(b) <==> stands_at(s, dot, b),
{
    if rule_at(s, dot) == Some(b) {
        lemma_rule_shape(s, dot);
        let brace = if s[b.name_end] == ' ' {
            b.name_end + 1
        } else {
            b.name_end
        };
        let content = brace + 1;
        let close = content + run_len(s, content, CharClass::Content);
        lemma_run(s, content, CharClass::Space);
        lemma_trimmed_end(s, b.decl_start, close);
        assert forall|k: int| brace < k < b.decl_start implies #[trigger] s[k] == ' ' by {
            assert(in_class(CharClass::Space, s[k]));
        }
        assert(stands_at(s, dot, b));
    }
    if stands_at(s, dot, b) {
        let name = s.subrange(b.name_start, b.name_end);
        let decl = s.subrange(b.decl_start, b.decl_end);
        let brace = if s[b.name_end] == ' ' {
            b.name_end + 1
        } else {
            b.name_end
        };
        assert(!in_class(CharClass::Name, s[b.name_end]));
        if exists|c: int| b.name_start <= c < b.name_end && s[c] == ':' {
            let c = choose|c: int| b.name_start <= c < b.name_end && s[c] == ':';
            assert(name[c - b.name_start] == ':');
            assert(name[0] == s[b.name_start]);
            assert(name[name.len() - 1] == s[b.name_end - 1]);
            assert forall|k: int| b.name_start <= k < b.name_end && k != c implies in_class(
                CharClass::Name,
                #[trigger] s[k],
            ) by {
                assert(name[k - b.name_start] == s[k]);
                assert(is_name_char(name[k - b.name_start]) || name[k - b.name_start] == ':');
            }
            lemma_run_is(s, b.name_start, c, CharClass::Name);
            lemma_run_is(s, c + 1, b.name_end, CharClass::Name);
        } else {
            assert forall|k: int| b.name_start <= k < b.name_end implies in_class(
                CharClass::Name,
                #[trigger] s[k],
            ) by {
                assert(name[k - b.name_start] == s[k]);
            }
            lemma_run_is(s, b.name_start, b.name_end, CharClass::Name);
        }
        let content = brace + 1;
        assert(decl[0] == s[b.decl_start]);
        assert(decl[decl.len() - 1] == s[b.decl_end - 1]);
        assert forall|k: int| content <= k < b.end - 1 implies in_class(
            CharClass::Content,
            #[trigger] s[k],
        ) by {
            if b.decl_start <= k < b.decl_end {
                assert(decl[k - b.decl_start] == s[k]);
            }
        }
        lemma_run_is(s, content, b.end - 1, CharClass::Content);
        lemma_run_is(s, content, b.decl_start, CharClass::Space);
        lemma_trimmed_is(s, b.decl_start, b.end - 1, b.decl_end);
        assert(rule_at(s, dot) == Some(b));
    }
}

/// Finds the rule whose period stands at index `dot` of `text`.
pub fn match_rule_at(text: &Vec<char>, dot: usize) -> (r: Option<RuleSpan>)
    ensures
        match r {
            Some(span) => rule_at(text@, dot as int) == Some(span@) && rule_ok(text@, span@),
            None => rule_at(text@, dot as int) is None,
        },
{
    let n = text.len();
    if dot >= n || text[dot] != '.' {
        return None;
    }
    let name_start = dot + 1;
    let colon = run_end(text, name_start, CharClass::Name);
    if colon == name_start {
        return None;
    }
    let mut name_end = colon;
    if colon < n && text[colon] == ':' {
        name_end = run_end(text, colon + 1, CharClass::Name);
        if name_end == colon + 1 {
            return None;
        }
    } else if colon - name_start < 2 {
        return None;
    }
    let mut brace = name_end;
    if brace < n && text[brace] == ' ' {
        brace += 1;
    }
    if brace >= n || text[brace] != '{' {
        return None;
    }
    let content = brace + 1;
    let close = run_end(text, content, CharClass::Content);
    if close >= n || text[close] != '}' {
        return None;
    }
    let decl_start = run_end(text, content, CharClass::Space);
    if decl_start >= close {
        return None;
    }
    let decl_end = trim_end(text, decl_start, close);
    proof {
        lemma_rule_shape(text@, dot as int);
    }
    Some(RuleSpan { name_start, name_end, decl_start, decl_end, end: close + 1 })
}

/// The rules of `s` from index `pos` on, in the order in which they stand.
/// Reading from the left, a rule is taken at the first period where one
/// stands, and the search goes on behind its closing brace.
pub open spec fn rules_from(s: Seq<char>, pos: int) -> Seq<RuleBounds>
    decreases s.len() - pos,
{
    if pos < 0 || pos >= s.len() {
        Seq::empty()
    } else {
        match rule_at(s, pos) {
            Some(b) => seq![b] + rules_from(s, b.end),
            None => rules_from(s, pos + 1),
        }
    }
}

/// What a sequence of spans marks, span by span.
pub open spec fn span_views(spans: Seq<RuleSpan>) -> Seq<RuleBounds> {
    spans.map_values(|span: RuleSpan| span@)
}

/// The rules of `text`, in the order in which they stand.
pub fn find_rules(text: &Vec<char>) -> (r: Vec<RuleSpan>)
    ensures
        span_views(r@) == rules_from(text@, 0),
        forall|i: int| 0 <= i < r@.len() ==> rule_ok(text@, #[trigger] r@[i]@),
{
    let n = text.len();
    let mut out: Vec<RuleSpan> = Vec::new();
    let mut pos: usize = 0;
    while pos < n
        invariant
            n == text@.len(),
            pos <= n,
            forall|i: int| 0 <= i < out@.len() ==> rule_ok(text@, #[trigger] out@[i]@),
            rules_from(text@, 0) == span_views(out@) + rules_from(text@, pos as int),
        decreases n - pos,
    {
        let ghost before = span_views(out@);
        match match_rule_at(text, pos) {
            Some(span) => {
                out.push(span);
                pos = span.end;
                assert(span_views(out@) =~= before.push(span@));
                assert(before.push(span@) + rules_from(text@, pos as int) =~= before + (seq![
                    span@,
                ] + rules_from(text@, pos as int)));
            },
            None => {
                pos += 1;
            },
        }
    }
    assert(span_views(out@) + Seq::<RuleBounds>::empty() =~= span_views(out@));
    out
}

} // verus!
