//! From style-sheet text to the table of snippets.

use vstd::prelude::*;
use crate::chars::{chars_of, string_of};
use crate::normalize::{normalize, normalized};
use crate::scan::{find_rules, in_text, rule_ok, rules_from, span_views, RuleBounds, RuleSpan};
use crate::table::{snippet_for, Snippet, SnippetTable, SnippetView};

verus! {

/// The selector name of the rule that `b` marks in `s`.
pub open spec fn rule_name(s: Seq<char>, b: RuleBounds) -> Seq<char> {
    s.subrange(b.name_start, b.name_end)
}

/// The declaration of the rule that `b` marks in `s`.
pub open spec fn rule_declaration(s: Seq<char>, b: RuleBounds) -> Seq<char> {
    s.subrange(b.decl_start, b.decl_end)
}

/// The snippet of the rule that `b` marks in `s`.
pub open spec fn rule_snippet(s: Seq<char>, b: RuleBounds) -> SnippetView {
    snippet_for(rule_name(s, b), rule_declaration(s, b))
}

/// The table that comes of putting the snippets of `rules` in, one after the
/// other, each under its selector name: a later rule takes the place of an
/// earlier one of the same name.
pub open spec fn table_of(s: Seq<char>, rules: Seq<RuleBounds>) -> Map<Seq<char>, SnippetView>
    decreases rules.len(),
{
    if rules.len() == 0 {
        Map::empty()
    } else {
        table_of(s, rules.drop_last()).insert(
            rule_name(s, rules.last()),
            rule_snippet(s, rules.last()),
        )
    }
}

/// The table of the rules that stand in `s`.
pub open spec fn css_table(s: Seq<char>) -> Map<Seq<char>, SnippetView> {
    table_of(s, rules_from(s, 0))
}

/// The table of the rules that stand in `s` once its escaped colons are
/// plain ones.
pub open spec fn extracted(s: Seq<char>) -> Map<Seq<char>, SnippetView> {
    css_table(normalized(s))
}

/// The table of the snippets of `rules`, which mark names and declarations
/// in `text`.
pub fn build_table(text: &Vec<char>, rules: &Vec<RuleSpan>) -> (r: SnippetTable)
    requires
        forall|i: int| 0 <= i < rules@.len() ==> in_text(text@, #[trigger] rules@[i]@),
    ensures
        r.wf(),
        r@ == table_of(text@, span_views(rules@)),
{
    let ghost all = span_views(rules@);
    let mut table = SnippetTable::new();
    let mut i: usize = 0;
    while i < rules.len()
        invariant
            i <= rules@.len(),
            all == span_views(rules@),
            forall|i: int| 0 <= i < rules@.len() ==> in_text(text@, #[trigger] rules@[i]@),
            table.wf(),
            table@ == table_of(text@, all.take(i as int)),
        decreases rules@.len() - i,
    {
        let span = rules[i];
        assert(in_text(text@, rules@[i as int]@));
        let name = string_of(text, span.name_start, span.name_end);
        let description = string_of(text, span.decl_start, span.decl_end);
        table.insert(Snippet::new(name, description));
        i += 1;
        proof {
            let upto = all.take(i as int);
            assert(upto.drop_last() =~= all.take(i - 1));
            assert(upto.last() == span@);
        }
    }
    assert(all.take(i as int) =~= all);
    table
}

/// The table of the rules that stand in `text`.
pub fn parse_chars(text: &Vec<char>) -> (r: SnippetTable)
    ensures
        r.wf(),
        r@ == css_table(text@),
{
    let rules = find_rules(text);
    assert forall|i: int| 0 <= i < rules@.len() implies in_text(text@, #[trigger] rules@[i]@) by {
        assert(rule_ok(text@, rules@[i]@));
    }
    build_table(text, &rules)
}

/// The table of the rules that stand in `contents`, which is taken as it is:
/// an escaped colon is not read as a colon.
pub fn parse_css(contents: &str) -> (r: SnippetTable)
    ensures
        r.wf(),
        r@ == css_table(contents@),
{
    let text = chars_of(contents);
    parse_chars(&text)
}

/// The table of the rules that stand in `text`, after every escaped colon in
/// it has been replaced by a plain one.
pub fn extract(text: &str) -> (r: SnippetTable)
    ensures
        r.wf(),
        r@ == extracted(text@),
{
    let raw = chars_of(text);
    let plain = normalize(&raw);
    parse_chars(&plain)
}

} // verus!
