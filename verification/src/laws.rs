//! What holds of every text: laws of normalization, of the scan and of the
//! table that comes of it.

use vstd::prelude::*;
use crate::extract::{css_table, extracted, rule_name, rule_snippet, table_of};
use crate::normalize::{normalized, starts_escaped_colon};
use crate::scan::{
    is_declaration,
    is_selector_name,
    lemma_rule_shape,
    rule_at,
    rule_ok,
    rules_from,
    RuleBounds,
};
use crate::table::{SnippetTable, SnippetView};

verus! {

/// Extraction is a function of the text: two tables extracted from the same
/// text hold the same snippets under the same names.
pub proof fn lemma_extract_repeatable(text: Seq<char>, first: SnippetTable, second: SnippetTable)
    requires
        first@ == extracted(text),
        second@ == extracted(text),
    ensures
        first@ == second@,
{
}

/// Normalizing a text in two parts gives the same as normalizing it whole,
/// unless the cut parts a backslash from the colon that follows it.
pub proof fn lemma_normalized_concat(a: Seq<char>, b: Seq<char>)
    requires
        !(a.len() > 0 && a.last() == '\\' && b.len() > 0 && b[0] == ':'),
    ensures
        normalized(a + b) == normalized(a) + normalized(b),
    decreases a.len(),
{
    if a.len() == 0 {
        assert(a + b =~= b);
        assert(normalized(a) + normalized(b) =~= normalized(b));
    } else if starts_escaped_colon(a) {
        assert(starts_escaped_colon(a + b));
        assert((a + b).skip(2) =~= a.skip(2) + b);
        lemma_normalized_concat(a.skip(2), b);
        assert(seq![':'] + (normalized(a.skip(2)) + normalized(b)) =~= (seq![':'] + normalized(
            a.skip(2),
        )) + normalized(b));
    } else {
        assert(!starts_escaped_colon(a + b));
        assert((a + b)[0] == a[0]);
        assert((a + b).skip(1) =~= a.skip(1) + b);
        lemma_normalized_concat(a.skip(1), b);
        assert(seq![a[0]] + (normalized(a.skip(1)) + normalized(b)) =~= (seq![a[0]] + normalized(
            a.skip(1),
        )) + normalized(b));
    }
}

/// An escaped colon between two pieces of text becomes a plain colon between
/// what the two pieces become, and it is there that the rules are looked for.
pub proof fn lemma_escaped_colon_becomes_colon(a: Seq<char>, b: Seq<char>)
    ensures
        normalized(a + seq!['\\', ':'] + b) == normalized(a) + seq![':'] + normalized(b),
        extracted(a + seq!['\\', ':'] + b) == css_table(
            normalized(a) + seq![':'] + normalized(b),
        ),
{
    let esc = seq!['\\', ':'];
    lemma_normalized_concat(a, esc + b);
    lemma_normalized_concat(esc, b);
    assert(a + esc + b =~= a + (esc + b));
    assert(starts_escaped_colon(esc));
    assert(esc.skip(2) =~= Seq::<char>::empty());
    assert(normalized(esc.skip(2)) =~= Seq::<char>::empty());
    assert(normalized(esc) =~= seq![':']);
    assert(normalized(a) + (seq![':'] + normalized(b)) =~= normalized(a) + seq![':'] + normalized(
        b,
    ));
}

/// Every rule that the scan finds from `pos` on has the allowed shape and
/// begins behind `pos`, and the rules stand apart, in the order of the text.
pub proof fn lemma_rules_well_formed(s: Seq<char>, pos: int)
    requires
        0 <= pos,
    ensures
        forall|i: int|
            0 <= i < rules_from(s, pos).len() ==> rule_ok(s, #[trigger] rules_from(s, pos)[i])
                && rules_from(s, pos)[i].name_start > pos,
        forall|i: int, j: int|
            #![trigger rules_from(s, pos)[i], rules_from(s, pos)[j]]
            0 <= i < j < rules_from(s, pos).len() ==> rules_from(s, pos)[i].end < rules_from(
                s,
                pos,
            )[j].name_start,
    decreases s.len() - pos,
{
    if pos < s.len() {
        match rule_at(s, pos) {
            Some(b) => {
                lemma_rule_shape(s, pos);
                lemma_rules_well_formed(s, b.end);
                let rest = rules_from(s, b.end);
                assert(rules_from(s, pos) =~= seq![b] + rest);
                assert forall|i: int| 0 <= i < rules_from(s, pos).len() implies rule_ok(
                    s,
                    #[trigger] rules_from(s, pos)[i],
                ) && rules_from(s, pos)[i].name_start > pos by {
                    if i > 0 {
                        assert(rules_from(s, pos)[i] == rest[i - 1]);
                    }
                }
                assert forall|i: int, j: int|
                    #![trigger rules_from(s, pos)[i], rules_from(s, pos)[j]]
                    0 <= i < j < rules_from(s, pos).len() implies rules_from(s, pos)[i].end
                    < rules_from(s, pos)[j].name_start by {
                    assert(rules_from(s, pos)[j] == rest[j - 1]);
                    if i > 0 {
                        assert(rules_from(s, pos)[i] == rest[i - 1]);
                    }
                }
            },
            None => {
                lemma_rules_well_formed(s, pos + 1);
                assert(rules_from(s, pos) == rules_from(s, pos + 1));
            },
        }
    } else {
        assert(rules_from(s, pos).len() == 0);
    }
}

/// Of several rules with one selector name the last one wins: a rule that no
/// later rule of the same name follows has its snippet in the table.
pub proof fn lemma_last_rule_wins(s: Seq<char>, rules: Seq<RuleBounds>, i: int)
    requires
        0 <= i < rules.len(),
        forall|j: int| i < j < rules.len() ==> rule_name(s, #[trigger] rules[j]) != rule_name(s, rules[i]),
    ensures
        table_of(s, rules).contains_key(rule_name(s, rules[i])),
        table_of(s, rules)[rule_name(s, rules[i])] == rule_snippet(s, rules[i]),
    decreases rules.len(),
{
    if i < rules.len() - 1 {
        let front = rules.drop_last();
        assert(front[i] == rules[i]);
        assert forall|j: int| i < j < front.len() implies rule_name(s, #[trigger] front[j])
            != rule_name(s, front[i]) by {
            assert(front[j] == rules[j]);
        }
        lemma_last_rule_wins(s, front, i);
        assert(rule_name(s, rules.last()) != rule_name(s, rules[i]));
    }
}

/// A name is in the table only where a rule has it: the table holds under it
/// the snippet of the last rule of that name.
pub proof fn lemma_entry_has_rule(s: Seq<char>, rules: Seq<RuleBounds>, name: Seq<char>) -> (i: int)
    requires
        table_of(s, rules).contains_key(name),
    ensures
        0 <= i < rules.len(),
        rule_name(s, rules[i]) == name,
        table_of(s, rules)[name] == rule_snippet(s, rules[i]),
        forall|j: int| i < j < rules.len() ==> rule_name(s, #[trigger] rules[j]) != name,
    decreases rules.len(),
{
    if rule_name(s, rules.last()) == name {
        rules.len() - 1
    } else {
        let front = rules.drop_last();
        let i = lemma_entry_has_rule(s, front, name);
        assert(front[i] == rules[i]);
        assert forall|j: int| i < j < rules.len() implies rule_name(s, #[trigger] rules[j])
            != name by {
            if j < front.len() {
                assert(front[j] == rules[j]);
            }
        }
        i
    }
}

/// Every entry of the table of a text stands under a selector name, and is
/// the snippet of that name with a declaration of the allowed shape: a rule
/// with anything else between its braces leaves no entry.
pub proof fn lemma_entries_well_formed(s: Seq<char>, name: Seq<char>)
    requires
        css_table(s).contains_key(name),
    ensures
        is_selector_name(name),
        css_table(s)[name].prefix == name,
        css_table(s)[name].body == seq![name],
        is_declaration(css_table(s)[name].description),
{
    let rules = rules_from(s, 0);
    let i = lemma_entry_has_rule(s, rules, name);
    lemma_rules_well_formed(s, 0);
    assert(rule_ok(s, rules[i]));
}

/// A text in which no rule stands gives the empty table.
pub proof fn lemma_no_rule_no_entry(s: Seq<char>)
    requires
        forall|dot: int| 0 <= dot < s.len() ==> rule_at(s, dot) is None,
    ensures
        css_table(s) == Map::<Seq<char>, SnippetView>::empty(),
{
    lemma_no_rule_from(s, 0);
}

/// Where no rule stands from `pos` on, the scan finds none.
proof fn lemma_no_rule_from(s: Seq<char>, pos: int)
    requires
        0 <= pos,
        forall|dot: int| pos <= dot < s.len() ==> rule_at(s, dot) is None,
    ensures
        rules_from(s, pos).len() == 0,
    decreases s.len() - pos,
{
    if pos < s.len() {
        lemma_no_rule_from(s, pos + 1);
    }
}

} // verus!
