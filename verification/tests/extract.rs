use css_snippets::extract::{extract, parse_css};
use css_snippets::table::{Snippet, SnippetTable};

fn snippet(name: &str, description: &str) -> Snippet {
    Snippet {
        prefix: name.to_string(),
        body: vec![name.to_string()],
        description: description.to_string(),
    }
}

#[test]
fn parse_css_test() {
    let input = ".class{border-radius: 1px;} .md:mb-1{margin-bottom: 1rem;}";

    let result = parse_css(input);

    assert!(result.contains_key("class"));
    assert!(result.contains_key("md:mb-1"));

    if let Some(class_snip) = result.get("class") {
        assert_eq!(
            class_snip,
            &Snippet {
                prefix: "class".to_string(),
                body: vec!["class".to_string()],
                description: "border-radius: 1px;".to_string()
            }
        );
    } else {
        panic!("Result is missing \"class\"");
    }

    if let Some(md_snip) = result.get("md:mb-1") {
        assert_eq!(
            md_snip,
            &Snippet {
                prefix: "md:mb-1".to_string(),
                body: vec!["md:mb-1".to_string()],
                description: "margin-bottom: 1rem;".to_string()
            }
        );
    } else {
        panic!("Result is missing \"md:mb-1\"");
    }
}

#[test]
fn parse_css_invalid() {
    let input = "invalid css";

    let result = parse_css(input);

    assert_eq!(result, SnippetTable::new());
}

#[test]
fn two_rules_give_exactly_two_entries() {
    let result = extract(".class{border-radius: 1px;} .md:mb-1{margin-bottom: 1rem;}");
    assert_eq!(result.len(), 2);
    assert_eq!(result.get("class"), Some(&snippet("class", "border-radius: 1px;")));
    assert_eq!(result.get("md:mb-1"), Some(&snippet("md:mb-1", "margin-bottom: 1rem;")));
    assert_eq!(result.get("md"), None);
}

#[test]
fn text_without_rules_gives_empty_table() {
    let result = extract("invalid css");
    assert!(result.is_empty());
    assert_eq!(result.len(), 0);
    assert!(extract("").is_empty());
    assert!(extract(".").is_empty());
    assert!(extract(".a{").is_empty());
}

#[test]
fn extracting_twice_gives_the_same_table() {
    let text = ".a-b{x: 1;}.c\\:d { y: 2 } .a-b{z}";
    assert_eq!(extract(text), extract(text));
    assert_eq!(parse_css(text), parse_css(text));
}

#[test]
fn escaped_colon_is_read_as_colon() {
    let result = extract(".md\\:mb-1{margin-bottom: 1rem;}");
    assert_eq!(result.len(), 1);
    assert_eq!(result.get("md:mb-1"), Some(&snippet("md:mb-1", "margin-bottom: 1rem;")));
    assert!(!result.contains_key("md\\:mb-1"));
}

#[test]
fn parse_css_leaves_escaped_colon_alone() {
    let result = parse_css(".md\\:mb-1{margin-bottom: 1rem;}");
    assert!(!result.contains_key("md:mb-1"));
    assert!(result.is_empty());
}

#[test]
fn escaped_colon_in_declaration_is_read_as_colon() {
    let result = extract(".ab{color\\: red}");
    assert_eq!(result.get("ab"), Some(&snippet("ab", "color: red")));
}

#[test]
fn later_rule_of_same_name_wins() {
    let result = extract(".btn{color: red;}.other{top: 0}.btn{color: blue;}");
    assert_eq!(result.len(), 2);
    assert_eq!(result.get("btn"), Some(&snippet("btn", "color: blue;")));
    assert_eq!(result.get("other"), Some(&snippet("other", "top: 0")));
}

#[test]
fn disallowed_character_skips_the_rule() {
    let result = extract(".fn{width: calc(1px);}.ok{top: 0;}.list{font: a, b;}.q{content: \"x\"}.h{color: #fff}");
    assert_eq!(result.len(), 1);
    assert_eq!(result.get("ok"), Some(&snippet("ok", "top: 0;")));
    assert!(!result.contains_key("fn"));
    assert!(!result.contains_key("list"));
    assert!(!result.contains_key("q"));
    assert!(!result.contains_key("h"));
}

#[test]
fn skipped_rule_with_valid_rule_elsewhere_is_kept() {
    let result = extract(".box{width: calc(1px);}.box{width: 1px;}");
    assert_eq!(result.len(), 1);
    assert_eq!(result.get("box"), Some(&snippet("box", "width: 1px;")));
}

#[test]
fn empty_declaration_is_skipped() {
    assert!(extract(".ab{}").is_empty());
    assert!(extract(".ab{   }").is_empty());
    assert!(extract(".ab {}").is_empty());
}

#[test]
fn declaration_is_trimmed_at_both_ends_only() {
    let result = extract(".ab {   margin:  0   auto ;  }");
    assert_eq!(result.get("ab"), Some(&snippet("ab", "margin:  0   auto ;")));
}

#[test]
fn one_space_may_stand_before_the_brace() {
    assert_eq!(extract(".ab {x}").get("ab"), Some(&snippet("ab", "x")));
    assert!(extract(".ab  {x}").is_empty());
    assert!(extract(".ab\t{x}").is_empty());
    assert!(extract(".ab\n{x}").is_empty());
}

#[test]
fn selector_name_takes_at_most_one_colon() {
    assert_eq!(extract(".a:b{x}").get("a:b"), Some(&snippet("a:b", "x")));
    assert!(extract(".a:b:c{x}").is_empty());
    assert!(extract(".a:{x}").is_empty());
    assert!(extract(".:a{x}").is_empty());
    assert!(extract(".a::b{x}").is_empty());
    assert!(extract(".{x}").is_empty());
}

#[test]
fn selector_name_without_colon_has_two_characters() {
    assert!(extract(".a{x}").is_empty());
    assert_eq!(extract(".ab{x}").get("ab"), Some(&snippet("ab", "x")));
    assert_eq!(extract(".a.bc{x}").get("bc"), Some(&snippet("bc", "x")));
}

#[test]
fn rule_is_found_behind_a_failed_start() {
    let result = extract(".ab{b.cd{e}");
    assert_eq!(result.len(), 1);
    assert_eq!(result.get("cd"), Some(&snippet("cd", "e")));
    let nested = extract(".out{.in{x}}");
    assert_eq!(nested.len(), 1);
    assert_eq!(nested.get("in"), Some(&snippet("in", "x")));
}

#[test]
fn search_goes_on_behind_the_closing_brace() {
    let result = extract(".ab{x.cd}{y}.ef{z}");
    assert_eq!(result.len(), 2);
    assert_eq!(result.get("ab"), Some(&snippet("ab", "x.cd")));
    assert_eq!(result.get("ef"), Some(&snippet("ef", "z")));
}

#[test]
fn compound_selector_gives_its_last_class() {
    let result = extract(".ab.cd{x}div.ef>p{y}.gh:hover{z}");
    assert_eq!(result.len(), 2);
    assert_eq!(result.get("cd"), Some(&snippet("cd", "x")));
    assert_eq!(result.get("gh:hover"), Some(&snippet("gh:hover", "z")));
}

#[test]
fn text_beyond_ascii_is_passed_over() {
    let result = extract("\u{e9}.ab{x}\u{4e2d}.c\u{e9}{y}.de{\u{e9}}.fg{ok}");
    assert_eq!(result.len(), 2);
    assert_eq!(result.get("ab"), Some(&snippet("ab", "x")));
    assert_eq!(result.get("fg"), Some(&snippet("fg", "ok")));
}
