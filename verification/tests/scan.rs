use css_snippets::chars::{chars_of, class_has, string_of, CharClass};
use css_snippets::extract::{build_table, parse_chars};
use css_snippets::normalize::normalize;
use css_snippets::scan::{find_rules, match_rule_at, run_end, trim_end, RuleSpan, RULE_PATTERN};

fn rules_by_scan(text: &str) -> Vec<(String, String)> {
    let chars = chars_of(text);
    find_rules(&chars)
        .iter()
        .map(|r| {
            (
                string_of(&chars, r.name_start, r.name_end),
                string_of(&chars, r.decl_start, r.decl_end),
            )
        })
        .collect()
}

fn rules_by_pattern(pattern: &str, text: &str) -> Vec<(String, String)> {
    let re = regex::Regex::new(pattern).unwrap();
    re.captures_iter(text)
        .map(|cap| {
            (
                cap.get(1).unwrap().as_str().to_string(),
                cap.get(2).unwrap().as_str().to_string(),
            )
        })
        .collect()
}

fn sample(alphabet: &[char], seed: u64, len: usize) -> String {
    let mut state = seed;
    let mut out = String::new();
    for _ in 0..len {
        state = state
            .wrapping_mul(6364136223846793005)
            .wrapping_add(1442695040888963407);
        let pick = ((state >> 33) as usize) % alphabet.len();
        out.push(alphabet[pick]);
    }
    out
}

#[test]
fn chars_of_gives_each_character() {
    assert_eq!(chars_of(""), Vec::<char>::new());
    assert_eq!(chars_of("a.\u{e9}{"), vec!['a', '.', '\u{e9}', '{']);
}

#[test]
fn string_of_takes_the_range() {
    let chars = chars_of("h\u{e9}llo");
    assert_eq!(string_of(&chars, 1, 4), "\u{e9}ll");
    assert_eq!(string_of(&chars, 2, 2), "");
    assert_eq!(string_of(&chars, 0, 5), "h\u{e9}llo");
}

#[test]
fn character_classes() {
    for c in ['a', 'z', 'A', 'Z', '0', '9', '-'] {
        assert!(class_has(CharClass::Name, c));
        assert!(class_has(CharClass::Content, c));
        assert!(!class_has(CharClass::Space, c));
    }
    for c in [';', ':', '!', '%', '.'] {
        assert!(!class_has(CharClass::Name, c));
        assert!(class_has(CharClass::Content, c));
    }
    assert!(class_has(CharClass::Space, ' '));
    assert!(class_has(CharClass::Content, ' '));
    assert!(!class_has(CharClass::Name, ' '));
    for c in ['_', '(', ')', ',', '#', '"', '\'', '{', '}', '\t', '\n', '/', '@', '[', '`', '\u{e9}'] {
        assert!(!class_has(CharClass::Name, c));
        assert!(!class_has(CharClass::Content, c));
        assert!(!class_has(CharClass::Space, c));
    }
}

#[test]
fn normalize_replaces_each_escaped_colon() {
    let plain = |s: &str| -> String { normalize(&chars_of(s)).into_iter().collect() };
    assert_eq!(plain("md\\:mb-1"), "md:mb-1");
    assert_eq!(plain("a\\:b\\:c"), "a:b:c");
    assert_eq!(plain("\\\\:"), "\\:");
    assert_eq!(plain("a\\"), "a\\");
    assert_eq!(plain("\\a:"), "\\a:");
    assert_eq!(plain("a:b"), "a:b");
    assert_eq!(plain(""), "");
    assert_eq!(plain("\\:"), ":");
}

#[test]
fn normalize_agrees_with_replace() {
    let alphabet = ['\\', ':', 'a', '.'];
    for seed in 0..2000u64 {
        let text = sample(&alphabet, seed, (seed % 12) as usize);
        let got: String = normalize(&chars_of(&text)).into_iter().collect();
        assert_eq!(got, text.replace("\\:", ":"), "on {:?}", text);
    }
}

#[test]
fn normalize_in_two_parts() {
    let plain = |s: &str| -> String { normalize(&chars_of(s)).into_iter().collect() };
    assert_eq!(plain(".md\\:mb{x}"), format!("{}{}", plain(".md"), plain("\\:mb{x}")));
    assert_eq!(plain("a\\:b"), format!("{}:{}", plain("a"), plain("b")));
    assert_eq!(plain("\\\\:b"), format!("{}:{}", plain("\\"), plain("b")));
    assert_ne!(plain("a\\:b"), format!("{}{}", plain("a\\"), plain(":b")));
}

#[test]
fn run_end_stops_at_the_first_other_character() {
    let chars = chars_of("ab-9:  x");
    assert_eq!(run_end(&chars, 0, CharClass::Name), 4);
    assert_eq!(run_end(&chars, 4, CharClass::Name), 4);
    assert_eq!(run_end(&chars, 5, CharClass::Space), 7);
    assert_eq!(run_end(&chars, 0, CharClass::Content), 8);
    assert_eq!(run_end(&chars, 8, CharClass::Content), 8);
    assert_eq!(run_end(&chars, 20, CharClass::Content), 20);
}

#[test]
fn trim_end_drops_trailing_spaces() {
    let chars = chars_of("a b   ");
    assert_eq!(trim_end(&chars, 0, 6), 3);
    assert_eq!(trim_end(&chars, 0, 3), 3);
    assert_eq!(trim_end(&chars, 3, 6), 3);
    assert_eq!(trim_end(&chars, 1, 2), 1);
}

#[test]
fn match_rule_at_gives_the_bounds() {
    let chars = chars_of("  .md:mb-1 {  margin: 0 ;  } ");
    assert_eq!(
        match_rule_at(&chars, 2),
        Some(RuleSpan { name_start: 3, name_end: 10, decl_start: 14, decl_end: 25, end: 28 })
    );
    assert_eq!(match_rule_at(&chars, 0), None);
    assert_eq!(match_rule_at(&chars, 3), None);
    assert_eq!(match_rule_at(&chars, 500), None);
}

#[test]
fn find_rules_keeps_the_order_of_the_text() {
    assert_eq!(
        rules_by_scan(".bb{1}.aa{2} .bb{3}"),
        vec![
            ("bb".to_string(), "1".to_string()),
            ("aa".to_string(), "2".to_string()),
            ("bb".to_string(), "3".to_string()),
        ]
    );
}

#[test]
fn build_table_takes_the_given_rules() {
    let chars = chars_of(".ab{x}.cd{y}");
    let rules = find_rules(&chars);
    assert_eq!(rules.len(), 2);
    let only_second = vec![rules[1]];
    let table = build_table(&chars, &only_second);
    assert_eq!(table.len(), 1);
    assert!(table.contains_key("cd"));
    assert_eq!(build_table(&chars, &rules), parse_chars(&chars));
}

#[test]
fn scan_agrees_with_the_pattern_on_given_texts() {
    let texts = [
        ".class{border-radius: 1px;} .md:mb-1{margin-bottom: 1rem;}",
        "invalid css",
        "   .ab {  x  y  }   .cd{z}",
        ".ab{x}.ab{y}",
        ".ab{.cd{x}}",
        ".a:b:c{x} .d:e{y}",
        ".ab{x;} .cd{calc(1)} .ef{a,b} .gh{ok}",
        ".ab{ } .cd{}",
        ". ab{x} .{x} .ab{x",
        ".a{x} .b:c{y} .de{z} .f {w}",
        "\u{e9}.ab{x}\u{4e2d}.c\u{e9}{y}.de{\u{e9}}.fg{ok}",
    ];
    for text in texts {
        assert_eq!(rules_by_scan(text), rules_by_pattern(RULE_PATTERN, text), "on {:?}", text);
    }
}

#[test]
fn scan_agrees_with_the_pattern_on_sampled_texts() {
    let alphabet = ['.', 'a', 'b', ':', ' ', '{', '}', ';', '(', '-', '.', '{', '}', 'a'];
    let re = regex::Regex::new(RULE_PATTERN).unwrap();
    for seed in 0..4000u64 {
        let text = sample(&alphabet, seed, 4 + (seed % 28) as usize);
        let want: Vec<(String, String)> = re
            .captures_iter(&text)
            .map(|cap| {
                (
                    cap.get(1).unwrap().as_str().to_string(),
                    cap.get(2).unwrap().as_str().to_string(),
                )
            })
            .collect();
        assert_eq!(rules_by_scan(&text), want, "on {:?}", text);
    }
}
