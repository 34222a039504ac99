//! The library's matchers against the regular expressions that describe
//! the same patterns.

use rarity::discord::remove_quotes;
use rarity::generation::KnowledgeSource;
use rarity::prompt::remove_xml_tags;
use rarity::rag::{KnowledgeBase, RagConfig, RagOperation, RagSystem};
use regex::Regex;

const SAMPLES: &[&str] = &[
    "",
    "plain text",
    "<think>reasoning</think>answer",
    "a <b> c <d",
    "<<a>>",
    "<>x>",
    "x < y > z",
    "find_term(\"quad\")",
    "FIND_TERM( 'Quad' ) and search_terms(\"a b\")",
    "find_tag(\"x\") get_related('y' ) find_category (\"z\")",
    "find_term(\"\") find_term(\"a'b\") find_term(\"ok\")",
    "find_ſearch_terms(\"x\") ſearch_terms(\"y\") search_terms(\"z\")",
    "get_related(\"unclosed\" find_term(\"next\")",
    "\"quoted title\"",
    "**\"bold title\"**",
    "  'spaced'  ",
    "\"a\" and \"b\"",
    "'x' tail",
    "**'half",
];

fn system() -> RagSystem {
    let config = RagConfig::with_api_documentation(String::new());
    let kb = KnowledgeBase { terms: Vec::new(), categories: Vec::new(), aliases: Vec::new() };
    RagSystem::new(config, KnowledgeSource::Loaded(kb)).ok().unwrap()
}

#[test]
fn xml_tags_are_removed_as_the_pattern_matches_them() {
    let re = Regex::new(r"<[^>]+>").unwrap();
    for s in SAMPLES {
        assert_eq!(remove_xml_tags(s), re.replace_all(s, "").to_string(), "on {s:?}");
    }
}

#[test]
fn operations_are_read_as_the_pattern_matches_them() {
    let re = Regex::new(
        r#"(?i)(find_term|find_category|find_tag|search_terms|get_related)\s*\(\s*["']([^"']+)["']\s*\)"#,
    )
    .unwrap();
    let sys = system();
    for s in SAMPLES {
        let expected: Vec<RagOperation> = re
            .captures_iter(s)
            .filter_map(|caps| {
                let parameter = caps.get(2).unwrap().as_str().to_string();
                match caps.get(1).unwrap().as_str().to_lowercase().as_str() {
                    "find_term" => Some(RagOperation::FindTerm(parameter)),
                    "find_category" => Some(RagOperation::FindCategory(parameter)),
                    "find_tag" => Some(RagOperation::FindTag(parameter)),
                    "search_terms" => Some(RagOperation::SearchTerms(parameter)),
                    "get_related" => Some(RagOperation::GetRelated(parameter)),
                    _ => None,
                }
            })
            .collect();
        assert_eq!(sys.parse_operations(s), expected, "on {s:?}");
    }
}

#[test]
fn quotes_are_removed_as_the_pattern_matches_them() {
    let re = Regex::new(r#"^\s*(\*\*)?["'](.*?)["'](\*\*)?\s*$"#).unwrap();
    for s in SAMPLES {
        let unquoted = match re.captures(s) {
            Some(caps) => {
                let content = caps.get(2).map_or("", |m| m.as_str());
                if caps.get(1).is_some() && caps.get(3).is_some() {
                    format!("**{}**", content)
                } else {
                    content.to_string()
                }
            }
            None => s.to_string(),
        };
        let spaced: String = unquoted.chars().map(|c| if c.is_control() { ' ' } else { c }).collect();
        let expected = spaced.split_whitespace().collect::<Vec<&str>>().join(" ");
        assert_eq!(remove_quotes(s), expected, "on {s:?}");
    }
}
