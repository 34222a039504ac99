use rarity::generation::{information_seeking, load_knowledge, refresh_message, KnowledgeSource};
use rarity::rag::{
    KnowledgeBase, RagConfig, RagEnabledOllama, RagOperation, RagSystem, TermInfo,
};

fn term(definition: &str, description: Option<&str>, tags: &[&str], related: &[&str]) -> TermInfo {
    TermInfo {
        definition: definition.to_string(),
        description: description.map(|d| d.to_string()),
        category: Some("internet_culture".to_string()),
        related_terms: if related.is_empty() {
            None
        } else {
            Some(related.iter().map(|s| s.to_string()).collect())
        },
        tags: if tags.is_empty() {
            None
        } else {
            Some(tags.iter().map(|s| s.to_string()).collect())
        },
        updated: None,
    }
}

fn knowledge() -> KnowledgeBase {
    KnowledgeBase {
        terms: vec![
            (
                "quadrober".to_string(),
                term(
                    "A person who adopts quadrupedal movement",
                    Some("Extended"),
                    &["subculture", "Identity"],
                    &["furry", "therian"],
                ),
            ),
            ("furry".to_string(), term("Fan of anthropomorphic animals", None, &["fandom"], &[])),
        ],
        categories: vec![(
            "internet_culture".to_string(),
            vec!["quadrober".to_string(), "furry".to_string(), "missing".to_string()],
        )],
        aliases: vec![("quad".to_string(), "quadrober".to_string())],
    }
}

fn config(max_terms: usize, max_context: usize) -> RagConfig {
    RagConfig {
        database_path: "knowledge.yml".to_string(),
        max_terms_per_query: max_terms,
        max_context_length: max_context,
        api_documentation: "DOCS".to_string(),
    }
}

fn system() -> RagSystem {
    RagSystem::new(config(5, 2000), KnowledgeSource::Loaded(knowledge())).ok().unwrap()
}

fn names(system: &RagSystem, op: RagOperation) -> Vec<String> {
    system.execute_operation(&op).terms.into_iter().map(|(n, _)| n).collect()
}

#[test]
fn parse_operations_reads_every_call() {
    let sys = system();
    let ops = sys.parse_operations(
        "Let me check find_term(\"quad\") and SEARCH_TERMS( 'fan' ), get_related(\"x\"",
    );
    assert_eq!(
        ops,
        vec![RagOperation::FindTerm("quad".to_string()), RagOperation::SearchTerms("fan".to_string())]
    );
    assert!(sys.parse_operations("find_term(\"\") find_tag(\"a'b\")").is_empty());
    assert_eq!(
        sys.parse_operations("find_category (\"x\") get_related('y')"),
        vec![RagOperation::FindCategory("x".to_string()), RagOperation::GetRelated("y".to_string())]
    );
}

#[test]
fn find_term_tries_exact_alias_then_partial() {
    let sys = system();
    assert_eq!(names(&sys, RagOperation::FindTerm("FURRY".to_string())), vec!["furry"]);
    assert_eq!(names(&sys, RagOperation::FindTerm("Quad".to_string())), vec!["quadrober"]);
    assert_eq!(names(&sys, RagOperation::FindTerm("ur".to_string())), vec!["furry"]);
    assert!(names(&sys, RagOperation::FindTerm("zzz".to_string())).is_empty());
}

#[test]
fn other_operations_select_their_terms() {
    let sys = system();
    assert_eq!(
        names(&sys, RagOperation::FindCategory("Internet_Culture".to_string())),
        vec!["quadrober", "furry"]
    );
    assert_eq!(names(&sys, RagOperation::FindTag("identity".to_string())), vec!["quadrober"]);
    assert_eq!(names(&sys, RagOperation::SearchTerms("ANTHROPOMORPHIC".to_string())), vec!["furry"]);
    assert_eq!(names(&sys, RagOperation::SearchTerms("extended".to_string())), vec!["quadrober"]);
    assert_eq!(names(&sys, RagOperation::GetRelated("quadrober".to_string())), vec!["furry"]);
}

#[test]
fn execute_operation_measures_context_in_bytes() {
    let sys = system();
    let result = sys.execute_operation(&RagOperation::FindTerm("furry".to_string()));
    assert_eq!(result.context_length, 5 + 30);
    let result = sys.execute_operation(&RagOperation::FindTerm("quad".to_string()));
    assert_eq!(result.context_length, 9 + 40 + 8);
}

#[test]
fn execute_operations_keeps_to_the_limits() {
    let ops = vec![
        RagOperation::FindTerm("furry".to_string()),
        RagOperation::FindTerm("quad".to_string()),
        RagOperation::FindTerm("furry".to_string()),
    ];
    let limited_terms = RagSystem::new(config(2, 2000), KnowledgeSource::Loaded(knowledge())).ok().unwrap();
    assert_eq!(limited_terms.execute_operations(&ops).len(), 2);
    let limited_context = RagSystem::new(config(5, 60), KnowledgeSource::Loaded(knowledge())).ok().unwrap();
    assert_eq!(limited_context.execute_operations(&ops).len(), 1);
    assert_eq!(system().execute_operations(&ops).len(), 3);
}

#[test]
fn format_retrieved_context_lists_each_result() {
    let sys = system();
    assert_eq!(sys.format_retrieved_context(&[]), "");
    let results = sys.execute_operations(&[
        RagOperation::FindTerm("FURRY".to_string()),
        RagOperation::FindTag("nothing".to_string()),
        RagOperation::GetRelated("quadrober".to_string()),
    ]);
    assert_eq!(
        sys.format_retrieved_context(&results),
        "RETRIEVED KNOWLEDGE:\n\nInformation about 'FURRY':\n- furry: Fan of anthropomorphic animals [Category: internet_culture]\n\nTerms related to 'quadrober':\n- furry: Fan of anthropomorphic animals [Category: internet_culture]\n\n"
    );
    let results = sys.execute_operations(&[RagOperation::SearchTerms("quad".to_string())]);
    assert_eq!(
        sys.format_retrieved_context(&results),
        "RETRIEVED KNOWLEDGE:\n\nSearch results for 'quad':\n- quadrober: A person who adopts quadrupedal movement Extended [Category: internet_culture]\n\n"
    );
}

#[test]
fn statistics_count_the_knowledge_base() {
    let sys = system();
    let stats = sys.get_statistics();
    assert_eq!(stats.total_terms, 2);
    assert_eq!(stats.total_categories, 1);
    assert_eq!(stats.total_aliases, 1);
    assert_eq!(stats.terms_with_descriptions, 1);
    assert_eq!(stats.terms_with_tags, 2);
    let rag = RagEnabledOllama::new(config(5, 2000), KnowledgeSource::Loaded(knowledge())).ok().unwrap();
    assert_eq!(
        rag.get_stats(),
        "📊 RAG Statistics:\n• Total Terms: 2\n• Total Categories: 1\n• Total Aliases: 1\n• Terms with Descriptions: 1\n• Terms with Tags: 2\n"
    );
    assert_eq!(rag.get_rag_statistics().total_terms, 2);
}

#[test]
fn a_missing_file_gives_an_empty_knowledge_base() {
    let kb = load_knowledge("kb.yml", KnowledgeSource::Missing).ok().unwrap();
    assert!(kb.terms.is_empty() && kb.categories.is_empty() && kb.aliases.is_empty());
}

#[test]
fn unreadable_and_malformed_files_are_errors() {
    assert_eq!(
        load_knowledge("kb.yml", KnowledgeSource::Unreadable).err(),
        Some("Failed to read knowledge base file: kb.yml".to_string())
    );
    assert_eq!(
        load_knowledge("kb.yml", KnowledgeSource::Malformed).err(),
        Some("Failed to parse YAML knowledge base: kb.yml".to_string())
    );
    assert_eq!(
        RagEnabledOllama::new(config(5, 2000), KnowledgeSource::Malformed).err(),
        Some("Failed to initialize RAG system".to_string())
    );
}

#[test]
fn a_knowledge_base_naming_a_key_twice_is_malformed() {
    let mut kb = knowledge();
    assert!(kb.is_well_formed());
    kb.terms.push(("furry".to_string(), term("Again", None, &[], &[])));
    assert!(!kb.is_well_formed());
    assert_eq!(
        load_knowledge("kb.yml", KnowledgeSource::Loaded(kb)).err(),
        Some("Failed to parse YAML knowledge base: kb.yml".to_string())
    );
    let mut kb = knowledge();
    kb.aliases.push(("quad".to_string(), "furry".to_string()));
    assert!(RagSystem::new(config(5, 2000), KnowledgeSource::Loaded(kb)).is_err());
    let mut kb = knowledge();
    kb.categories.push(("internet_culture".to_string(), vec![]));
    let mut rag = RagEnabledOllama::new(config(5, 2000), KnowledgeSource::Loaded(knowledge())).ok().unwrap();
    assert!(rag.reload(KnowledgeSource::Loaded(kb)).is_err());
    assert_eq!(rag.rag_system.knowledge_base.categories.len(), 1);
}

#[test]
fn searches_name_each_term_once() {
    let sys = system();
    assert_eq!(names(&sys, RagOperation::SearchTerms("a".to_string())), vec!["quadrober", "furry"]);
    assert_eq!(names(&sys, RagOperation::FindTag("i".to_string())), vec!["quadrober"]);
    assert_eq!(names(&sys, RagOperation::FindTerm("r".to_string())), vec!["quadrober", "furry"]);
}

#[test]
fn a_failed_reload_keeps_the_old_knowledge() {
    let mut rag = RagEnabledOllama::new(config(5, 2000), KnowledgeSource::Loaded(knowledge())).ok().unwrap();
    let result = rag.reload(KnowledgeSource::Malformed);
    assert_eq!(result, Err("Failed to parse YAML knowledge base: knowledge.yml".to_string()));
    assert_eq!(rag.rag_system.knowledge_base.terms.len(), 2);
    assert_eq!(refresh_message(&result), "failed to refres rag, Failed to parse YAML knowledge base: knowledge.yml");
    let result = rag.reload(KnowledgeSource::Missing);
    assert_eq!(result, Ok(()));
    assert!(rag.rag_system.knowledge_base.terms.is_empty());
    assert_eq!(refresh_message(&result), "knwlage base refreshed");
    assert_eq!(rag.rag_system.get_api_documentation(), "DOCS");
}

#[test]
fn information_seeking_prompts_use_retrieval() {
    let rag = RagEnabledOllama::new(config(5, 2000), KnowledgeSource::Missing).ok().unwrap();
    assert!(rag.should_use_rag("Что такое квадробер?"));
    assert!(rag.should_use_rag("Как дела?"));
    assert!(!rag.should_use_rag("как дела"));
    assert!(!rag.should_use_rag("привет"));
    assert!(rag.should_use_rag("Расскажи про пони"));
    assert!(information_seeking("Где ты?", "где ты?"));
    assert!(!information_seeking("Где ты", "где ты"));
}

#[test]
fn the_two_turns_of_a_retrieval() {
    let rag = RagEnabledOllama::new(config(5, 2000), KnowledgeSource::Loaded(knowledge())).ok().unwrap();
    assert_eq!(
        rag.rag_request_prompt(Some("SYS"), "who?"),
        "SYS\n\nAPI DOCUMENTATION:\nDOCS\n\nUSER REQUEST:\nwho?"
    );
    assert_eq!(rag.rag_request_prompt(None, "who?"), "API DOCUMENTATION:\nDOCS\n\nUSER REQUEST:\nwho?");
    assert_eq!(rag.follow_up_prompt(Some("SYS"), "who?", "no calls here"), None);
    assert_eq!(
        rag.follow_up_prompt(None, "who?", "find_term(\"furry\")"),
        Some("RETRIEVED KNOWLEDGE:\n\nInformation about 'furry':\n- furry: Fan of anthropomorphic animals [Category: internet_culture]\n\n\n\nBased on the above information, please provide a comprehensive answer to: who?".to_string())
    );
}

#[test]
fn the_standard_configuration() {
    let c = RagConfig::with_api_documentation("docs".to_string());
    assert_eq!(c.database_path, "knowledge.yml");
    assert_eq!((c.max_terms_per_query, c.max_context_length), (5, 2000));
    assert_eq!(c.api_documentation, "docs");
}

#[test]
fn retrieve_looks_up_the_lowered_parameter() {
    let sys = system();
    let found = |op: RagOperation, n: &str| -> Vec<String> {
        sys.retrieve(&op, &n.to_string()).into_iter().map(|(name, _)| name).collect()
    };
    assert_eq!(found(RagOperation::FindTerm("ignored".to_string()), "quad"), vec!["quadrober"]);
    assert!(found(RagOperation::FindTerm("Quad".to_string()), "Quad").is_empty());
    assert_eq!(found(RagOperation::FindTag(String::new()), "subcult"), vec!["quadrober"]);
    assert_eq!(found(RagOperation::FindCategory(String::new()), "internet_culture"), vec!["quadrober", "furry"]);
    assert!(found(RagOperation::GetRelated(String::new()), "furry").is_empty());
}

#[test]
fn the_context_of_joined_results_joins_their_blocks() {
    let sys = system();
    let first = sys.execute_operations(&[RagOperation::FindTerm("furry".to_string())]);
    let second = sys.execute_operations(&[RagOperation::SearchTerms("quad".to_string())]);
    let joined: Vec<_> = first.iter().chain(second.iter()).cloned().collect();
    let header = "RETRIEVED KNOWLEDGE:\n\n";
    let other = RagSystem::new(config(1, 10), KnowledgeSource::Missing).ok().unwrap();
    assert_eq!(
        sys.format_retrieved_context(&joined),
        sys.format_retrieved_context(&first) + &other.format_retrieved_context(&second)[header.len()..]
    );
}

#[test]
fn a_single_call_in_any_case_is_one_operation() {
    let sys = system();
    assert_eq!(sys.parse_operations("FIND_TERM(\"Quad Bike\")"), vec![RagOperation::FindTerm("Quad Bike".to_string())]);
    assert_eq!(sys.parse_operations("Find_Category(\"x\")"), vec![RagOperation::FindCategory("x".to_string())]);
    assert_eq!(sys.parse_operations("fInD_tAg(\"t\")"), vec![RagOperation::FindTag("t".to_string())]);
    assert_eq!(sys.parse_operations("SEARCH_terms(\"a b\")"), vec![RagOperation::SearchTerms("a b".to_string())]);
    assert_eq!(sys.parse_operations("get_RELATED(\"y\")"), vec![RagOperation::GetRelated("y".to_string())]);
}
