//! Retrieval-augmented generation: deciding when to consult the knowledge
//! base, the prompts around the model's two turns, loading and reloading the
//! knowledge base, and its statistics.
use vstd::prelude::*;
use crate::text::{
    chars_of, contains_seq, decimal, is_blank_str, lowercase, occurs_at_exec, push_decimal,
    push_str_chars, starts_with, string_of, to_lowercase, trim,
};
use crate::rag::{
    count_described, count_tagged, knowledge_well_formed, operation_result, result_views, retrieved_context,
    KnowledgeBase, KnowledgeView, RagConfig, RagEnabledOllama, RagStatistics, RagSystem,
};
use crate::operations::parsed_operations;

verus! {

broadcast use vstd::seq_lib::group_seq_properties;

// ---------------------------------------------------------------------------
// Loading
// ---------------------------------------------------------------------------

/// What became of reading the knowledge base file.
pub enum KnowledgeSource {
    /// There is no file at the configured path.
    Missing,
    /// The file was read and parsed.
    Loaded(KnowledgeBase),
    /// The file exists but could not be read.
    Unreadable,
    /// The file was read but is not a valid knowledge base.
    Malformed,
}

pub fn empty_knowledge_base() -> (kb: KnowledgeBase)
    ensures
        kb@.terms.len() == 0,
        kb@.categories.len() == 0,
        kb@.aliases.len() == 0,
{
    KnowledgeBase { terms: Vec::new(), categories: Vec::new(), aliases: Vec::new() }
}

/// The knowledge base a source yields, or why there is none. A missing file
/// means an empty knowledge base; one that names a term, category or alias
/// twice is malformed, as a mapping with a repeated key is.
pub open spec fn loaded(path: Seq<char>, source: KnowledgeSource) -> Result<KnowledgeView, Seq<char>> {
    match source {
        KnowledgeSource::Missing => Ok(
            KnowledgeView {
                terms: Seq::empty(),
                categories: Seq::empty(),
                aliases: Seq::empty(),
            },
        ),
        KnowledgeSource::Loaded(kb) => if knowledge_well_formed(kb@) {
            Ok(kb@)
        } else {
            Err("Failed to parse YAML knowledge base: "@ + path)
        },
        KnowledgeSource::Unreadable => Err("Failed to read knowledge base file: "@ + path),
        KnowledgeSource::Malformed => Err("Failed to parse YAML knowledge base: "@ + path),
    }
}

/// Law: whatever is read, a knowledge base that is accepted names every
/// term, category and alias once.
pub proof fn law_loaded_knowledge_is_well_formed(path: Seq<char>, source: KnowledgeSource)
    ensures
        loaded(path, source) matches Ok(v) ==> knowledge_well_formed(v),
{
}

fn message_with_path(prefix: &str, path: &str) -> (r: String)
    ensures
        r@ == prefix@ + path@,
{
    let mut out: Vec<char> = Vec::new();
    push_str_chars(&mut out, prefix);
    push_str_chars(&mut out, path);
    string_of(out.as_slice())
}

/// Turns the outcome of reading the file at `path` into a knowledge base.
pub fn load_knowledge(path: &str, source: KnowledgeSource) -> (r: Result<KnowledgeBase, String>)
    ensures
        match (r, loaded(path@, source)) {
            (Ok(kb), Ok(v)) => kb@ == v,
            (Err(e), Err(m)) => e@ == m,
            _ => false,
        },
{
    match source {
        KnowledgeSource::Missing => {
            let kb = empty_knowledge_base();
            assert(kb@.terms =~= Seq::empty());
            assert(kb@.categories =~= Seq::empty());
            assert(kb@.aliases =~= Seq::empty());
            Ok(kb)
        },
        KnowledgeSource::Loaded(kb) => if kb.is_well_formed() {
            Ok(kb)
        } else {
            Err(message_with_path("Failed to parse YAML knowledge base: ", path))
        },
        KnowledgeSource::Unreadable => Err(
            message_with_path("Failed to read knowledge base file: ", path),
        ),
        KnowledgeSource::Malformed => Err(
            message_with_path("Failed to parse YAML knowledge base: ", path),
        ),
    }
}

impl RagConfig {
    /// The standard configuration: the knowledge base in `knowledge.yml`, at
    /// most five operations and 2000 bytes of retrieved text per answer,
    /// with the given documentation of the operations for the model.
    pub fn with_api_documentation(api_documentation: String) -> (r: RagConfig)
        ensures
            r.database_path@ == "knowledge.yml"@,
            r.max_terms_per_query == 5,
            r.max_context_length == 2000,
            r.api_documentation@ == api_documentation@,
    {
        RagConfig {
            database_path: String::from_str("knowledge.yml"),
            max_terms_per_query: 5,
            max_context_length: 2000,
            api_documentation,
        }
    }
}

impl RagSystem {
    /// A retrieval system over the knowledge base read from the configured
    /// path.
    pub fn new(config: RagConfig, source: KnowledgeSource) -> (r: Result<RagSystem, String>)
        ensures
            match (r, loaded(config.database_path@, source)) {
                (Ok(sys), Ok(v)) => sys.knowledge_base@ == v && sys.config == config,
                (Err(e), Err(m)) => e@ == m,
                _ => false,
            },
    {
        match load_knowledge(config.database_path.as_str(), source) {
            Ok(knowledge_base) => Ok(RagSystem { config, knowledge_base }),
            Err(e) => Err(e),
        }
    }

    pub fn get_api_documentation(&self) -> (r: &str)
        ensures
            r@ == self.config.api_documentation@,
    {
        self.config.api_documentation.as_str()
    }

    /// Replaces the knowledge base with a freshly read one; when it cannot be
    /// read or parsed, the error is returned and the old one stays.
    pub fn reload_knowledge_base(&mut self, source: KnowledgeSource) -> (r: Result<(), String>)
        ensures
            final(self).config == old(self).config,
            match (r, loaded(old(self).config.database_path@, source)) {
                (Ok(_), Ok(v)) => final(self).knowledge_base@ == v,
                (Err(e), Err(m)) => e@ == m && final(self).knowledge_base@
                    == old(self).knowledge_base@,
                _ => false,
            },
    {
        match load_knowledge(self.config.database_path.as_str(), source) {
            Ok(kb) => {
                self.knowledge_base = kb;
                Ok(())
            },
            Err(e) => Err(e),
        }
    }
}

// ---------------------------------------------------------------------------
// When to retrieve
// ---------------------------------------------------------------------------

/// Phrases that ask for information (matched in the lower-cased prompt).
pub open spec fn info_keywords() -> Seq<Seq<char>> {
    seq![
        "что такое"@,
        "что такое"@,
        "кто такой"@,
        "кто такая"@,
        "расскажи о"@,
        "расскажи про"@,
        "объясни"@,
        "определение"@,
        "значение"@,
        "опиши"@,
        "как работает"@,
        "как сделать"@,
        "почему"@,
        "зачем"@,
        "информация о"@,
        "подробности о"@,
        "знать о"@,
        "знаком с"@,
        "как ты относишься"@,
    ]
}

/// Question words a question may start with (in the lower-cased prompt).
pub open spec fn question_words() -> Seq<Seq<char>> {
    seq!["что"@, "кто"@, "где"@, "когда"@, "почему"@, "как"@]
}

/// A prompt seeks information when its lower-cased form contains one of the
/// information phrases, or starts with a question word while the prompt has
/// a question mark.
pub open spec fn seeks_information(prompt: Seq<char>, lower: Seq<char>) -> bool {
    ||| exists|k: int| 0 <= k < info_keywords().len() && contains_seq(lower, info_keywords()[k])
    ||| (exists|k: int|
        0 <= k < question_words().len() && starts_with(lower, question_words()[k]))
        && prompt.contains('?')
}

/// Law: a prompt whose lower-cased form contains any of these phrases seeks
/// information, and so goes through retrieval.
pub proof fn law_information_phrases_seek_information(prompt: Seq<char>, phrase: Seq<char>)
    requires
        seq![
            "что такое"@,
            "кто такой"@,
            "кто такая"@,
            "расскажи о"@,
            "расскажи про"@,
            "объясни"@,
            "определение"@,
            "значение"@,
            "опиши"@,
            "как работает"@,
            "как сделать"@,
            "почему"@,
            "зачем"@,
            "информация о"@,
            "подробности о"@,
            "знать о"@,
            "знаком с"@,
            "как ты относишься"@,
        ].contains(phrase),
        contains_seq(lowercase(prompt), phrase),
    ensures
        seeks_information(prompt, lowercase(prompt)),
{
    let phrases = seq![
        "что такое"@,
        "кто такой"@,
        "кто такая"@,
        "расскажи о"@,
        "расскажи про"@,
        "объясни"@,
        "определение"@,
        "значение"@,
        "опиши"@,
        "как работает"@,
        "как сделать"@,
        "почему"@,
        "зачем"@,
        "информация о"@,
        "подробности о"@,
        "знать о"@,
        "знаком с"@,
        "как ты относишься"@,
    ];
    let j = choose|j: int| 0 <= j < phrases.len() && phrases[j] == phrase;
    assert(info_keywords()[j + 1] == phrases[j]);
    assert(0 <= j + 1 < info_keywords().len() && contains_seq(
        lowercase(prompt),
        info_keywords()[j + 1],
    ));
}

fn info_keyword(k: usize) -> (r: &'static str)
    requires
        k < 19,
    ensures
        r@ == info_keywords()[k as int],
{
    if k == 0 {
        "что такое"
    } else if k == 1 {
        "что такое"
    } else if k == 2 {
        "кто такой"
    } else if k == 3 {
        "кто такая"
    } else if k == 4 {
        "расскажи о"
    } else if k == 5 {
        "расскажи про"
    } else if k == 6 {
        "объясни"
    } else if k == 7 {
        "определение"
    } else if k == 8 {
        "значение"
    } else if k == 9 {
        "опиши"
    } else if k == 10 {
        "как работает"
    } else if k == 11 {
        "как сделать"
    } else if k == 12 {
        "почему"
    } else if k == 13 {
        "зачем"
    } else if k == 14 {
        "информация о"
    } else if k == 15 {
        "подробности о"
    } else if k == 16 {
        "знать о"
    } else if k == 17 {
        "знаком с"
    } else {
        "как ты относишься"
    }
}

fn question_word(k: usize) -> (r: &'static str)
    requires
        k < 6,
    ensures
        r@ == question_words()[k as int],
{
    if k == 0 {
        "что"
    } else if k == 1 {
        "кто"
    } else if k == 2 {
        "где"
    } else if k == 3 {
        "когда"
    } else if k == 4 {
        "почему"
    } else {
        "как"
    }
}

/// Decides from a prompt and its lower-cased form whether the prompt seeks
/// information.
pub fn information_seeking(prompt: &str, prompt_lower: &str) -> (b: bool)
    ensures
        b == seeks_information(prompt@, prompt_lower@),
{
    let lower = chars_of(prompt_lower);
    let mut k: usize = 0;
    while k < 19
        invariant
            k <= 19,
            lower@ == prompt_lower@,
            forall|j: int| 0 <= j < k ==> !contains_seq(prompt_lower@, #[trigger] info_keywords()[j]),
        decreases 19 - k,
    {
        let kw = chars_of(info_keyword(k));
        if crate::text::contains_chars(lower.as_slice(), kw.as_slice()) {
            assert(contains_seq(prompt_lower@, info_keywords()[k as int]));
            return true;
        }
        k = k + 1;
    }
    let mut has_question = false;
    let mut q: usize = 0;
    while q < 6
        invariant
            q <= 6,
            lower@ == prompt_lower@,
            has_question == exists|j: int| 0 <= j < q && starts_with(prompt_lower@, #[trigger] question_words()[j]),
        decreases 6 - q,
    {
        let w = chars_of(question_word(q));
        if occurs_at_exec(lower.as_slice(), w.as_slice(), 0) {
            assert(starts_with(prompt_lower@, question_words()[q as int]));
            has_question = true;
        }
        q = q + 1;
    }
    let p = chars_of(prompt);
    let has_question_mark = crate::text::has_char(p.as_slice(), '?');
    has_question && has_question_mark
}

// ---------------------------------------------------------------------------
// The two turns of a retrieval-augmented answer
// ---------------------------------------------------------------------------

/// `system_prompt` and a blank line before `rest`, or `rest` alone.
pub open spec fn with_system(system_prompt: Option<Seq<char>>, rest: Seq<char>) -> Seq<char> {
    match system_prompt {
        Some(s) => s + "\n\n"@ + rest,
        None => rest,
    }
}

/// The first turn: the operations' documentation and the request.
pub open spec fn rag_request(system_prompt: Option<Seq<char>>, docs: Seq<char>, prompt: Seq<char>) -> Seq<
    char,
> {
    with_system(system_prompt, "API DOCUMENTATION:\n"@ + docs + "\n\nUSER REQUEST:\n"@ + prompt)
}

/// The second turn: what was retrieved, then the request.
pub open spec fn rag_answer_request(
    system_prompt: Option<Seq<char>>,
    context: Seq<char>,
    prompt: Seq<char>,
) -> Seq<char> {
    with_system(
        system_prompt,
        context + "\n\nBased on the above information, please provide a comprehensive answer to: "@
            + prompt,
    )
}

pub open spec fn opt_view(o: Option<&str>) -> Option<Seq<char>> {
    match o {
        Some(s) => Some(s@),
        None => None,
    }
}

fn push_system(out: &mut Vec<char>, system_prompt: Option<&str>)
    ensures
        forall|rest: Seq<char>| #[trigger] with_system(opt_view(system_prompt), rest) == final(out)@.subrange(old(out)@.len() as int, final(out)@.len() as int) + rest,
        final(out)@.subrange(0, old(out)@.len() as int) == old(out)@,
        final(out)@.len() >= old(out)@.len(),
{
    match system_prompt {
        Some(s) => {
            push_str_chars(out, s);
            push_str_chars(out, "\n\n");
        },
        None => {},
    }
    assert(final(out)@.subrange(0, old(out)@.len() as int) =~= old(out)@);
    assert forall|rest: Seq<char>| #[trigger] with_system(opt_view(system_prompt), rest) == final(out)@.subrange(old(out)@.len() as int, final(out)@.len() as int) + rest by {
        match system_prompt {
            Some(s) => {
                assert(final(out)@.subrange(old(out)@.len() as int, final(out)@.len() as int) =~= s@ + "\n\n"@);
            },
            None => {
                assert(final(out)@.subrange(old(out)@.len() as int, final(out)@.len() as int) =~= Seq::<char>::empty());
            },
        }
    }
}

/// The results `execute_operations` yields for the operations a reply asks
/// for.
pub open spec fn executed_results(sys: &RagSystem, response: Seq<char>) -> Seq<
    crate::rag::RagResultView,
> {
    let ops = parsed_operations(response);
    Seq::new(
        sys.executed_count(ops),
        |i: int| operation_result(sys.knowledge_base@, ops[i]),
    )
}

/// After the first turn: when the reply asks for knowledge and something
/// was retrieved, the prompt of the second turn; otherwise the reply stands.
pub open spec fn follow_up(
    sys: &RagSystem,
    system_prompt: Option<Seq<char>>,
    prompt: Seq<char>,
    response: Seq<char>,
) -> Option<Seq<char>> {
    if parsed_operations(response).len() == 0 {
        None
    } else {
        let context = retrieved_context(executed_results(sys, response));
        if trim(context).len() == 0 {
            None
        } else {
            Some(rag_answer_request(system_prompt, context, prompt))
        }
    }
}

impl RagEnabledOllama {
    /// A retrieval-enabled generator over the knowledge base read from the
    /// configured path.
    pub fn new(rag_config: RagConfig, source: KnowledgeSource) -> (r: Result<Self, String>)
        ensures
            match (r, loaded(rag_config.database_path@, source)) {
                (Ok(g), Ok(v)) => g.rag_system.knowledge_base@ == v && g.rag_system.config
                    == rag_config,
                (Err(e), Err(_)) => e@ == "Failed to initialize RAG system"@,
                _ => false,
            },
    {
        match RagSystem::new(rag_config, source) {
            Ok(rag_system) => Ok(Self { rag_system }),
            Err(_) => Err(String::from_str("Failed to initialize RAG system")),
        }
    }

    pub fn reload_knowledge_base(&mut self, source: KnowledgeSource) -> (r: Result<(), String>)
        ensures
            final(self).rag_system.config == old(self).rag_system.config,
            match (r, loaded(old(self).rag_system.config.database_path@, source)) {
                (Ok(_), Ok(v)) => final(self).rag_system.knowledge_base@ == v,
                (Err(e), Err(m)) => e@ == m && final(self).rag_system.knowledge_base@
                    == old(self).rag_system.knowledge_base@,
                _ => false,
            },
    {
        self.rag_system.reload_knowledge_base(source)
    }

    pub fn reload(&mut self, source: KnowledgeSource) -> (r: Result<(), String>)
        ensures
            final(self).rag_system.config == old(self).rag_system.config,
            match (r, loaded(old(self).rag_system.config.database_path@, source)) {
                (Ok(_), Ok(v)) => final(self).rag_system.knowledge_base@ == v,
                (Err(e), Err(m)) => e@ == m && final(self).rag_system.knowledge_base@
                    == old(self).rag_system.knowledge_base@,
                _ => false,
            },
    {
        self.rag_system.reload_knowledge_base(source)
    }

    pub fn get_rag_statistics(&self) -> (r: RagStatistics)
        ensures
            r.total_terms == self.rag_system.knowledge_base@.terms.len(),
            r.total_categories == self.rag_system.knowledge_base@.categories.len(),
            r.total_aliases == self.rag_system.knowledge_base@.aliases.len(),
            r.terms_with_descriptions == count_described(self.rag_system.knowledge_base@.terms),
            r.terms_with_tags == count_tagged(self.rag_system.knowledge_base@.terms),
    {
        self.rag_system.get_statistics()
    }

    /// Whether a prompt should go through retrieval: it contains an
    /// information-seeking phrase, or it starts with a question word and has
    /// a question mark (both tested on the lower-cased prompt).
    pub fn should_use_rag(&self, prompt: &str) -> (b: bool)
        ensures
            b == seeks_information(prompt@, lowercase(prompt@)),
    {
        let prompt_lower = to_lowercase(prompt);
        information_seeking(prompt, prompt_lower.as_str())
    }

    /// The statistics as a message, one labelled line per count.
    pub fn get_stats(&self) -> (r: String)
        ensures
            r@ == stats_message(self.rag_system.get_statistics_spec()),
    {
        let stats = self.rag_system.get_statistics();
        let mut out: Vec<char> = Vec::new();
        push_str_chars(&mut out, "📊 RAG Statistics:\n");
        push_stat_line(&mut out, "Total Terms", stats.total_terms);
        push_stat_line(&mut out, "Total Categories", stats.total_categories);
        push_stat_line(&mut out, "Total Aliases", stats.total_aliases);
        push_stat_line(&mut out, "Terms with Descriptions", stats.terms_with_descriptions);
        push_stat_line(&mut out, "Terms with Tags", stats.terms_with_tags);
        assert(out@ =~= stats_message(self.rag_system.get_statistics_spec()));
        string_of(out.as_slice())
    }

    /// The prompt of the first turn.
    pub fn rag_request_prompt(&self, system_prompt: Option<&str>, prompt: &str) -> (r: String)
        ensures
            r@ == rag_request(
                opt_view(system_prompt),
                self.rag_system.config.api_documentation@,
                prompt@,
            ),
    {
        let mut out: Vec<char> = Vec::new();
        push_system(&mut out, system_prompt);
        let ghost sys_part = out@;
        push_str_chars(&mut out, "API DOCUMENTATION:\n");
        push_str_chars(&mut out, self.rag_system.get_api_documentation());
        push_str_chars(&mut out, "\n\nUSER REQUEST:\n");
        push_str_chars(&mut out, prompt);
        proof {
            let rest = "API DOCUMENTATION:\n"@ + self.rag_system.config.api_documentation@
                + "\n\nUSER REQUEST:\n"@ + prompt@;
            assert(sys_part.subrange(0, 0) =~= Seq::<char>::empty());
            assert(sys_part =~= sys_part.subrange(0, sys_part.len() as int));
            assert(out@ =~= sys_part + rest);
        }
        string_of(out.as_slice())
    }

    /// After the model's first reply: the prompt of the second turn, or none
    /// when the reply asked for nothing or nothing was retrieved (the reply
    /// then stands as the answer).
    pub fn follow_up_prompt(
        &self,
        system_prompt: Option<&str>,
        prompt: &str,
        llm_response: &str,
    ) -> (r: Option<String>)
        ensures
            match (r, follow_up(&self.rag_system, opt_view(system_prompt), prompt@, llm_response@)) {
                (Some(p), Some(q)) => p@ == q,
                (None, None) => true,
                _ => false,
            },
    {
        let sys = &self.rag_system;
        let operations = sys.parse_operations(llm_response);
        if operations.len() == 0 {
            return None;
        }
        let rag_results = sys.execute_operations(operations.as_slice());
        proof {
            let ops = parsed_operations(llm_response@);
            assert(operations@.map_values(|o: crate::rag::RagOperation| o@) =~= ops);
            crate::rag::law_execution_within_limits(sys, ops);
            assert forall|i: int| 0 <= i < rag_results@.len() implies #[trigger] result_views(
                rag_results@,
            )[i] == executed_results(sys, llm_response@)[i] by {
                assert(rag_results@[i]@ == operation_result(sys.knowledge_base@, operations@[i]@));
                assert(operations@[i]@ == ops[i]);
            }
            assert(result_views(rag_results@) =~= executed_results(sys, llm_response@));
        }
        let retrieved = sys.format_retrieved_context(rag_results.as_slice());
        if is_blank_str(retrieved.as_str()) {
            return None;
        }
        let mut out: Vec<char> = Vec::new();
        push_system(&mut out, system_prompt);
        let ghost sys_part = out@;
        push_str_chars(&mut out, retrieved.as_str());
        push_str_chars(
            &mut out,
            "\n\nBased on the above information, please provide a comprehensive answer to: ",
        );
        push_str_chars(&mut out, prompt);
        proof {
            let rest = retrieved@
                + "\n\nBased on the above information, please provide a comprehensive answer to: "@
                + prompt@;
            assert(sys_part =~= sys_part.subrange(0, sys_part.len() as int));
            assert(out@ =~= sys_part + rest);
        }
        Some(string_of(out.as_slice()))
    }
}

// ---------------------------------------------------------------------------
// Statistics message
// ---------------------------------------------------------------------------

pub open spec fn stat_line(label: Seq<char>, value: nat) -> Seq<char> {
    "• "@ + label + ": "@ + decimal(value) + "\n"@
}

pub open spec fn stats_message(s: RagStatistics) -> Seq<char> {
    "📊 RAG Statistics:\n"@ + stat_line("Total Terms"@, s.total_terms as nat) + stat_line(
        "Total Categories"@,
        s.total_categories as nat,
    ) + stat_line("Total Aliases"@, s.total_aliases as nat) + stat_line(
        "Terms with Descriptions"@,
        s.terms_with_descriptions as nat,
    ) + stat_line("Terms with Tags"@, s.terms_with_tags as nat)
}

fn push_stat_line(out: &mut Vec<char>, label: &str, value: usize)
    ensures
        final(out)@ == old(out)@ + stat_line(label@, value as nat),
{
    push_str_chars(out, "• ");
    push_str_chars(out, label);
    push_str_chars(out, ": ");
    push_decimal(out, value as u64);
    push_str_chars(out, "\n");
    assert(final(out)@ =~= old(out)@ + stat_line(label@, value as nat));
}

impl RagSystem {
    /// The statistics `get_statistics` reports.
    pub open spec fn get_statistics_spec(&self) -> RagStatistics {
        RagStatistics {
            total_terms: self.knowledge_base@.terms.len() as usize,
            total_categories: self.knowledge_base@.categories.len() as usize,
            total_aliases: self.knowledge_base@.aliases.len() as usize,
            terms_with_descriptions: count_described(self.knowledge_base@.terms) as usize,
            terms_with_tags: count_tagged(self.knowledge_base@.terms) as usize,
        }
    }
}

/// What the refresh command answers: that the knowledge base was reloaded,
/// or why it was not.
pub fn refresh_message(result: &Result<(), String>) -> (r: String)
    ensures
        r@ == match result {
            Ok(()) => "knwlage base refreshed"@,
            Err(e) => "failed to refres rag, "@ + e@,
        },
{
    match result {
        Ok(()) => String::from_str("knwlage base refreshed"),
        Err(e) => {
            let mut out = crate::text::chars_of("failed to refres rag, ");
            crate::text::push_str_chars(&mut out, e.as_str());
            crate::text::string_of(out.as_slice())
        },
    }
}

} // verus!
