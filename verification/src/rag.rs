//! Retrieval over the knowledge base: the operations a model may ask for,
//! running them against the terms, and limiting how much is retrieved.
use vstd::prelude::*;
use crate::text::{
    byte_len, chars_of, contains_seq, contains_str, lemma_byte_len, lowercase, push_str_chars,
    string_of, to_lowercase, utf8_len,
};

verus! {

broadcast use vstd::seq_lib::group_seq_properties;

// ---------------------------------------------------------------------------
// Data
// ---------------------------------------------------------------------------

/// Where the knowledge base lives and how much a single query may retrieve.
#[derive(Debug, Clone)]
pub struct RagConfig {
    pub database_path: String,
    pub max_terms_per_query: usize,
    pub max_context_length: usize,
    pub api_documentation: String,
}

/// One entry of the knowledge base.
#[derive(Debug, Clone)]
pub struct TermInfo {
    pub definition: String,
    pub description: Option<String>,
    pub category: Option<String>,
    pub related_terms: Option<Vec<String>>,
    pub tags: Option<Vec<String>>,
    pub updated: Option<String>,
}

/// The terms, the categories (name to member terms) and the aliases (alias
/// to term). Each list is keyed by its first component, a string; a key is
/// looked up at its first occurrence. Lists rather than hash maps, because
/// the map specifications available for string keys say too little to
/// reason about lookups; `knowledge_well_formed` states that no key repeats,
/// which a map would give, and loading refuses a knowledge base without it.
#[derive(Debug, Clone)]
pub struct KnowledgeBase {
    pub terms: Vec<(String, TermInfo)>,
    pub categories: Vec<(String, Vec<String>)>,
    pub aliases: Vec<(String, String)>,
}

/// A request a model can make of the knowledge base.
#[derive(Debug, Clone, PartialEq)]
pub enum RagOperation {
    FindTerm(String),
    FindCategory(String),
    FindTag(String),
    SearchTerms(String),
    GetRelated(String),
}

/// What one operation retrieved, and its size in bytes.
#[derive(Debug, Clone)]
pub struct RagResult {
    pub operation: RagOperation,
    pub terms: Vec<(String, TermInfo)>,
    pub context_length: usize,
}

pub struct RagSystem {
    pub config: RagConfig,
    pub knowledge_base: KnowledgeBase,
}

pub struct RagEnabledOllama {
    pub rag_system: RagSystem,
}

// ---------------------------------------------------------------------------
// Views
// ---------------------------------------------------------------------------

pub ghost struct TermInfoView {
    pub definition: Seq<char>,
    pub description: Option<Seq<char>>,
    pub category: Option<Seq<char>>,
    pub related_terms: Option<Seq<Seq<char>>>,
    pub tags: Option<Seq<Seq<char>>>,
    pub updated: Option<Seq<char>>,
}

pub type Entry = (Seq<char>, TermInfoView);

pub ghost struct KnowledgeView {
    pub terms: Seq<Entry>,
    pub categories: Seq<(Seq<char>, Seq<Seq<char>>)>,
    pub aliases: Seq<(Seq<char>, Seq<char>)>,
}

#[derive(Clone, Copy, PartialEq, Eq, Structural, Debug)]
pub enum OperationKind {
    FindTerm,
    FindCategory,
    FindTag,
    SearchTerms,
    GetRelated,
}

pub type OperationView = (OperationKind, Seq<char>);

pub ghost struct RagResultView {
    pub operation: OperationView,
    pub terms: Seq<Entry>,
    pub context_length: nat,
}

pub open spec fn strs(v: Seq<String>) -> Seq<Seq<char>> {
    v.map_values(|s: String| s@)
}

pub open spec fn opt_str(o: Option<String>) -> Option<Seq<char>> {
    match o {
        Some(s) => Some(s@),
        None => None,
    }
}

pub open spec fn opt_strs(o: Option<Vec<String>>) -> Option<Seq<Seq<char>>> {
    match o {
        Some(v) => Some(strs(v@)),
        None => None,
    }
}

impl View for TermInfo {
    type V = TermInfoView;

    open spec fn view(&self) -> TermInfoView {
        TermInfoView {
            definition: self.definition@,
            description: opt_str(self.description),
            category: opt_str(self.category),
            related_terms: opt_strs(self.related_terms),
            tags: opt_strs(self.tags),
            updated: opt_str(self.updated),
        }
    }
}

pub open spec fn entries(v: Seq<(String, TermInfo)>) -> Seq<Entry> {
    v.map_values(|e: (String, TermInfo)| (e.0@, e.1@))
}

impl View for KnowledgeBase {
    type V = KnowledgeView;

    open spec fn view(&self) -> KnowledgeView {
        KnowledgeView {
            terms: entries(self.terms@),
            categories: self.categories@.map_values(
                |c: (String, Vec<String>)| (c.0@, strs(c.1@)),
            ),
            aliases: self.aliases@.map_values(|a: (String, String)| (a.0@, a.1@)),
        }
    }
}

impl View for RagOperation {
    type V = OperationView;

    open spec fn view(&self) -> OperationView {
        match self {
            RagOperation::FindTerm(s) => (OperationKind::FindTerm, s@),
            RagOperation::FindCategory(s) => (OperationKind::FindCategory, s@),
            RagOperation::FindTag(s) => (OperationKind::FindTag, s@),
            RagOperation::SearchTerms(s) => (OperationKind::SearchTerms, s@),
            RagOperation::GetRelated(s) => (OperationKind::GetRelated, s@),
        }
    }
}

impl View for RagResult {
    type V = RagResultView;

    open spec fn view(&self) -> RagResultView {
        RagResultView {
            operation: self.operation@,
            terms: entries(self.terms@),
            context_length: self.context_length as nat,
        }
    }
}

// ---------------------------------------------------------------------------
// Copies
// ---------------------------------------------------------------------------

pub fn copy_string(s: &String) -> (r: String)
    ensures
        r@ == s@,
{
    s.clone()
}

pub fn copy_strings(v: &Vec<String>) -> (r: Vec<String>)
    ensures
        strs(r@) == strs(v@),
{
    let mut r: Vec<String> = Vec::new();
    let mut i: usize = 0;
    while i < v.len()
        invariant
            i <= v@.len(),
            r@.len() == i,
            forall|j: int| 0 <= j < i ==> #[trigger] r@[j]@ == v@[j]@,
        decreases v@.len() - i,
    {
        r.push(copy_string(&v[i]));
        i = i + 1;
    }
    assert(strs(r@) =~= strs(v@));
    r
}

fn copy_opt_string(o: &Option<String>) -> (r: Option<String>)
    ensures
        opt_str(r) == opt_str(*o),
{
    match o {
        Some(s) => Some(copy_string(s)),
        None => None,
    }
}

fn copy_opt_strings(o: &Option<Vec<String>>) -> (r: Option<Vec<String>>)
    ensures
        opt_strs(r) == opt_strs(*o),
{
    match o {
        Some(v) => Some(copy_strings(v)),
        None => None,
    }
}

impl TermInfo {
    pub fn copy(&self) -> (r: TermInfo)
        ensures
            r@ == self@,
    {
        TermInfo {
            definition: copy_string(&self.definition),
            description: copy_opt_string(&self.description),
            category: copy_opt_string(&self.category),
            related_terms: copy_opt_strings(&self.related_terms),
            tags: copy_opt_strings(&self.tags),
            updated: copy_opt_string(&self.updated),
        }
    }
}

impl RagOperation {
    pub fn parameter(&self) -> (r: &String)
        ensures
            r@ == self@.1,
    {
        match self {
            RagOperation::FindTerm(s) => s,
            RagOperation::FindCategory(s) => s,
            RagOperation::FindTag(s) => s,
            RagOperation::SearchTerms(s) => s,
            RagOperation::GetRelated(s) => s,
        }
    }

    pub fn copy(&self) -> (r: RagOperation)
        ensures
            r@ == self@,
    {
        match self {
            RagOperation::FindTerm(s) => RagOperation::FindTerm(copy_string(s)),
            RagOperation::FindCategory(s) => RagOperation::FindCategory(copy_string(s)),
            RagOperation::FindTag(s) => RagOperation::FindTag(copy_string(s)),
            RagOperation::SearchTerms(s) => RagOperation::SearchTerms(copy_string(s)),
            RagOperation::GetRelated(s) => RagOperation::GetRelated(copy_string(s)),
        }
    }
}

// ---------------------------------------------------------------------------
// Lookup by key
// ---------------------------------------------------------------------------

/// The first index whose key is `key`.
pub open spec fn find_key<V>(entries: Seq<(Seq<char>, V)>, key: Seq<char>) -> Option<int>
    decreases entries.len(),
{
    if entries.len() == 0 {
        None
    } else {
        match find_key(entries.drop_last(), key) {
            Some(i) => Some(i),
            None => if entries.last().0 == key {
                Some(entries.len() - 1)
            } else {
                None
            },
        }
    }
}

pub proof fn lemma_find_key_some<V>(entries: Seq<(Seq<char>, V)>, key: Seq<char>)
    ensures
        find_key(entries, key) matches Some(i) ==> 0 <= i < entries.len() && entries[i].0
            == key,
        find_key(entries, key) is None ==> forall|j: int|
            0 <= j < entries.len() ==> #[trigger] entries[j].0 != key,
    decreases entries.len(),
{
    if entries.len() > 0 {
        lemma_find_key_some(entries.drop_last(), key);
        if find_key(entries, key) is None {
            assert forall|j: int| 0 <= j < entries.len() implies #[trigger] entries[j].0
                != key by {
                if j < entries.len() - 1 {
                    assert(entries[j] == entries.drop_last()[j]);
                }
            }
        }
    }
}

/// Once a prefix holds the key, the whole sequence finds it at the same place.
proof fn lemma_find_key_prefix<V>(entries: Seq<(Seq<char>, V)>, key: Seq<char>, k: int)
    requires
        0 <= k <= entries.len(),
        find_key(entries.take(k), key) is Some,
    ensures
        find_key(entries, key) == find_key(entries.take(k), key),
    decreases entries.len() - k,
{
    if k < entries.len() {
        assert(entries.take(k + 1).drop_last() =~= entries.take(k));
        lemma_find_key_prefix(entries, key, k + 1);
    } else {
        assert(entries.take(k) =~= entries);
    }
}

proof fn lemma_find_key_step<V>(entries: Seq<(Seq<char>, V)>, key: Seq<char>, i: int)
    requires
        0 <= i < entries.len(),
        find_key(entries.take(i), key) is None,
    ensures
        entries[i].0 == key ==> find_key(entries, key) == Some(i),
        entries[i].0 != key ==> find_key(entries.take(i + 1), key) is None,
{
    assert(entries.take(i + 1).drop_last() =~= entries.take(i));
    if entries[i].0 == key {
        lemma_find_key_prefix(entries, key, i + 1);
    }
}

fn lookup_term(terms: &Vec<(String, TermInfo)>, key: &String) -> (r: Option<usize>)
    ensures
        r matches Some(i) ==> find_key(entries(terms@), key@) == Some(i as int) && i
            < terms@.len(),
        r is None ==> find_key(entries(terms@), key@) is None,
{
    let ghost es = entries(terms@);
    let mut i: usize = 0;
    while i < terms.len()
        invariant
            i <= terms@.len(),
            es == entries(terms@),
            find_key(es.take(i as int), key@) is None,
        decreases terms@.len() - i,
    {
        proof {
            lemma_find_key_step(es, key@, i as int);
        }
        if terms[i].0 == *key {
            return Some(i);
        }
        i = i + 1;
    }
    assert(es.take(i as int) =~= es);
    None
}

fn lookup_category(cats: &Vec<(String, Vec<String>)>, key: &String) -> (r: Option<usize>)
    ensures
        r matches Some(i) ==> find_key(
            cats@.map_values(|c: (String, Vec<String>)| (c.0@, strs(c.1@))),
            key@,
        ) == Some(i as int) && i < cats@.len(),
        r is None ==> find_key(
            cats@.map_values(|c: (String, Vec<String>)| (c.0@, strs(c.1@))),
            key@,
        ) is None,
{
    let ghost es = cats@.map_values(|c: (String, Vec<String>)| (c.0@, strs(c.1@)));
    let mut i: usize = 0;
    while i < cats.len()
        invariant
            i <= cats@.len(),
            es == cats@.map_values(|c: (String, Vec<String>)| (c.0@, strs(c.1@))),
            find_key(es.take(i as int), key@) is None,
        decreases cats@.len() - i,
    {
        proof {
            lemma_find_key_step(es, key@, i as int);
        }
        if cats[i].0 == *key {
            return Some(i);
        }
        i = i + 1;
    }
    assert(es.take(i as int) =~= es);
    None
}

fn lookup_alias(aliases: &Vec<(String, String)>, key: &String) -> (r: Option<usize>)
    ensures
        r matches Some(i) ==> find_key(
            aliases@.map_values(|a: (String, String)| (a.0@, a.1@)),
            key@,
        ) == Some(i as int) && i < aliases@.len(),
        r is None ==> find_key(aliases@.map_values(|a: (String, String)| (a.0@, a.1@)), key@)
            is None,
{
    let ghost es = aliases@.map_values(|a: (String, String)| (a.0@, a.1@));
    let mut i: usize = 0;
    while i < aliases.len()
        invariant
            i <= aliases@.len(),
            es == aliases@.map_values(|a: (String, String)| (a.0@, a.1@)),
            find_key(es.take(i as int), key@) is None,
        decreases aliases@.len() - i,
    {
        proof {
            lemma_find_key_step(es, key@, i as int);
        }
        if aliases[i].0 == *key {
            return Some(i);
        }
        i = i + 1;
    }
    assert(es.take(i as int) =~= es);
    None
}

// ---------------------------------------------------------------------------
// Well-formed knowledge
// ---------------------------------------------------------------------------

/// No key occurs twice among `entries`.
pub open spec fn keys_distinct<V>(entries: Seq<(Seq<char>, V)>) -> bool {
    forall|i: int, j: int|
        #![trigger entries[i], entries[j]]
        0 <= i < j < entries.len() ==> entries[i].0 != entries[j].0
}

/// Every term, category and alias is named once, as in the maps the file is
/// read into.
pub open spec fn knowledge_well_formed(kb: KnowledgeView) -> bool {
    &&& keys_distinct(kb.terms)
    &&& keys_distinct(kb.categories)
    &&& keys_distinct(kb.aliases)
}

/// Keys are distinct exactly when each is first found where it stands.
proof fn lemma_keys_distinct_by_lookup<V>(es: Seq<(Seq<char>, V)>)
    ensures
        keys_distinct(es) <==> forall|k: int|
            0 <= k < es.len() ==> find_key(es, #[trigger] es[k].0) == Some(k),
{
    if keys_distinct(es) {
        assert forall|k: int| 0 <= k < es.len() implies find_key(es, #[trigger] es[k].0) == Some(
            k,
        ) by {
            lemma_find_key_some(es, es[k].0);
            if let Some(m) = find_key(es, es[k].0) {
                if m < k {
                    assert(es[m].0 != es[k].0);
                } else if k < m {
                    assert(es[k].0 != es[m].0);
                }
            }
        }
    }
    if forall|k: int| 0 <= k < es.len() ==> find_key(es, #[trigger] es[k].0) == Some(k) {
        assert forall|i: int, j: int| 0 <= i < j < es.len() implies es[i].0 != es[j].0 by {
            if es[i].0 == es[j].0 {
                assert(find_key(es, es[i].0) == Some(i));
                assert(find_key(es, es[j].0) == Some(j));
            }
        }
    }
}

fn term_keys_distinct(terms: &Vec<(String, TermInfo)>) -> (b: bool)
    ensures
        b == keys_distinct(entries(terms@)),
{
    let ghost es = entries(terms@);
    proof {
        lemma_keys_distinct_by_lookup(es);
    }
    let mut i: usize = 0;
    while i < terms.len()
        invariant
            i <= terms@.len(),
            es == entries(terms@),
            keys_distinct(es) <==> forall|k: int|
                0 <= k < es.len() ==> find_key(es, #[trigger] es[k].0) == Some(k),
            forall|k: int| 0 <= k < i ==> find_key(es, #[trigger] es[k].0) == Some(k),
        decreases terms@.len() - i,
    {
        proof {
            lemma_find_key_some(es, es[i as int].0);
        }
        match lookup_term(terms, &terms[i].0) {
            Some(j) => {
                if j != i {
                    return false;
                }
            },
            None => {
                assert(es[i as int].0 == terms@[i as int].0@);
                return false;
            },
        }
        i = i + 1;
    }
    true
}

fn category_keys_distinct(cats: &Vec<(String, Vec<String>)>) -> (b: bool)
    ensures
        b == keys_distinct(cats@.map_values(|c: (String, Vec<String>)| (c.0@, strs(c.1@)))),
{
    let ghost es = cats@.map_values(|c: (String, Vec<String>)| (c.0@, strs(c.1@)));
    proof {
        lemma_keys_distinct_by_lookup(es);
    }
    let mut i: usize = 0;
    while i < cats.len()
        invariant
            i <= cats@.len(),
            es == cats@.map_values(|c: (String, Vec<String>)| (c.0@, strs(c.1@))),
            keys_distinct(es) <==> forall|k: int|
                0 <= k < es.len() ==> find_key(es, #[trigger] es[k].0) == Some(k),
            forall|k: int| 0 <= k < i ==> find_key(es, #[trigger] es[k].0) == Some(k),
        decreases cats@.len() - i,
    {
        proof {
            lemma_find_key_some(es, es[i as int].0);
        }
        match lookup_category(cats, &cats[i].0) {
            Some(j) => {
                if j != i {
                    return false;
                }
            },
            None => {
                assert(es[i as int].0 == cats@[i as int].0@);
                return false;
            },
        }
        i = i + 1;
    }
    true
}

fn alias_keys_distinct(aliases: &Vec<(String, String)>) -> (b: bool)
    ensures
        b == keys_distinct(aliases@.map_values(|a: (String, String)| (a.0@, a.1@))),
{
    let ghost es = aliases@.map_values(|a: (String, String)| (a.0@, a.1@));
    proof {
        lemma_keys_distinct_by_lookup(es);
    }
    let mut i: usize = 0;
    while i < aliases.len()
        invariant
            i <= aliases@.len(),
            es == aliases@.map_values(|a: (String, String)| (a.0@, a.1@)),
            keys_distinct(es) <==> forall|k: int|
                0 <= k < es.len() ==> find_key(es, #[trigger] es[k].0) == Some(k),
            forall|k: int| 0 <= k < i ==> find_key(es, #[trigger] es[k].0) == Some(k),
        decreases aliases@.len() - i,
    {
        proof {
            lemma_find_key_some(es, es[i as int].0);
        }
        match lookup_alias(aliases, &aliases[i].0) {
            Some(j) => {
                if j != i {
                    return false;
                }
            },
            None => {
                assert(es[i as int].0 == aliases@[i as int].0@);
                return false;
            },
        }
        i = i + 1;
    }
    true
}

impl KnowledgeBase {
    /// Whether every term, category and alias is named once.
    pub fn is_well_formed(&self) -> (b: bool)
        ensures
            b == knowledge_well_formed(self@),
    {
        term_keys_distinct(&self.terms) && category_keys_distinct(&self.categories)
            && alias_keys_distinct(&self.aliases)
    }
}

// ---------------------------------------------------------------------------
// Selecting terms
// ---------------------------------------------------------------------------

/// How an entry is tested against a (lower-cased) query.
#[derive(Clone, Copy, PartialEq, Eq, Structural)]
pub enum Selection {
    /// The term's name contains the query.
    NameContains,
    /// One of the term's tags, lower-cased, contains the query.
    TagContains,
    /// The term's name, definition or description, lower-cased, contains the
    /// query.
    TextContains,
}

pub open spec fn any_contains(items: Seq<Seq<char>>, q: Seq<char>) -> bool {
    exists|k: int| 0 <= k < items.len() && contains_seq(lowercase(#[trigger] items[k]), q)
}

pub open spec fn selects(how: Selection, e: Entry, q: Seq<char>) -> bool {
    match how {
        Selection::NameContains => contains_seq(e.0, q),
        Selection::TagContains => match e.1.tags {
            Some(tags) => any_contains(tags, q),
            None => false,
        },
        Selection::TextContains => {
            ||| contains_seq(lowercase(e.0), q)
            ||| contains_seq(lowercase(e.1.definition), q)
            ||| (e.1.description matches Some(d) && contains_seq(lowercase(d), q))
        },
    }
}

/// The entries that `how` selects for `q`, in knowledge-base order.
pub open spec fn select(es: Seq<Entry>, how: Selection, q: Seq<char>) -> Seq<Entry>
    decreases es.len(),
{
    if es.len() == 0 {
        Seq::<Entry>::empty()
    } else {
        let prev = select(es.drop_last(), how, q);
        if selects(how, es.last(), q) {
            prev.push(es.last())
        } else {
            prev
        }
    }
}

/// The named terms that exist, in the order named, each with its entry.
pub open spec fn members(terms: Seq<Entry>, names: Seq<Seq<char>>) -> Seq<Entry>
    decreases names.len(),
{
    if names.len() == 0 {
        Seq::<Entry>::empty()
    } else {
        let prev = members(terms, names.drop_last());
        match find_key(terms, names.last()) {
            Some(i) => prev.push((names.last(), terms[i].1)),
            None => prev,
        }
    }
}

fn any_tag_contains(tags: &Vec<String>, q: &String) -> (b: bool)
    ensures
        b == any_contains(strs(tags@), q@),
{
    let ghost ts = strs(tags@);
    let mut k: usize = 0;
    while k < tags.len()
        invariant
            k <= tags@.len(),
            ts == strs(tags@),
            forall|j: int| 0 <= j < k ==> !contains_seq(lowercase(#[trigger] ts[j]), q@),
        decreases tags@.len() - k,
    {
        let lower = to_lowercase(tags[k].as_str());
        if contains_str(lower.as_str(), q.as_str()) {
            assert(contains_seq(lowercase(ts[k as int]), q@));
            return true;
        }
        k = k + 1;
    }
    false
}

fn selects_exec(how: Selection, name: &String, info: &TermInfo, q: &String) -> (b: bool)
    ensures
        b == selects(how, (name@, info@), q@),
{
    match how {
        Selection::NameContains => contains_str(name.as_str(), q.as_str()),
        Selection::TagContains => match &info.tags {
            Some(tags) => any_tag_contains(tags, q),
            None => false,
        },
        Selection::TextContains => {
            let n = to_lowercase(name.as_str());
            if contains_str(n.as_str(), q.as_str()) {
                return true;
            }
            let d = to_lowercase(info.definition.as_str());
            if contains_str(d.as_str(), q.as_str()) {
                return true;
            }
            match &info.description {
                Some(desc) => {
                    let l = to_lowercase(desc.as_str());
                    contains_str(l.as_str(), q.as_str())
                },
                None => false,
            }
        },
    }
}

fn select_exec(terms: &Vec<(String, TermInfo)>, how: Selection, q: &String) -> (r: Vec<
    (String, TermInfo),
>)
    ensures
        entries(r@) == select(entries(terms@), how, q@),
{
    let ghost es = entries(terms@);
    let mut r: Vec<(String, TermInfo)> = Vec::new();
    let mut i: usize = 0;
    while i < terms.len()
        invariant
            i <= terms@.len(),
            es == entries(terms@),
            entries(r@) == select(es.take(i as int), how, q@),
        decreases terms@.len() - i,
    {
        assert(es.take(i + 1).drop_last() =~= es.take(i as int));
        if selects_exec(how, &terms[i].0, &terms[i].1, q) {
            r.push((copy_string(&terms[i].0), terms[i].1.copy()));
        }
        i = i + 1;
        assert(entries(r@) =~= select(es.take(i as int), how, q@));
    }
    assert(es.take(i as int) =~= es);
    r
}

fn members_exec(terms: &Vec<(String, TermInfo)>, names: &Vec<String>) -> (r: Vec<
    (String, TermInfo),
>)
    ensures
        entries(r@) == members(entries(terms@), strs(names@)),
{
    let ghost es = entries(terms@);
    let ghost ns = strs(names@);
    let mut r: Vec<(String, TermInfo)> = Vec::new();
    let mut i: usize = 0;
    while i < names.len()
        invariant
            i <= names@.len(),
            es == entries(terms@),
            ns == strs(names@),
            entries(r@) == members(es, ns.take(i as int)),
        decreases names@.len() - i,
    {
        assert(ns.take(i + 1).drop_last() =~= ns.take(i as int));
        assert(ns.take(i + 1).last() == names@[i as int]@);
        match lookup_term(terms, &names[i]) {
            Some(j) => {
                r.push((copy_string(&names[i]), terms[j].1.copy()));
            },
            None => {},
        }
        i = i + 1;
        assert(entries(r@) =~= members(es, ns.take(i as int)));
    }
    assert(ns.take(i as int) =~= ns);
    r
}

// ---------------------------------------------------------------------------
// Operations
// ---------------------------------------------------------------------------

/// What `find_term` retrieves for the lower-cased query `n`: the term
/// itself, else the term an alias names, else every term whose name
/// contains the query.
pub open spec fn found_term(kb: KnowledgeView, n: Seq<char>) -> Seq<Entry> {
    match find_key(kb.terms, n) {
        Some(i) => seq![(n, kb.terms[i].1)],
        None => {
            let partial = select(kb.terms, Selection::NameContains, n);
            match find_key(kb.aliases, n) {
                Some(a) => match find_key(kb.terms, kb.aliases[a].1) {
                    Some(i) => seq![(kb.aliases[a].1, kb.terms[i].1)],
                    None => partial,
                },
                None => partial,
            }
        },
    }
}

/// What `find_category` retrieves for the lower-cased category `n`: the
/// category's existing members.
pub open spec fn found_category(kb: KnowledgeView, n: Seq<char>) -> Seq<Entry> {
    match find_key(kb.categories, n) {
        Some(c) => members(kb.terms, kb.categories[c].1),
        None => Seq::<Entry>::empty(),
    }
}

/// What `get_related` retrieves for the lower-cased term `n`: the existing
/// terms it lists as related.
pub open spec fn found_related(kb: KnowledgeView, n: Seq<char>) -> Seq<Entry> {
    match find_key(kb.terms, n) {
        Some(i) => match kb.terms[i].1.related_terms {
            Some(related) => members(kb.terms, related),
            None => Seq::<Entry>::empty(),
        },
        None => Seq::<Entry>::empty(),
    }
}

/// The terms an operation of kind `kind` retrieves for the lower-cased
/// parameter `n`.
pub open spec fn retrieved_by(kb: KnowledgeView, kind: OperationKind, n: Seq<char>) -> Seq<Entry> {
    match kind {
        OperationKind::FindTerm => found_term(kb, n),
        OperationKind::FindCategory => found_category(kb, n),
        OperationKind::FindTag => select(kb.terms, Selection::TagContains, n),
        OperationKind::SearchTerms => select(kb.terms, Selection::TextContains, n),
        OperationKind::GetRelated => found_related(kb, n),
    }
}

/// The terms an operation retrieves: looked up by its lower-cased
/// parameter.
pub open spec fn retrieved(kb: KnowledgeView, op: OperationView) -> Seq<Entry> {
    retrieved_by(kb, op.0, lowercase(op.1))
}

/// Bytes an entry adds to the prompt: name, definition and description.
pub open spec fn entry_size(e: Entry) -> nat {
    utf8_len(e.0) + utf8_len(e.1.definition) + match e.1.description {
        Some(d) => utf8_len(d),
        None => 0,
    }
}

pub open spec fn context_size(es: Seq<Entry>) -> nat
    decreases es.len(),
{
    if es.len() == 0 {
        0
    } else {
        context_size(es.drop_last()) + entry_size(es.last())
    }
}

/// The size counted for a result: `context_size`, which cannot exceed the
/// address space for texts held in memory; the count saturates there.
pub open spec fn capped(n: nat) -> nat {
    if n <= usize::MAX {
        n
    } else {
        usize::MAX as nat
    }
}

proof fn lemma_capped_add(a: nat, b: nat)
    ensures
        capped(capped(a) + capped(b)) == capped(a + b),
        capped(a) <= usize::MAX,
{
}

/// What executing `op` against `kb` yields.
pub open spec fn operation_result(kb: KnowledgeView, op: OperationView) -> RagResultView {
    RagResultView {
        operation: op,
        terms: retrieved(kb, op),
        context_length: capped(context_size(retrieved(kb, op))),
    }
}

impl RagSystem {
    fn find_term(&self, normalized_term: &String) -> (r: Vec<(String, TermInfo)>)
        ensures
            entries(r@) == found_term(self.knowledge_base@, normalized_term@),
    {
        let kb = &self.knowledge_base;
        match lookup_term(&kb.terms, normalized_term) {
            Some(i) => {
                let mut r: Vec<(String, TermInfo)> = Vec::new();
                r.push((copy_string(normalized_term), kb.terms[i].1.copy()));
                assert(entries(r@) =~= found_term(kb@, normalized_term@));
                return r;
            },
            None => {},
        }
        match lookup_alias(&kb.aliases, normalized_term) {
            Some(a) => {
                match lookup_term(&kb.terms, &kb.aliases[a].1) {
                    Some(i) => {
                        let mut r: Vec<(String, TermInfo)> = Vec::new();
                        r.push((copy_string(&kb.aliases[a].1), kb.terms[i].1.copy()));
                        assert(entries(r@) =~= found_term(kb@, normalized_term@));
                        return r;
                    },
                    None => {},
                }
            },
            None => {},
        }
        select_exec(&kb.terms, Selection::NameContains, normalized_term)
    }

    fn find_category(&self, normalized_category: &String) -> (r: Vec<(String, TermInfo)>)
        ensures
            entries(r@) == found_category(self.knowledge_base@, normalized_category@),
    {
        let kb = &self.knowledge_base;
        match lookup_category(&kb.categories, normalized_category) {
            Some(c) => members_exec(&kb.terms, &kb.categories[c].1),
            None => Vec::new(),
        }
    }

    fn get_related(&self, normalized_term: &String) -> (r: Vec<(String, TermInfo)>)
        ensures
            entries(r@) == found_related(self.knowledge_base@, normalized_term@),
    {
        let kb = &self.knowledge_base;
        match lookup_term(&kb.terms, normalized_term) {
            Some(i) => match &kb.terms[i].1.related_terms {
                Some(related) => members_exec(&kb.terms, related),
                None => Vec::new(),
            },
            None => Vec::new(),
        }
    }

    /// The terms an operation retrieves, given its parameter lower-cased.
    pub fn retrieve(&self, operation: &RagOperation, normalized: &String) -> (r: Vec<
        (String, TermInfo),
    >)
        ensures
            entries(r@) == retrieved_by(self.knowledge_base@, operation@.0, normalized@),
    {
        match operation {
            RagOperation::FindTerm(_) => self.find_term(normalized),
            RagOperation::FindCategory(_) => self.find_category(normalized),
            RagOperation::FindTag(_) => select_exec(
                &self.knowledge_base.terms,
                Selection::TagContains,
                normalized,
            ),
            RagOperation::SearchTerms(_) => select_exec(
                &self.knowledge_base.terms,
                Selection::TextContains,
                normalized,
            ),
            RagOperation::GetRelated(_) => self.get_related(normalized),
        }
    }

    fn calculate_context_length(&self, terms: &Vec<(String, TermInfo)>) -> (n: usize)
        ensures
            n == capped(context_size(entries(terms@))),
    {
        let ghost es = entries(terms@);
        let mut total: usize = 0;
        let mut i: usize = 0;
        while i < terms.len()
            invariant
                i <= terms@.len(),
                es == entries(terms@),
                total == capped(context_size(es.take(i as int))),
            decreases terms@.len() - i,
        {
            assert(es.take(i + 1).drop_last() =~= es.take(i as int));
            assert(es.take(i + 1).last() == (terms@[i as int].0@, terms@[i as int].1@));
            let name_len = byte_len(terms[i].0.as_str());
            let def_len = byte_len(terms[i].1.definition.as_str());
            proof {
                lemma_byte_len(terms@[i as int].0@);
                lemma_byte_len(terms@[i as int].1.definition@);
                lemma_capped_add(name_len as nat, def_len as nat);
            }
            let mut length = name_len.saturating_add(def_len);
            match &terms[i].1.description {
                Some(d) => {
                    proof {
                        lemma_byte_len(d@);
                        lemma_capped_add((name_len + def_len) as nat, utf8_len(d@));
                        assert(es[i as int].1.description == Some(d@));
                    }
                    length = length.saturating_add(byte_len(d.as_str()));
                },
                None => {
                    assert(es[i as int].1.description is None);
                },
            }
            assert(length == capped(entry_size(es[i as int])));
            proof {
                lemma_capped_add(context_size(es.take(i as int)), entry_size(es[i as int]));
            }
            total = total.saturating_add(length);
            i = i + 1;
        }
        assert(es.take(i as int) =~= es);
        total
    }

    /// Runs one operation against the knowledge base. Every lookup is by the
    /// lower-cased parameter; the result carries a copy of the operation, the
    /// terms found and their size in bytes.
    pub fn execute_operation(&self, operation: &RagOperation) -> (r: RagResult)
        ensures
            r@ == operation_result(self.knowledge_base@, operation@),
    {
        let normalized = to_lowercase(operation.parameter().as_str());
        let terms = self.retrieve(operation, &normalized);
        let context_length = self.calculate_context_length(&terms);
        RagResult { operation: operation.copy(), terms, context_length }
    }

    /// How many of `ops` `execute_operations` runs, having run `i` of them
    /// with `total` bytes retrieved so far.
    pub open spec fn executed_from(&self, ops: Seq<OperationView>, i: nat, total: nat) -> nat
        decreases ops.len() - i,
    {
        if i >= ops.len() || i >= self.config.max_terms_per_query {
            i
        } else {
            let size = operation_result(self.knowledge_base@, ops[i as int]).context_length;
            if total + size > self.config.max_context_length {
                i
            } else {
                self.executed_from(ops, i + 1, total + size)
            }
        }
    }

    /// The number of operations `execute_operations` runs: it stops before
    /// the first that would go over the number of results allowed or would
    /// push the retrieved bytes over the context limit.
    pub open spec fn executed_count(&self, ops: Seq<OperationView>) -> nat {
        self.executed_from(ops, 0, 0)
    }

    /// Runs operations in order until either limit of the configuration
    /// would be exceeded; returns the results of those that ran.
    pub fn execute_operations(&self, operations: &[RagOperation]) -> (r: Vec<RagResult>)
        ensures
            r@.len() == self.executed_count(operations@.map_values(|o: RagOperation| o@)),
            forall|i: int|
                0 <= i < r@.len() ==> #[trigger] r@[i]@ == operation_result(
                    self.knowledge_base@,
                    operations@[i]@,
                ),
    {
        let ghost ops = operations@.map_values(|o: RagOperation| o@);
        let mut results: Vec<RagResult> = Vec::new();
        let mut total_context_length: usize = 0;
        let mut i: usize = 0;
        while i < operations.len()
            invariant_except_break
                i <= operations@.len(),
                results@.len() == i,
                ops == operations@.map_values(|o: RagOperation| o@),
                total_context_length <= self.config.max_context_length,
                self.executed_from(ops, i as nat, total_context_length as nat)
                    == self.executed_count(ops),
                forall|k: int|
                    0 <= k < results@.len() ==> #[trigger] results@[k]@ == operation_result(
                        self.knowledge_base@,
                        operations@[k]@,
                    ),
            ensures
                results@.len() == self.executed_count(ops),
                forall|k: int|
                    0 <= k < results@.len() ==> #[trigger] results@[k]@ == operation_result(
                        self.knowledge_base@,
                        operations@[k]@,
                    ),
            decreases operations@.len() - i,
        {
            if results.len() >= self.config.max_terms_per_query {
                break;
            }
            let result = self.execute_operation(&operations[i]);
            assert(ops[i as int] == operations@[i as int]@);
            if result.context_length > self.config.max_context_length - total_context_length {
                break;
            }
            total_context_length = total_context_length + result.context_length;
            results.push(result);
            i = i + 1;
        }
        results
    }
}

} // verus!

verus! {

/// Bytes retrieved by the first `k` operations.
pub open spec fn retrieved_size(kb: KnowledgeView, ops: Seq<OperationView>, k: nat) -> nat
    decreases k,
{
    if k == 0 {
        0
    } else {
        retrieved_size(kb, ops, (k - 1) as nat) + operation_result(
            kb,
            ops[k - 1],
        ).context_length
    }
}

proof fn lemma_executed_from(sys: &RagSystem, ops: Seq<OperationView>, i: nat, total: nat)
    requires
        i <= ops.len(),
        i <= sys.config.max_terms_per_query,
        total == retrieved_size(sys.knowledge_base@, ops, i),
        total <= sys.config.max_context_length,
    ensures
        i <= sys.executed_from(ops, i, total) <= ops.len(),
        sys.executed_from(ops, i, total) <= sys.config.max_terms_per_query,
        retrieved_size(sys.knowledge_base@, ops, sys.executed_from(ops, i, total))
            <= sys.config.max_context_length,
    decreases ops.len() - i,
{
    if i < ops.len() && i < sys.config.max_terms_per_query {
        let size = operation_result(sys.knowledge_base@, ops[i as int]).context_length;
        if total + size <= sys.config.max_context_length {
            lemma_executed_from(sys, ops, i + 1, total + size);
        }
    }
}

/// Law: however many operations a model asks for, the results never number
/// more than `max_terms_per_query` and never hold more than
/// `max_context_length` bytes in all.
pub proof fn law_execution_within_limits(sys: &RagSystem, ops: Seq<OperationView>)
    ensures
        sys.executed_count(ops) <= sys.config.max_terms_per_query,
        sys.executed_count(ops) <= ops.len(),
        retrieved_size(sys.knowledge_base@, ops, sys.executed_count(ops))
            <= sys.config.max_context_length,
{
    lemma_executed_from(sys, ops, 0, 0);
}

/// What `select` keeps is taken from `es`, in order, so distinct keys stay
/// distinct.
proof fn lemma_select_from(es: Seq<Entry>, how: Selection, q: Seq<char>)
    ensures
        forall|k: int|
            0 <= k < select(es, how, q).len() ==> exists|m: int|
                0 <= m < es.len() && #[trigger] select(es, how, q)[k] == es[m],
        keys_distinct(es) ==> keys_distinct(select(es, how, q)),
    decreases es.len(),
{
    if es.len() > 0 {
        let init = es.drop_last();
        lemma_select_from(init, how, q);
        let prev = select(init, how, q);
        assert forall|k: int| 0 <= k < prev.len() implies exists|m: int|
            0 <= m < es.len() && #[trigger] prev[k] == es[m] by {
            let m = choose|m: int| 0 <= m < init.len() && prev[k] == init[m];
            assert(init[m] == es[m]);
        }
        if keys_distinct(es) {
            assert(keys_distinct(init)) by {
                assert forall|i: int, j: int| 0 <= i < j < init.len() implies init[i].0
                    != init[j].0 by {
                    assert(init[i] == es[i] && init[j] == es[j]);
                }
            }
            if selects(how, es.last(), q) {
                let r = prev.push(es.last());
                assert forall|i: int, j: int| 0 <= i < j < r.len() implies r[i].0 != r[j].0 by {
                    if j == prev.len() {
                        let m = choose|m: int| 0 <= m < init.len() && prev[i] == init[m];
                        assert(init[m] == es[m]);
                        assert(es[m].0 != es[es.len() - 1].0);
                    } else {
                        assert(r[i] == prev[i] && r[j] == prev[j]);
                    }
                }
            }
        }
    }
}

/// An entry is selected exactly when it is in the list and passes the test.
proof fn lemma_select_contains(es: Seq<Entry>, how: Selection, q: Seq<char>)
    ensures
        forall|e: Entry| #[trigger]
            select(es, how, q).contains(e) <==> es.contains(e) && selects(how, e, q),
    decreases es.len(),
{
    if es.len() == 0 {
        assert forall|e: Entry| #[trigger]
            select(es, how, q).contains(e) <==> es.contains(e) && selects(how, e, q) by {
            assert(select(es, how, q).len() == 0);
        }
    } else {
        let init = es.drop_last();
        let last = es.last();
        lemma_select_contains(init, how, q);
        let prev = select(init, how, q);
        assert forall|e: Entry| #[trigger]
            select(es, how, q).contains(e) <==> es.contains(e) && selects(how, e, q) by {
            if select(es, how, q).contains(e) {
                let j = choose|j: int| 0 <= j < select(es, how, q).len() && select(es, how, q)[j]
                    == e;
                if j < prev.len() {
                    assert(select(es, how, q)[j] == prev[j]);
                    assert(prev.contains(e));
                    let m = choose|m: int| 0 <= m < init.len() && init[m] == e;
                    assert(es[m] == e);
                } else {
                    assert(e == last);
                    assert(es[es.len() - 1] == e);
                }
            }
            if es.contains(e) && selects(how, e, q) {
                let m = choose|m: int| 0 <= m < es.len() && es[m] == e;
                if m < es.len() - 1 {
                    assert(init[m] == e);
                    assert(init.contains(e));
                    assert(prev.contains(e));
                    let j = choose|j: int| 0 <= j < prev.len() && prev[j] == e;
                    if selects(how, last, q) {
                        assert(select(es, how, q) == prev.push(last));
                        assert(prev.push(last)[j] == e);
                    } else {
                        assert(select(es, how, q) == prev);
                    }
                    assert(select(es, how, q)[j] == e);
                } else {
                    assert(select(es, how, q) == prev.push(last));
                    assert(select(es, how, q)[prev.len() as int] == e);
                }
            }
        }
    }
}

/// Law: searching the terms for `q` retrieves exactly the terms whose name,
/// definition or description contains `q` once both are lower-cased.
pub proof fn law_search_terms_ignores_case(kb: KnowledgeView, q: Seq<char>)
    ensures
        forall|e: Entry| #[trigger]
            retrieved(kb, (OperationKind::SearchTerms, q)).contains(e) <==> kb.terms.contains(e) && (
            contains_seq(lowercase(e.0), lowercase(q)) || contains_seq(
                lowercase(e.1.definition),
                lowercase(q),
            ) || (e.1.description is Some && contains_seq(
                lowercase(e.1.description->0),
                lowercase(q),
            ))),
{
    lemma_select_contains(kb.terms, Selection::TextContains, lowercase(q));
}

/// Law: listing the terms tagged with `t` retrieves exactly the terms one
/// of whose tags contains `t` once both are lower-cased.
pub proof fn law_find_tag_ignores_case(kb: KnowledgeView, t: Seq<char>)
    ensures
        forall|e: Entry| #[trigger]
            retrieved(kb, (OperationKind::FindTag, t)).contains(e) <==> kb.terms.contains(e) && (
            e.1.tags is Some && exists|k: int|
                0 <= k < e.1.tags->0.len() && contains_seq(
                    lowercase(#[trigger] e.1.tags->0[k]),
                    lowercase(t),
                )),
{
    lemma_select_contains(kb.terms, Selection::TagContains, lowercase(t));
}

/// Law: over a well-formed knowledge base, looking a term up, listing the
/// terms with a tag and searching the terms each name every term at most
/// once.
pub proof fn law_lookups_name_each_term_once(kb: KnowledgeView, kind: OperationKind, n: Seq<char>)
    requires
        knowledge_well_formed(kb),
        kind == OperationKind::FindTerm || kind == OperationKind::FindTag || kind
            == OperationKind::SearchTerms,
    ensures
        keys_distinct(retrieved_by(kb, kind, n)),
{
    lemma_select_from(kb.terms, Selection::NameContains, n);
    lemma_select_from(kb.terms, Selection::TagContains, n);
    lemma_select_from(kb.terms, Selection::TextContains, n);
}

} // verus!

verus! {

// ---------------------------------------------------------------------------
// Presenting what was retrieved
// ---------------------------------------------------------------------------

pub open spec fn quoted(s: Seq<char>) -> Seq<char> {
    seq!['\''] + s + seq!['\'']
}

/// The heading a result is introduced with.
pub open spec fn result_heading(op: OperationView) -> Seq<char> {
    match op.0 {
        OperationKind::FindTerm => "Information about "@ + quoted(op.1) + ":\n"@,
        OperationKind::FindCategory => "Terms in category "@ + quoted(op.1) + ":\n"@,
        OperationKind::FindTag => "Terms tagged with "@ + quoted(op.1) + ":\n"@,
        OperationKind::SearchTerms => "Search results for "@ + quoted(op.1) + ":\n"@,
        OperationKind::GetRelated => "Terms related to "@ + quoted(op.1) + ":\n"@,
    }
}

/// One line per term: name, definition, then description and category when
/// the term has them.
pub open spec fn entry_line(e: Entry) -> Seq<char> {
    "- "@ + e.0 + ": "@ + e.1.definition + match e.1.description {
        Some(d) => seq![' '] + d,
        None => Seq::<char>::empty(),
    } + match e.1.category {
        Some(c) => " [Category: "@ + c + "]"@,
        None => Seq::<char>::empty(),
    } + seq!['\n']
}

pub open spec fn entry_lines(es: Seq<Entry>) -> Seq<char>
    decreases es.len(),
{
    if es.len() == 0 {
        Seq::<char>::empty()
    } else {
        entry_lines(es.drop_last()) + entry_line(es.last())
    }
}

/// A result's block: heading, term lines, blank line; nothing when the
/// result holds no term.
pub open spec fn result_block(r: RagResultView) -> Seq<char> {
    if r.terms.len() == 0 {
        Seq::<char>::empty()
    } else {
        result_heading(r.operation) + entry_lines(r.terms) + seq!['\n']
    }
}

pub open spec fn result_blocks(rs: Seq<RagResultView>) -> Seq<char>
    decreases rs.len(),
{
    if rs.len() == 0 {
        Seq::<char>::empty()
    } else {
        result_blocks(rs.drop_last()) + result_block(rs.last())
    }
}

/// The context handed to the model: a header and one block per result that
/// found something; nothing at all when there are no results.
pub open spec fn retrieved_context(rs: Seq<RagResultView>) -> Seq<char> {
    if rs.len() == 0 {
        Seq::<char>::empty()
    } else {
        "RETRIEVED KNOWLEDGE:\n\n"@ + result_blocks(rs)
    }
}

pub open spec fn result_views(rs: Seq<RagResult>) -> Seq<RagResultView> {
    rs.map_values(|r: RagResult| r@)
}

fn push_heading(out: &mut Vec<char>, op: &RagOperation)
    ensures
        final(out)@ == old(out)@ + result_heading(op@),
{
    let start = match op {
        RagOperation::FindTerm(_) => "Information about ",
        RagOperation::FindCategory(_) => "Terms in category ",
        RagOperation::FindTag(_) => "Terms tagged with ",
        RagOperation::SearchTerms(_) => "Search results for ",
        RagOperation::GetRelated(_) => "Terms related to ",
    };
    push_str_chars(out, start);
    out.push('\'');
    push_str_chars(out, op.parameter().as_str());
    out.push('\'');
    push_str_chars(out, ":\n");
    proof {
        let p = op@.1;
        assert(final(out)@ =~= old(out)@ + result_heading(op@));
    }
}

fn push_entry_line(out: &mut Vec<char>, name: &String, info: &TermInfo)
    ensures
        final(out)@ == old(out)@ + entry_line((name@, info@)),
{
    push_str_chars(out, "- ");
    push_str_chars(out, name.as_str());
    push_str_chars(out, ": ");
    push_str_chars(out, info.definition.as_str());
    let ghost mid = out@;
    match &info.description {
        Some(d) => {
            out.push(' ');
            push_str_chars(out, d.as_str());
        },
        None => {},
    }
    let ghost mid2 = out@;
    match &info.category {
        Some(c) => {
            push_str_chars(out, " [Category: ");
            push_str_chars(out, c.as_str());
            push_str_chars(out, "]");
        },
        None => {},
    }
    out.push('\n');
    assert(final(out)@ =~= old(out)@ + entry_line((name@, info@)));
}

impl RagSystem {
    /// Renders retrieved terms for the model: a header, then for each result
    /// that found something a heading naming the request and one line per
    /// term.
    pub fn format_retrieved_context(&self, results: &[RagResult]) -> (r: String)
        ensures
            r@ == retrieved_context(result_views(results@)),
    {
        let ghost rs = result_views(results@);
        if results.len() == 0 {
            return String::new();
        }
        let mut out: Vec<char> = Vec::new();
        push_str_chars(&mut out, "RETRIEVED KNOWLEDGE:\n\n");
        let ghost header = out@;
        let mut i: usize = 0;
        while i < results.len()
            invariant
                i <= results@.len(),
                rs == result_views(results@),
                out@ == header + result_blocks(rs.take(i as int)),
            decreases results@.len() - i,
        {
            assert(rs.take(i + 1).drop_last() =~= rs.take(i as int));
            assert(rs.take(i + 1).last() == results@[i as int]@);
            let result = &results[i];
            if result.terms.len() > 0 {
                let ghost before = out@;
                push_heading(&mut out, &result.operation);
                let ghost es = entries(result.terms@);
                let ghost lines_start = out@;
                let mut j: usize = 0;
                while j < result.terms.len()
                    invariant
                        j <= result.terms@.len(),
                        es == entries(result.terms@),
                        out@ == lines_start + entry_lines(es.take(j as int)),
                    decreases result.terms@.len() - j,
                {
                    assert(es.take(j + 1).drop_last() =~= es.take(j as int));
                    assert(es.take(j + 1).last() == (
                        result.terms@[j as int].0@,
                        result.terms@[j as int].1@,
                    ));
                    push_entry_line(&mut out, &result.terms[j].0, &result.terms[j].1);
                    j = j + 1;
                    assert(out@ =~= lines_start + entry_lines(es.take(j as int)));
                }
                out.push('\n');
                assert(es.take(j as int) =~= es);
                assert(out@ =~= before + result_block(results@[i as int]@));
            }
            i = i + 1;
            assert(out@ =~= header + result_blocks(rs.take(i as int)));
        }
        assert(rs.take(i as int) =~= rs);
        string_of(out.as_slice())
    }
}

/// Law: each kind of operation introduces what it found with its own
/// heading, naming the operation and its parameter in quotes, so no two
/// kinds of result can be taken for one another; a result that found
/// something begins its block with that heading.
pub proof fn law_headings_name_their_operation(p: Seq<char>, q: Seq<char>, r: RagResultView)
    ensures
        result_heading((OperationKind::FindTerm, p)) == "Information about '"@ + p + "':\n"@,
        result_heading((OperationKind::FindCategory, p)) == "Terms in category '"@ + p + "':\n"@,
        result_heading((OperationKind::FindTag, p)) == "Terms tagged with '"@ + p + "':\n"@,
        result_heading((OperationKind::SearchTerms, p)) == "Search results for '"@ + p + "':\n"@,
        result_heading((OperationKind::GetRelated, p)) == "Terms related to '"@ + p + "':\n"@,
        forall|k1: OperationKind, k2: OperationKind|
            k1 != k2 ==> #[trigger] result_heading((k1, p)) != #[trigger] result_heading((k2, q)),
        r.terms.len() > 0 ==> result_block(r).take(result_heading(r.operation).len() as int)
            == result_heading(r.operation),
{
    reveal_strlit("Information about ");
    reveal_strlit("Terms in category ");
    reveal_strlit("Terms tagged with ");
    reveal_strlit("Search results for ");
    reveal_strlit("Terms related to ");
    reveal_strlit("Information about '");
    reveal_strlit("Terms in category '");
    reveal_strlit("Terms tagged with '");
    reveal_strlit("Search results for '");
    reveal_strlit("Terms related to '");
    reveal_strlit(":\n");
    reveal_strlit("':\n");
    assert forall|k: OperationKind, x: Seq<char>| #[trigger] result_heading((k, x)) == match k {
        OperationKind::FindTerm => "Information about '"@ + x + "':\n"@,
        OperationKind::FindCategory => "Terms in category '"@ + x + "':\n"@,
        OperationKind::FindTag => "Terms tagged with '"@ + x + "':\n"@,
        OperationKind::SearchTerms => "Search results for '"@ + x + "':\n"@,
        OperationKind::GetRelated => "Terms related to '"@ + x + "':\n"@,
    } by {
        assert(result_heading((k, x)) =~= match k {
            OperationKind::FindTerm => "Information about '"@ + x + "':\n"@,
            OperationKind::FindCategory => "Terms in category '"@ + x + "':\n"@,
            OperationKind::FindTag => "Terms tagged with '"@ + x + "':\n"@,
            OperationKind::SearchTerms => "Search results for '"@ + x + "':\n"@,
            OperationKind::GetRelated => "Terms related to '"@ + x + "':\n"@,
        });
    }
    assert forall|k1: OperationKind, k2: OperationKind|
        k1 != k2 implies #[trigger] result_heading((k1, p)) != #[trigger] result_heading((k2, q)) by {
        let h1 = result_heading((k1, p));
        let h2 = result_heading((k2, q));
        // The headings differ in their first or seventh character.
        if h1[0] != h2[0] {
        } else {
            assert(h1[6] != h2[6]);
        }
    }
    if r.terms.len() > 0 {
        let h = result_heading(r.operation);
        assert(result_block(r).take(h.len() as int) =~= h);
    }
}

/// The blocks of two runs of results, one after the other.
proof fn lemma_result_blocks_append(a: Seq<RagResultView>, b: Seq<RagResultView>)
    ensures
        result_blocks(a + b) == result_blocks(a) + result_blocks(b),
    decreases b.len(),
{
    if b.len() == 0 {
        assert(a + b =~= a);
    } else {
        lemma_result_blocks_append(a, b.drop_last());
        assert((a + b).drop_last() =~= a + b.drop_last());
        assert((a + b).last() == b.last());
    }
}

/// Law: the context of two runs of results is the context of the first
/// followed by the blocks of the second, without a second header; which
/// system formats them does not matter.
pub proof fn law_context_of_joined_results(a: Seq<RagResultView>, b: Seq<RagResultView>)
    requires
        a.len() > 0,
        b.len() > 0,
    ensures
        retrieved_context(a + b) == retrieved_context(a) + retrieved_context(b).skip(
            "RETRIEVED KNOWLEDGE:\n\n"@.len() as int,
        ),
{
    lemma_result_blocks_append(a, b);
    let h = "RETRIEVED KNOWLEDGE:\n\n"@;
    assert((h + result_blocks(b)).skip(h.len() as int) =~= result_blocks(b));
}

// ---------------------------------------------------------------------------
// Statistics
// ---------------------------------------------------------------------------

/// Counts describing the knowledge base.
#[derive(Debug, Clone, Copy, PartialEq, Eq, Structural)]
pub struct RagStatistics {
    pub total_terms: usize,
    pub total_categories: usize,
    pub total_aliases: usize,
    pub terms_with_descriptions: usize,
    pub terms_with_tags: usize,
}

pub open spec fn count_described(es: Seq<Entry>) -> nat
    decreases es.len(),
{
    if es.len() == 0 {
        0
    } else {
        count_described(es.drop_last()) + if es.last().1.description is Some {
            1nat
        } else {
            0nat
        }
    }
}

pub open spec fn count_tagged(es: Seq<Entry>) -> nat
    decreases es.len(),
{
    if es.len() == 0 {
        0
    } else {
        count_tagged(es.drop_last()) + if es.last().1.tags is Some {
            1nat
        } else {
            0nat
        }
    }
}

proof fn lemma_counts_bounded(es: Seq<Entry>)
    ensures
        count_described(es) <= es.len(),
        count_tagged(es) <= es.len(),
    decreases es.len(),
{
    if es.len() > 0 {
        lemma_counts_bounded(es.drop_last());
    }
}

impl RagSystem {
    /// Sizes of the knowledge base: terms, categories, aliases, and how many
    /// terms have a description and how many have tags.
    pub fn get_statistics(&self) -> (r: RagStatistics)
        ensures
            r.total_terms == self.knowledge_base@.terms.len(),
            r.total_categories == self.knowledge_base@.categories.len(),
            r.total_aliases == self.knowledge_base@.aliases.len(),
            r.terms_with_descriptions == count_described(self.knowledge_base@.terms),
            r.terms_with_tags == count_tagged(self.knowledge_base@.terms),
    {
        let kb = &self.knowledge_base;
        let ghost es = kb@.terms;
        let mut described: usize = 0;
        let mut tagged: usize = 0;
        let mut i: usize = 0;
        while i < kb.terms.len()
            invariant
                i <= kb.terms@.len(),
                es == entries(kb.terms@),
                described == count_described(es.take(i as int)),
                tagged == count_tagged(es.take(i as int)),
            decreases kb.terms@.len() - i,
        {
            assert(es.take(i + 1).drop_last() =~= es.take(i as int));
            assert(es.take(i + 1).last() == (kb.terms@[i as int].0@, kb.terms@[i as int].1@));
            proof {
                lemma_counts_bounded(es.take(i as int));
            }
            if kb.terms[i].1.description.is_some() {
                described = described + 1;
            }
            if kb.terms[i].1.tags.is_some() {
                tagged = tagged + 1;
            }
            i = i + 1;
        }
        assert(es.take(i as int) =~= es);
        RagStatistics {
            total_terms: kb.terms.len(),
            total_categories: kb.categories.len(),
            total_aliases: kb.aliases.len(),
            terms_with_descriptions: described,
            terms_with_tags: tagged,
        }
    }
}

} // verus!
