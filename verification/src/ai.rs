//! The omnibox's modes and the AI surface's small decisions: which provider a
//! base URL names, which local model to offer, and what a failure says.

use vstd::prelude::*;
use vstd::string::StrSliceExecFns;
use crate::chars::{chars_of, string_from_chars};
use crate::stem::{is_ws, is_ws_exec, trim_start_spec, trim_ws, TrimClass, lemma_trim_start_skip, trim_start_vec, trim_end_vec};

verus! {

/// The omnibox's three modes.
#[derive(Clone, Copy, Debug, PartialEq, Eq, Structural)]
pub enum OmniMode {
    /// Find text.
    Find,
    /// Run a command (`>`).
    Command,
    /// Jump to a heading (`@`).
    Heading,
}

/// The mode a query's first character chooses, and the query with that
/// prefix stripped: after `>` or `@` leading whitespace goes too; a find
/// query keeps every character.
pub open spec fn omni_spec(q: Seq<char>) -> (OmniMode, Seq<char>) {
    if q.len() > 0 && q[0] == '>' {
        (OmniMode::Command, trim_start_spec(q.drop_first(), TrimClass::Whitespace))
    } else if q.len() > 0 && q[0] == '@' {
        (OmniMode::Heading, trim_start_spec(q.drop_first(), TrimClass::Whitespace))
    } else {
        (OmniMode::Find, q)
    }
}

/// `s` from character `from` on, with leading whitespace removed.
fn trim_start_from(s: &str, from: usize) -> (r: &str)
    requires
        from <= s@.len(),
    ensures
        r@ == trim_start_spec(s@.skip(from as int), TrimClass::Whitespace),
{
    let n = s.unicode_len();
    let mut i = from;
    while i < n && is_ws_exec(s.get_char(i))
        invariant
            n == s@.len(),
            from <= i <= n,
            forall|j: int| from <= j < i ==> is_ws(#[trigger] s@[j]),
        decreases n - i,
    {
        i += 1;
    }
    proof {
        let t = s@.skip(from as int);
        assert forall|j: int| 0 <= j < i - from implies crate::stem::in_class(
            #[trigger] t[j],
            TrimClass::Whitespace,
        ) by {
            assert(t[j] == s@[j + from]);
        }
        lemma_trim_start_skip(t, i - from, TrimClass::Whitespace);
        assert(t.skip(i - from) =~= s@.subrange(i as int, n as int));
        if i < n {
            assert(t.skip(i - from)[0] == s@[i as int]);
        }
    }
    s.substring_char(i, n)
}

/// The omnibox mode a query selects, and the query it searches for.
pub fn omni_mode(query: &str) -> (r: (OmniMode, &str))
    ensures
        (r.0, r.1@) == omni_spec(query@),
{
    if query.unicode_len() > 0 {
        let c = query.get_char(0);
        if c == '>' {
            let rest = trim_start_from(query, 1);
            proof {
                assert(query@.skip(1) =~= query@.drop_first());
            }
            return (OmniMode::Command, rest);
        }
        if c == '@' {
            let rest = trim_start_from(query, 1);
            proof {
                assert(query@.skip(1) =~= query@.drop_first());
            }
            return (OmniMode::Heading, rest);
        }
    }
    (OmniMode::Find, query)
}

/// One AI provider row.
#[derive(Clone, Copy, Debug)]
pub struct ProviderInfo {
    /// The chip's label.
    pub label: &'static str,
    /// Its OpenAI-compatible endpoint (empty for a custom one).
    pub base_url: &'static str,
    /// A substring that identifies the provider in any base URL.
    pub host_match: &'static str,
    /// Where a writer mints a key; none when no key is needed.
    pub key_url: Option<&'static str>,
    /// One line on what the provider offers.
    pub note: &'static str,
}

/// The providers, local first, then the cloud paths, then a custom endpoint.
pub open spec fn provider_table() -> Seq<ProviderInfo> {
    seq![
        ProviderInfo {
            label: "Local (Ollama)",
            base_url: "http://localhost:11434/v1",
            host_match: "11434",
            key_url: None,
            note: "no key, no account \u{2014} your text never leaves this machine",
        },
        ProviderInfo {
            label: "OpenRouter",
            base_url: "https://openrouter.ai/api/v1",
            host_match: "openrouter.ai",
            key_url: Some("https://openrouter.ai/keys"),
            note: "one key, hundreds of models (several free)",
        },
        ProviderInfo {
            label: "Poe",
            base_url: "https://api.poe.com/v1",
            host_match: "api.poe.com",
            key_url: Some("https://poe.com/api_key"),
            note: "one subscription across the major chat models",
        },
        ProviderInfo {
            label: "OpenAI",
            base_url: "https://api.openai.com/v1",
            host_match: "api.openai.com",
            key_url: Some("https://platform.openai.com/api-keys"),
            note: "GPT models direct from OpenAI",
        },
        ProviderInfo {
            label: "Custom",
            base_url: "",
            host_match: "",
            key_url: None,
            note: "any other OpenAI-compatible endpoint",
        },
    ]
}

/// The providers, in the order their chips show.
pub fn providers() -> (r: Vec<ProviderInfo>)
    ensures
        r@ == provider_table(),
{
    let r = vec![
        ProviderInfo {
            label: "Local (Ollama)",
            base_url: "http://localhost:11434/v1",
            host_match: "11434",
            key_url: None,
            note: "no key, no account \u{2014} your text never leaves this machine",
        },
        ProviderInfo {
            label: "OpenRouter",
            base_url: "https://openrouter.ai/api/v1",
            host_match: "openrouter.ai",
            key_url: Some("https://openrouter.ai/keys"),
            note: "one key, hundreds of models (several free)",
        },
        ProviderInfo {
            label: "Poe",
            base_url: "https://api.poe.com/v1",
            host_match: "api.poe.com",
            key_url: Some("https://poe.com/api_key"),
            note: "one subscription across the major chat models",
        },
        ProviderInfo {
            label: "OpenAI",
            base_url: "https://api.openai.com/v1",
            host_match: "api.openai.com",
            key_url: Some("https://platform.openai.com/api-keys"),
            note: "GPT models direct from OpenAI",
        },
        ProviderInfo {
            label: "Custom",
            base_url: "",
            host_match: "",
            key_url: None,
            note: "any other OpenAI-compatible endpoint",
        },
    ];
    assert(r@ =~= provider_table());
    r
}

/// `needle` occurs in `hay` at position `i`.
pub open spec fn occurs_at(hay: Seq<char>, needle: Seq<char>, i: int) -> bool {
    0 <= i && i + needle.len() <= hay.len() && hay.subrange(i, i + needle.len()) == needle
}

/// `needle` occurs somewhere in `hay`.
pub open spec fn has_infix(hay: Seq<char>, needle: Seq<char>) -> bool {
    exists|i: int| #[trigger] occurs_at(hay, needle, i)
}

/// Does `needle` occur in `hay`?
pub fn contains_chars(hay: &Vec<char>, needle: &Vec<char>) -> (b: bool)
    ensures
        b == has_infix(hay@, needle@),
{
    if needle.len() > hay.len() {
        proof {
            assert forall|i: int| !occurs_at(hay@, needle@, i) by {}
        }
        return false;
    }
    if needle.len() == 0 {
        proof {
            assert(hay@.subrange(0, 0) =~= needle@);
            assert(occurs_at(hay@, needle@, 0));
        }
        return true;
    }
    let last = hay.len() - needle.len();
    let mut i: usize = 0;
    while i <= last
        invariant
            last == hay@.len() - needle@.len(),
            hay@.len() == hay.len(),
            needle@.len() >= 1,
            0 <= i <= last + 1,
            forall|k: int| 0 <= k < i ==> !occurs_at(hay@, needle@, k),
        decreases last + 1 - i,
    {
        let mut j: usize = 0;
        while j < needle.len() && hay[i + j] == needle[j]
            invariant
                last == hay@.len() - needle@.len(),
                hay@.len() == hay.len(),
                i <= last,
                0 <= j <= needle@.len(),
                forall|q: int| 0 <= q < j ==> hay@[i + q] == needle@[q],
            decreases needle@.len() - j,
        {
            j += 1;
        }
        if j == needle.len() {
            proof {
                assert(hay@.subrange(i as int, i + needle@.len()) =~= needle@);
                assert(occurs_at(hay@, needle@, i as int));
            }
            return true;
        }
        proof {
            assert(hay@.subrange(i as int, i + needle@.len())[j as int] != needle@[j as int]);
        }
        i += 1;
    }
    proof {
        assert forall|k: int| !occurs_at(hay@, needle@, k) by {
            if 0 <= k && k < i {
            }
        }
    }
    false
}

/// Index of the first provider from `i` on whose host substring is
/// nonempty and occurs in `url`.
pub open spec fn first_match_from(url: Seq<char>, i: int) -> Option<int>
    decreases provider_table().len() - i,
{
    if i < 0 || i >= provider_table().len() {
        None
    } else if provider_table()[i].host_match@.len() > 0 && has_infix(url, provider_table()[i].host_match@) {
        Some(i)
    } else {
        first_match_from(url, i + 1)
    }
}

/// The provider a base URL names: the first whose host substring occurs in
/// the trimmed URL; none for an empty or unrecognised one.
pub open spec fn provider_for_spec(base_url: Seq<char>) -> Option<ProviderInfo> {
    let url = trim_ws(base_url);
    if url.len() == 0 {
        None
    } else {
        match first_match_from(url, 0) {
            Some(i) => Some(provider_table()[i]),
            None => None,
        }
    }
}

/// The provider whose host substring is in `base_url`, so a hand-typed URL
/// still resolves.
pub fn provider_for(base_url: &str) -> (r: Option<ProviderInfo>)
    ensures
        r == provider_for_spec(base_url@),
{
    let v = chars_of(base_url);
    let a = trim_start_vec(&v, &TrimClass::Whitespace);
    let url = trim_end_vec(&a, &TrimClass::Whitespace);
    if url.len() == 0 {
        return None;
    }
    let table = providers();
    let mut i: usize = 0;
    while i < table.len()
        invariant
            table@ == provider_table(),
            url@ == trim_ws(base_url@),
            0 <= i <= table@.len(),
            first_match_from(url@, 0) == first_match_from(url@, i as int),
        decreases table@.len() - i,
    {
        let p = table[i];
        let host = chars_of(p.host_match);
        if host.len() > 0 && contains_chars(&url, &host) {
            return Some(p);
        }
        i += 1;
    }
    None
}

/// What `str::to_lowercase` returns for `s`: its Unicode lowercase mapping.
pub uninterp spec fn lowercase(s: Seq<char>) -> Seq<char>;

/// `str::to_lowercase`; the contract names its result and says nothing of
/// the mapping itself.
#[verifier::external_body]
pub(crate) fn str_to_lowercase(s: &str) -> (r: String)
    ensures
        r@ == lowercase(s@),
{
    s.to_lowercase()
}

/// A model name (lowercased) that marks an embedding or reranking model
/// rather than a chat one.
pub open spec fn is_embedder(lowered: Seq<char>) -> bool {
    has_infix(lowered, "embed"@) || has_infix(lowered, "bge"@) || has_infix(lowered, "rerank"@)
}

/// Index of the first model from `i` on whose lowered name is not an
/// embedder's.
pub open spec fn first_chat_from(lowered: Seq<Seq<char>>, i: int) -> Option<int>
    decreases lowered.len() - i,
{
    if i < 0 || i >= lowered.len() {
        None
    } else if !is_embedder(lowered[i]) {
        Some(i)
    } else {
        first_chat_from(lowered, i + 1)
    }
}

/// The model the one-click local path takes: the first that is not an
/// embedder, else the first one, else none.
pub open spec fn pick_spec(models: Seq<Seq<char>>, lowered: Seq<Seq<char>>) -> Option<Seq<char>> {
    match first_chat_from(lowered, 0) {
        Some(i) => Some(models[i]),
        None => if models.len() > 0 {
            Some(models[0])
        } else {
            None
        },
    }
}

/// The views of a list of strings.
pub open spec fn string_views(v: Seq<String>) -> Seq<Seq<char>> {
    v.map_values(|s: String| s@)
}

/// The view of an optional string.
pub open spec fn opt_view(o: Option<String>) -> Option<Seq<char>> {
    match o {
        Some(s) => Some(s@),
        None => None,
    }
}

/// Chooses among `models` given each one's lowercased name `lowered[i]`:
/// the first chat model, else the first model, else none.
pub fn pick_model_lowered(models: &Vec<String>, lowered: &Vec<String>) -> (r: Option<String>)
    requires
        lowered@.len() == models@.len(),
    ensures
        opt_view(r) == pick_spec(string_views(models@), string_views(lowered@)),
{
    let embed = chars_of("embed");
    let bge = chars_of("bge");
    let rerank = chars_of("rerank");
    let mut i: usize = 0;
    while i < lowered.len()
        invariant
            lowered@.len() == models@.len(),
            embed@ == "embed"@,
            bge@ == "bge"@,
            rerank@ == "rerank"@,
            0 <= i <= lowered@.len(),
            first_chat_from(string_views(lowered@), 0) == first_chat_from(string_views(lowered@), i as int),
        decreases lowered@.len() - i,
    {
        let l = chars_of(lowered[i].as_str());
        if !(contains_chars(&l, &embed) || contains_chars(&l, &bge) || contains_chars(&l, &rerank)) {
            return Some(models[i].clone());
        }
        i += 1;
    }
    if models.len() > 0 {
        Some(models[0].clone())
    } else {
        None
    }
}

/// Chooses a model from a provider's model list for the one-click local
/// path: skip embedding-only models, else take the first.
pub fn pick_local_model(models: Vec<String>) -> (r: Option<String>)
    ensures
        opt_view(r) == pick_spec(
            string_views(models@),
            string_views(models@).map_values(|m: Seq<char>| lowercase(m)),
        ),
{
    let mut lowered: Vec<String> = Vec::new();
    let mut i: usize = 0;
    while i < models.len()
        invariant
            0 <= i <= models@.len(),
            lowered@.len() == i,
            forall|k: int| 0 <= k < i ==> (#[trigger] lowered@[k])@ == lowercase(models@[k]@),
        decreases models@.len() - i,
    {
        lowered.push(str_to_lowercase(models[i].as_str()));
        i += 1;
    }
    proof {
        assert(string_views(lowered@) =~= string_views(models@).map_values(|m: Seq<char>| lowercase(m)));
    }
    pick_model_lowered(&models, &lowered)
}

/// `s` with every leading copy of the nonempty `p` removed.
pub open spec fn strip_all(s: Seq<char>, p: Seq<char>) -> Seq<char>
    decreases s.len(),
{
    if p.len() > 0 && s.len() >= p.len() && s.take(p.len() as int) == p {
        strip_all(s.skip(p.len() as int), p)
    } else {
        s
    }
}

/// `s` up to its first `/`.
pub open spec fn before_slash(s: Seq<char>) -> Seq<char>
    decreases s.len(),
{
    if s.len() == 0 || s[0] == '/' {
        Seq::empty()
    } else {
        seq![s[0]] + before_slash(s.drop_first())
    }
}

/// The host of a base URL: its scheme prefixes removed, up to the first `/`.
pub open spec fn host_spec(base_url: Seq<char>) -> Seq<char> {
    before_slash(strip_all(strip_all(base_url, "https://"@), "http://"@))
}

/// `v` with every leading copy of `p` removed.
fn strip_all_vec(v: Vec<char>, p: &Vec<char>) -> (r: Vec<char>)
    ensures
        r@ == strip_all(v@, p@),
    decreases v@.len(),
{
    if p.len() == 0 || v.len() < p.len() {
        return v;
    }
    let mut j: usize = 0;
    while j < p.len() && v[j] == p[j]
        invariant
            p@.len() <= v@.len(),
            0 <= j <= p@.len(),
            forall|q: int| 0 <= q < j ==> v@[q] == p@[q],
        decreases p@.len() - j,
    {
        j += 1;
    }
    if j < p.len() {
        proof {
            assert(v@.take(p@.len() as int)[j as int] != p@[j as int]);
        }
        return v;
    }
    proof {
        assert(v@.take(p@.len() as int) =~= p@);
    }
    let mut rest: Vec<char> = Vec::new();
    let mut k: usize = p.len();
    while k < v.len()
        invariant
            p@.len() <= k <= v@.len(),
            rest@ == v@.subrange(p@.len() as int, k as int),
        decreases v@.len() - k,
    {
        rest.push(v[k]);
        k += 1;
        assert(rest@ =~= v@.subrange(p@.len() as int, k as int));
    }
    assert(rest@ =~= v@.skip(p@.len() as int));
    strip_all_vec(rest, p)
}

proof fn lemma_before_slash(s: Seq<char>, i: int)
    requires
        0 <= i <= s.len(),
        forall|q: int| 0 <= q < i ==> s[q] != '/',
        i == s.len() || s[i] == '/',
    ensures
        before_slash(s) == s.take(i),
    decreases i,
{
    if i > 0 {
        lemma_before_slash(s.drop_first(), i - 1);
        assert(seq![s[0]] + s.drop_first().take(i - 1) =~= s.take(i));
    } else {
        assert(s.take(0) =~= Seq::<char>::empty());
    }
}

/// The host of a base URL, as the AI card names it.
pub fn host_of(base_url: &str) -> (s: String)
    ensures
        s@ == host_spec(base_url@),
{
    let https = chars_of("https://");
    let http = chars_of("http://");
    let v = strip_all_vec(chars_of(base_url), &https);
    let v = strip_all_vec(v, &http);
    let mut i: usize = 0;
    while i < v.len() && v[i] != '/'
        invariant
            0 <= i <= v@.len(),
            forall|q: int| 0 <= q < i ==> v@[q] != '/',
        decreases v@.len() - i,
    {
        i += 1;
    }
    proof {
        lemma_before_slash(v@, i as int);
    }
    let mut out: Vec<char> = Vec::new();
    let mut k: usize = 0;
    while k < i
        invariant
            0 <= k <= i <= v@.len(),
            out@ == v@.take(k as int),
        decreases i - k,
    {
        out.push(v[k]);
        k += 1;
        assert(out@ =~= v@.take(k as int));
    }
    string_from_chars(&out)
}

/// How a call to a model provider failed.
#[derive(Debug)]
pub enum LlmError {
    /// The key was rejected.
    Auth(String),
    /// Too many requests.
    RateLimited(String),
    /// The provider answered with an error.
    Provider(String),
    /// The provider could not be reached.
    Network(String),
    /// The reply did not have the expected shape.
    Shape(String),
}

/// App-side failure classes of an AI pass.
#[derive(Debug)]
pub enum AiFailure {
    /// The provider call failed.
    Llm(LlmError),
    /// The model replied, but not in diagnosis format.
    Parse(String),
}

/// The AI surface's state, shown where the results will land.
#[derive(Debug)]
pub enum AiStatus {
    /// No provider configured; `local_model` is a model a local server offers.
    NeedsSetup { local_model: Option<String> },
    /// A pass is running.
    Running { label: String },
    /// Success or information; fades after a few seconds.
    Note { title: String, detail: String },
    /// Persistent until dismissed, retried, or superseded.
    Error { title: String, detail: String },
}

/// The card title for a failure: what failed and whom it concerns.
pub open spec fn failure_title(f: AiFailure, host: Seq<char>, model: Seq<char>) -> Seq<char> {
    match f {
        AiFailure::Llm(LlmError::Auth(_)) => host + " rejected the API key"@,
        AiFailure::Llm(LlmError::RateLimited(_)) => "Rate limited by "@ + host
            + " \u{2014} try again in a moment"@,
        AiFailure::Llm(LlmError::Provider(_)) => host + " returned an error"@,
        AiFailure::Llm(LlmError::Network(_)) => "Couldn't reach "@ + host,
        AiFailure::Llm(LlmError::Shape(_)) => "Unusable reply from "@ + model,
        AiFailure::Parse(_) => model
            + " replied, but not in diagnosis format \u{2014} usually a too-small model"@,
    }
}

/// The failure's own message, shown as the card's detail.
pub open spec fn failure_detail(f: AiFailure) -> Seq<char> {
    match f {
        AiFailure::Llm(LlmError::Auth(m)) => m@,
        AiFailure::Llm(LlmError::RateLimited(m)) => m@,
        AiFailure::Llm(LlmError::Provider(m)) => m@,
        AiFailure::Llm(LlmError::Network(m)) => m@,
        AiFailure::Llm(LlmError::Shape(m)) => m@,
        AiFailure::Parse(m) => m@,
    }
}

impl AiFailure {
    /// The error card for this failure against `base_url` and `model`.
    pub fn into_status(self, base_url: &str, model: &str) -> (r: AiStatus)
        ensures
            r matches AiStatus::Error { title, detail } && title@ == failure_title(
                self,
                host_spec(base_url@),
                model@,
            ) && detail@ == failure_detail(self),
    {
        let host = host_of(base_url);
        match self {
            AiFailure::Llm(LlmError::Auth(m)) => AiStatus::Error {
                title: host.concat(" rejected the API key"),
                detail: m,
            },
            AiFailure::Llm(LlmError::RateLimited(m)) => AiStatus::Error {
                title: String::from_str("Rate limited by ").concat(host.as_str()).concat(
                    " \u{2014} try again in a moment",
                ),
                detail: m,
            },
            AiFailure::Llm(LlmError::Provider(m)) => AiStatus::Error {
                title: host.concat(" returned an error"),
                detail: m,
            },
            AiFailure::Llm(LlmError::Network(m)) => AiStatus::Error {
                title: String::from_str("Couldn't reach ").concat(host.as_str()),
                detail: m,
            },
            AiFailure::Llm(LlmError::Shape(m)) => AiStatus::Error {
                title: String::from_str("Unusable reply from ").concat(model),
                detail: m,
            },
            AiFailure::Parse(m) => AiStatus::Error {
                title: String::from_str(model).concat(
                    " replied, but not in diagnosis format \u{2014} usually a too-small model",
                ),
                detail: m,
            },
        }
    }
}

/// A key from the environment counts only when it is nonempty.
pub open spec fn env_key_spec(env: Option<Seq<char>>) -> bool {
    env matches Some(k) && k.len() > 0
}

/// Is a nonempty key set in the environment? `env` is what the key variable
/// holds, if it is set.
pub fn env_key_set(env: &Option<String>) -> (b: bool)
    ensures
        b == env_key_spec(opt_view(*env)),
{
    match env {
        Some(k) => k.as_str().unicode_len() > 0,
        None => false,
    }
}

/// The key a request uses: a nonempty key from the environment wins over
/// what the form holds.
pub fn resolved_key(env: Option<String>, field: &str) -> (r: String)
    ensures
        r@ == (if env_key_spec(opt_view(env)) {
            env->0@
        } else {
            field@
        }),
{
    match env {
        Some(k) => {
            if k.as_str().unicode_len() > 0 {
                k
            } else {
                String::from_str(field)
            }
        },
        None => String::from_str(field),
    }
}

} // verus!
