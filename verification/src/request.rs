//! Requests for articles: which language and title to fetch, in which output format,
//! and how a failed fetch is answered.

use vstd::prelude::*;

use crate::text::{chars_of, find, find_from, occurs_at, push_char, str_eq, trim, trim_str};

verus! {

/// The lowercase equivalent of `s` (`str::to_lowercase`), per the Unicode `Lowercase`
/// property and the default case mappings.
pub uninterp spec fn lowercase(s: Seq<char>) -> Seq<char>;

/// The lowercase equivalent of `s` (`str::to_lowercase`). Nothing more is stated of
/// the Unicode case mapping than that it depends on `s` alone.
#[verifier::external_body]
fn to_lowercase(s: &str) -> (r: String)
    ensures
        r@ == lowercase(s@),
{
    s.to_lowercase()
}

/// Why a request for an article is refused.
#[derive(Debug, Clone, Copy, PartialEq, Eq, Structural)]
pub enum RequestError {
    /// The language code is empty or holds something other than `a`-`z`, `0`-`9`, `-`.
    InvalidLanguage,
    /// The title is empty or only whitespace.
    MissingTitle,
}

impl RequestError {
    /// The answer given for the refusal.
    pub fn message(&self) -> (r: &'static str)
        ensures
            *self == RequestError::InvalidLanguage ==> r@ == "Invalid language code"@,
            *self == RequestError::MissingTitle ==> r@ == "Article title is required"@,
    {
        match self {
            RequestError::InvalidLanguage => "Invalid language code",
            RequestError::MissingTitle => "Article title is required",
        }
    }
}

/// The output format that a request asks for.
#[derive(Debug, Clone, Copy, PartialEq, Eq, Structural)]
pub enum OutputKind {
    /// `.md`: Markdown.
    Markdown,
    /// `.txt`: plain text.
    Plain,
    /// `.json`: the section tree as JSON.
    Json,
}

/// A character allowed in a language code.
pub open spec fn language_char(c: char) -> bool {
    ('a' <= c && c <= 'z') || ('0' <= c && c <= '9') || c == '-'
}

/// The language code that a request names: its trimmed, lowercased text.
pub open spec fn request_language(language: Seq<char>) -> Seq<char> {
    lowercase(trim(language))
}

/// Whether a language code is non-empty and made of allowed characters only.
pub open spec fn valid_language(l: Seq<char>) -> bool {
    l.len() > 0 && forall|i: int| 0 <= i < l.len() ==> language_char(#[trigger] l[i])
}

/// The title that is fetched: the trimmed title with spaces replaced by underscores.
pub open spec fn normalize_title(title: Seq<char>) -> Seq<char> {
    trim(title).map_values(|c: char| if c == ' ' { '_' } else { c })
}

/// The format named by a file extension.
pub open spec fn output_kind(ext: Seq<char>) -> Option<OutputKind> {
    if ext == "md"@ {
        Some(OutputKind::Markdown)
    } else if ext == "txt"@ {
        Some(OutputKind::Plain)
    } else if ext == "json"@ {
        Some(OutputKind::Json)
    } else {
        None
    }
}

/// Whether `s` contains `w`.
pub open spec fn contains(s: Seq<char>, w: Seq<char>) -> bool {
    exists|i: int| occurs_at(s, w, i)
}

/// Whether a (lowercased) language code is non-empty and made of `a`-`z`, `0`-`9` and
/// `-` only.
pub fn is_valid_language(code: &str) -> (r: bool)
    ensures
        r == valid_language(code@),
{
    let lc = chars_of(code);
    if lc.len() == 0 {
        return false;
    }
    let mut i: usize = 0;
    while i < lc.len()
        invariant
            lc@ == code@,
            i <= lc@.len(),
            forall|j: int| 0 <= j < i ==> language_char(#[trigger] lc@[j]),
        decreases lc.len() - i,
    {
        let c = lc[i];
        if !(('a' <= c && c <= 'z') || ('0' <= c && c <= '9') || c == '-') {
            assert(!language_char(code@[i as int]));
            return false;
        }
        i = i + 1;
    }
    true
}

/// The title to fetch: the trimmed title with spaces replaced by underscores, or
/// `None` when nothing but whitespace is left.
pub fn title_to_fetch(title: &str) -> (r: Option<String>)
    ensures
        trim(title@).len() == 0 ==> r is None,
        trim(title@).len() > 0 ==> (r matches Some(t) && t@ == normalize_title(title@)),
{
    let t = trim_str(title);
    let tc = chars_of(t.as_str());
    if tc.len() == 0 {
        return None;
    }
    let mut normalized = String::new();
    for k in 0..tc.len()
        invariant
            tc@ == trim(title@),
            normalized@ == tc@.take(k as int).map_values(|c: char| if c == ' ' { '_' } else { c }),
    {
        let c = tc[k];
        push_char(&mut normalized, if c == ' ' { '_' } else { c });
        assert(tc@.take(k + 1).map_values(|c: char| if c == ' ' { '_' } else { c }) =~= tc@.take(
            k as int,
        ).map_values(|c: char| if c == ' ' { '_' } else { c }).push(
            if c == ' ' {
                '_'
            } else {
                c
            },
        ));
    }
    assert(tc@.take(tc@.len() as int) =~= tc@);
    Some(normalized)
}

/// Checks the language code and title of a request: returns the lowercased language
/// code and the title to fetch, or why the request is refused. The language is checked
/// first.
pub fn check_article_request(language: &str, title: &str) -> (r: Result<(String, String), RequestError>)
    ensures
        !valid_language(request_language(language@)) ==> r == Err::<(String, String), RequestError>(
            RequestError::InvalidLanguage,
        ),
        valid_language(request_language(language@)) && trim(title@).len() == 0 ==> r == Err::<
            (String, String),
            RequestError,
        >(RequestError::MissingTitle),
        valid_language(request_language(language@)) && trim(title@).len() > 0 ==> (r matches Ok(p)
            && p.0@ == request_language(language@) && p.1@ == normalize_title(title@)),
{
    let trimmed_language = trim_str(language);
    let lang = to_lowercase(trimmed_language.as_str());
    if !is_valid_language(lang.as_str()) {
        return Err(RequestError::InvalidLanguage);
    }
    match title_to_fetch(title) {
        Some(t) => Ok((lang, t)),
        None => Err(RequestError::MissingTitle),
    }
}

/// The output format named by a file extension (`md`, `txt` or `json`).
pub fn output_kind_of(ext: &str) -> (r: Option<OutputKind>)
    ensures
        r == output_kind(ext@),
{
    if str_eq(ext, "md") {
        Some(OutputKind::Markdown)
    } else if str_eq(ext, "txt") {
        Some(OutputKind::Plain)
    } else if str_eq(ext, "json") {
        Some(OutputKind::Json)
    } else {
        None
    }
}

proof fn lemma_find_from_none(s: Seq<char>, w: Seq<char>, i: int)
    requires
        0 <= i,
        find_from(s, w, i) is None,
    ensures
        forall|j: int| i <= j ==> !occurs_at(s, w, j),
    decreases s.len() + 1 - i,
{
    if i + w.len() <= s.len() {
        lemma_find_from_none(s, w, i + 1);
    }
}

proof fn lemma_find_from_some(s: Seq<char>, w: Seq<char>, i: int)
    ensures
        find_from(s, w, i) matches Some(j) ==> occurs_at(s, w, j),
    decreases s.len() + 1 - i,
{
    if i >= 0 && i + w.len() <= s.len() && !occurs_at(s, w, i) {
        lemma_find_from_some(s, w, i + 1);
    }
}

/// Whether the message of a failed fetch reports that the article does not exist
/// (it contains `HTTP 404`).
pub fn is_not_found(message: &str) -> (r: bool)
    ensures
        r == contains(message@, "HTTP 404"@),
{
    let mc = chars_of(message);
    let wc = chars_of("HTTP 404");
    let found = find(mc.as_slice(), wc.as_slice(), 0);
    proof {
        lemma_find_from_some(message@, "HTTP 404"@, 0);
        if found is None {
            lemma_find_from_none(message@, "HTTP 404"@, 0);
        }
    }
    found.is_some()
}

} // verus!
