//! Target URLs from a template, and the outcome of probing one of them.
use vstd::prelude::*;

use crate::filters::opt_str;
use crate::status::{reason_phrase, reason_phrase_of};
use crate::text::{
    chars_of, contains, contains_exec, join, lemma_occurrence_is_cut, lemma_replace_all_by_itself,
    lemma_replace_all_is_join, lemma_replace_all_len, replace_all, replace_all_exec, split_on,
};

verus! {

/// The token of a URL template that each word replaces.
pub open spec fn placeholder() -> Seq<char> {
    seq!['F', 'U', 'Z', 'Z']
}

fn placeholder_chars() -> (r: Vec<char>)
    ensures
        r@ == placeholder(),
{
    let r = vec!['F', 'U', 'Z', 'Z'];
    assert(r@ =~= placeholder());
    r
}

/// The result of one GET against a target URL.
#[derive(Debug)]
pub struct FuzzResponse {
    pub url: String,
    /// The body text, kept only where line rules need it.
    pub body: Option<String>,
    pub status_code: Option<u16>,
    pub reason_phrase: Option<String>,
    /// The declared content length, where the response gave one.
    pub content_length: Option<u64>,
    /// The request failed in transport; no response field is set.
    pub request_error: bool,
}

impl FuzzResponse {
    /// A transport failure carries no response data; a response carries a
    /// status code and its reason phrase.
    pub open spec fn wf(&self) -> bool {
        if self.request_error {
            &&& self.status_code is None
            &&& self.reason_phrase is None
            &&& self.content_length is None
            &&& self.body is None
        } else {
            &&& self.status_code is Some
            &&& self.reason_phrase is Some
        }
    }

    /// The outcome of a request that failed in transport.
    pub fn transport_error(url: String) -> (r: FuzzResponse)
        ensures
            r.wf(),
            r.url@ == url@,
            r.request_error,
    {
        FuzzResponse {
            url,
            body: None,
            status_code: None,
            reason_phrase: None,
            content_length: None,
            request_error: true,
        }
    }

    /// The outcome of a request that got a response with status
    /// `status_code`, the declared `content_length`, and the `body` text
    /// where it was read.
    pub fn from_response(
        url: String,
        status_code: u16,
        content_length: Option<u64>,
        body: Option<String>,
    ) -> (r: FuzzResponse)
        requires
            100 <= status_code <= 999,
        ensures
            r.wf(),
            r.url@ == url@,
            !r.request_error,
            r.status_code == Some(status_code),
            opt_str(r.reason_phrase) == Some(reason_phrase_of(status_code)),
            r.content_length == content_length,
            opt_str(r.body) == opt_str(body),
    {
        let reason = reason_phrase(status_code);
        FuzzResponse {
            url,
            body,
            status_code: Some(status_code),
            reason_phrase: Some(reason),
            content_length,
            request_error: false,
        }
    }
}

/// Why a template could not be expanded.
#[derive(Debug, Clone, Copy, PartialEq, Eq, Structural)]
pub enum FuzzlistError {
    /// The template holds no `FUZZ`, so every target would be the same URL.
    MissingPlaceholder,
}

/// The target URL for `word`: the template with every `FUZZ` replaced.
pub open spec fn target_of(template: Seq<char>, word: Seq<char>) -> Seq<char> {
    replace_all(template, placeholder(), word)
}

/// One target URL per word, in the order of the words, each the template
/// with every `FUZZ` replaced by the word. A template without `FUZZ` is
/// refused rather than expanded into copies of itself.
pub fn create_fuzzlist(target_url: &str, wordlist: Vec<String>) -> (r: Result<
    Vec<String>,
    FuzzlistError,
>)
    ensures
        r is Err <==> !contains(target_url@, placeholder()),
        r matches Ok(urls) ==> {
            &&& urls@.len() == wordlist@.len()
            &&& forall|i: int|
                0 <= i < urls@.len() ==> #[trigger] urls@[i]@ == target_of(
                    target_url@,
                    wordlist@[i]@,
                )
        },
{
    let pat = placeholder_chars();
    let cs = chars_of(target_url);
    if !contains_exec(&cs, &pat) {
        return Err(FuzzlistError::MissingPlaceholder);
    }
    let mut urls: Vec<String> = Vec::new();
    let mut i: usize = 0;
    while i < wordlist.len()
        invariant
            pat@ == placeholder(),
            0 <= i <= wordlist@.len(),
            urls@.len() == i,
            forall|k: int|
                0 <= k < i ==> #[trigger] urls@[k]@ == target_of(target_url@, wordlist@[k]@),
        decreases wordlist.len() - i,
    {
        let url = replace_all_exec(target_url, &pat, wordlist[i].as_str());
        urls.push(url);
        i = i + 1;
    }
    Ok(urls)
}

/// Expansion keeps the template around the placeholder: cut the template
/// at its occurrences of `FUZZ` (there is at least one), and the pieces
/// joined with the word are the target URL, while joined with `FUZZ` they
/// are the template again. With `k` occurrences the target is
/// `k * (|word| - 4)` longer than the template.
pub proof fn lemma_expansion_split_join(template: Seq<char>, word: Seq<char>)
    requires
        contains(template, placeholder()),
    ensures
        split_on(template, placeholder()).len() >= 2,
        target_of(template, word) == join(split_on(template, placeholder()), word),
        join(split_on(template, placeholder()), placeholder()) == template,
        target_of(template, word).len() == template.len() + (split_on(template, placeholder()).len()
            - 1) * (word.len() - 4),
{
    let i = choose|i: int| crate::text::occurs_at(template, placeholder(), i);
    lemma_occurrence_is_cut(template, placeholder(), i);
    lemma_replace_all_is_join(template, placeholder(), word);
    lemma_replace_all_is_join(template, placeholder(), placeholder());
    lemma_replace_all_by_itself(template, placeholder());
    lemma_replace_all_len(template, placeholder(), word);
}

} // verus!
