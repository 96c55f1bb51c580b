use vstd::prelude::*;
use vstd::string::StringSliceAdditionalSpecFns;
use crate::image::IconError;
use crate::laws::lemma_resolved_unique;
use crate::markup::{analyze_location, bytes_of, has_prefix, is_html, markup_tags, scanned, starts_with_bytes};

verus! {

/// The serialisation of what `url::Url::parse` makes of a text, if it parses.
pub uninterp spec fn url_parse(s: Seq<char>) -> Option<Seq<char>>;

/// The serialisation of what `url::Url::join` makes of a reference against a
/// base, if both parse.
pub uninterp spec fn url_join(base: Seq<char>, reference: Seq<char>) -> Option<Seq<char>>;

/// The text inside an optional string.
pub open spec fn opt_text(o: Option<String>) -> Option<Seq<char>> {
    match o {
        Some(s) => Some(s@),
        None => None,
    }
}

/// The texts of a sequence of strings.
pub open spec fn texts(v: Seq<String>) -> Seq<Seq<char>> {
    v.map_values(|s: String| s@)
}

/// Relies on `url::Url::parse` and on the URL's serialisation.
#[verifier::external_body]
pub(crate) fn parse_url(s: &str) -> (r: Option<String>)
    ensures
        opt_text(r) == url_parse(s@),
{
    url::Url::parse(s).ok().map(String::from)
}

/// Relies on `url::Url::parse` of the base, `url::Url::join` of the
/// reference against it, and the result's serialisation.
#[verifier::external_body]
fn join_url(base: &str, reference: &str) -> (r: Option<String>)
    ensures
        opt_text(r) == url_join(base@, reference@),
{
    url::Url::parse(base).and_then(|b| b.join(reference)).ok().map(String::from)
}

/// An address with the `http` or `https` scheme, as the URL parser writes it.
pub open spec fn is_web(u: Seq<char>) -> bool {
    has_prefix(bytes_of(u), "http://".spec_bytes()) || has_prefix(bytes_of(u), "https://".spec_bytes())
}

/// Tells whether an address has the `http` or `https` scheme.
pub fn is_web_url(u: &str) -> (r: bool)
    ensures
        r == is_web(u@),
{
    starts_with_bytes(u.as_bytes(), "http://".as_bytes()) || starts_with_bytes(u.as_bytes(), "https://".as_bytes())
}

/// Checks the address of the page to scan: it must parse and use `http` or
/// `https`. The parsed form is returned.
pub fn page_url(url: &str) -> (r: Result<String, IconError>)
    ensures
        match url_parse(url@) {
            Some(u) => if is_web(u) { r is Ok && r->Ok_0@ == u } else { r == Err::<String, IconError>(IconError::InvalidUrl) },
            None => r == Err::<String, IconError>(IconError::InvalidUrl),
        },
{
    match parse_url(url) {
        Some(u) => {
            if is_web_url(u.as_str()) {
                Ok(u)
            } else {
                Err(IconError::InvalidUrl)
            }
        },
        None => Err(IconError::InvalidUrl),
    }
}

/// The absolute address of a candidate: joined against the base, kept only
/// when it uses `http` or `https`.
pub open spec fn resolve_one(base: Seq<char>, candidate: Seq<char>) -> Option<Seq<char>> {
    match url_join(base, candidate) {
        Some(u) => if is_web(u) { Some(u) } else { None },
        None => None,
    }
}

/// The resolved addresses of candidates in order of first appearance, each
/// once; candidates that do not resolve are dropped.
pub open spec fn resolved(base: Seq<char>, candidates: Seq<Seq<char>>) -> Seq<Seq<char>>
    decreases candidates.len(),
{
    if candidates.len() == 0 {
        seq![]
    } else {
        let prev = resolved(base, candidates.drop_last());
        match resolve_one(base, candidates.last()) {
            Some(u) => if prev.contains(u) { prev } else { prev.push(u) },
            None => prev,
        }
    }
}

/// Tells whether `u` is among `list`.
fn contains_text(list: &Vec<String>, u: &String) -> (r: bool)
    ensures
        r == texts(list@).contains(u@),
{
    let mut j: usize = 0;
    while j < list.len()
        invariant
            0 <= j <= list@.len(),
            forall|k: int| 0 <= k < j ==> #[trigger] list@[k]@ != u@,
        decreases list@.len() - j,
    {
        if list[j] == *u {
            assert(texts(list@)[j as int] == u@);
            return true;
        }
        j = j + 1;
    }
    assert(!texts(list@).contains(u@)) by {
        if texts(list@).contains(u@) {
            let k = choose|k: int| 0 <= k < texts(list@).len() && texts(list@)[k] == u@;
            assert(list@[k]@ == u@);
        }
    }
    false
}

/// Resolves candidate references against the page address, drops those that
/// fail or leave `http`/`https`, and keeps one of each address.
pub fn resolve_candidates(base: &str, candidates: &Vec<String>) -> (r: Vec<String>)
    ensures
        texts(r@) == resolved(base@, texts(candidates@)),
{
    let mut list: Vec<String> = Vec::new();
    let mut i: usize = 0;
    while i < candidates.len()
        invariant
            0 <= i <= candidates@.len(),
            texts(list@) == resolved(base@, texts(candidates@.subrange(0, i as int))),
        decreases candidates@.len() - i,
    {
        proof {
            assert(texts(candidates@.subrange(0, i + 1)).drop_last() =~= texts(candidates@.subrange(0, i as int)));
            assert(texts(candidates@.subrange(0, i + 1)).last() == candidates@[i as int]@);
        }
        if let Some(u) = join_url(base, candidates[i].as_str()) {
            if is_web_url(u.as_str()) && !contains_text(&list, &u) {
                let ghost prev = list@;
                let ghost text = u@;
                list.push(u);
                assert(texts(list@) =~= texts(prev).push(text));
            }
        }
        i = i + 1;
    }
    assert(candidates@.subrange(0, i as int) =~= candidates@);
    list
}

/// The reference that every site is asked for besides what its markup names.
pub open spec fn fallback() -> Seq<char> {
    "/favicon.ico"@
}

/// The addresses to probe for a page at `base`: the resolved candidates of
/// its markup when its content type announces HTML, then the resolved
/// `/favicon.ico` in every case, each address once.
pub open spec fn page_targets(base: Seq<char>, content_type: Option<&str>, body: Seq<char>) -> Seq<Seq<char>> {
    if is_html(content_type) {
        resolved(base, texts(scanned(markup_tags(body))).push(fallback()))
    } else {
        resolved(base, seq![fallback()])
    }
}

/// The addresses to probe for a fetched page: the candidates of its markup
/// when its content type announces HTML, then `/favicon.ico` in every case,
/// all resolved against `base`, each address once.
pub fn probe_targets(base: &str, content_type: Option<&str>, body: &str) -> (r: Vec<String>)
    ensures
        texts(r@) == page_targets(base@, content_type, body@),
        !is_html(content_type) ==> texts(r@) == resolved(base@, seq![fallback()]),
        is_html(content_type) ==> texts(r@) == resolved(base@, texts(scanned(markup_tags(body@))).push(fallback())),
        texts(r@).no_duplicates(),
        forall|i: int| 0 <= i < r@.len() ==> is_web(#[trigger] r@[i]@),
{
    let mut list = analyze_location(content_type, body);
    let ghost found = list@;
    list.push("/favicon.ico".to_owned());
    assert(texts(list@) =~= texts(found).push(fallback()));
    let r = resolve_candidates(base, &list);
    proof {
        lemma_resolved_unique(base@, texts(list@));
        if !is_html(content_type) {
            assert(texts(list@) =~= seq![fallback()]);
        }
        assert forall|i: int| 0 <= i < r@.len() implies is_web(#[trigger] r@[i]@) by {
            assert(texts(r@)[i] == r@[i]@);
        }
    }
    r
}

} // verus!
