use vstd::prelude::*;
use vstd::string::StringSliceAdditionalSpecFns;
use crate::image::{collected, link_urls, outcome_result, IconError};
use crate::markup::{
    attr_lookup, bytes_of, ci_eq, lemma_scanned_concat, lower_byte, scanned, element_candidates, extracted, in_table, link_rels, meta_names,
    meta_properties, Attribute, Element,
};
use crate::resolve::{is_web, resolve_one, resolved};

verus! {

/// Resolution yields every address at most once, and only `http`/`https`
/// addresses.
pub proof fn lemma_resolved_unique(base: Seq<char>, candidates: Seq<Seq<char>>)
    ensures
        resolved(base, candidates).no_duplicates(),
        forall|i: int| 0 <= i < resolved(base, candidates).len() ==> is_web(#[trigger] resolved(base, candidates)[i]),
    decreases candidates.len(),
{
    if candidates.len() > 0 {
        lemma_resolved_unique(base, candidates.drop_last());
    }
}

/// An address is among the resolved ones exactly when some candidate
/// resolves to it.
pub proof fn lemma_resolved_members(base: Seq<char>, candidates: Seq<Seq<char>>, u: Seq<char>)
    ensures
        resolved(base, candidates).contains(u) <==> exists|i: int|
            0 <= i < candidates.len() && #[trigger] resolve_one(base, candidates[i]) == Some(u),
    decreases candidates.len(),
{
    if candidates.len() > 0 {
        let prev = candidates.drop_last();
        let last = candidates[candidates.len() - 1];
        let r = resolved(base, candidates);
        let rp = resolved(base, prev);
        lemma_resolved_members(base, prev, u);
        if r.contains(u) {
            if rp.contains(u) {
                let i = choose|i: int| 0 <= i < prev.len() && #[trigger] resolve_one(base, prev[i]) == Some(u);
                assert(candidates[i] == prev[i]);
            } else {
                let k = choose|k: int| 0 <= k < r.len() && r[k] == u;
                if resolve_one(base, last) != Some(u) {
                    match resolve_one(base, last) {
                        Some(v) => {
                            if rp.contains(v) {
                                assert(r == rp);
                            } else {
                                assert(r == rp.push(v));
                                if k < rp.len() {
                                    assert(r[k] == rp[k]);
                                }
                            }
                        },
                        None => assert(r == rp),
                    }
                }
                assert(resolve_one(base, candidates[candidates.len() - 1]) == Some(u));
            }
        }
        if exists|i: int| 0 <= i < candidates.len() && #[trigger] resolve_one(base, candidates[i]) == Some(u) {
            let i = choose|i: int| 0 <= i < candidates.len() && #[trigger] resolve_one(base, candidates[i]) == Some(u);
            if i < prev.len() {
                assert(prev[i] == candidates[i]);
                let k = choose|k: int| 0 <= k < rp.len() && rp[k] == u;
                match resolve_one(base, last) {
                    Some(v) => {
                        if !rp.contains(v) {
                            assert(r == rp.push(v));
                            assert(r[k] == u);
                        }
                    },
                    None => {},
                }
            } else {
                if !rp.contains(u) {
                    assert(r == rp.push(u));
                    assert(r[r.len() - 1] == u);
                }
            }
        }
    }
}

/// Two elements that resolve to the same address cost one probe: each
/// candidate that resolves has its address among the targets exactly once.
pub proof fn law_one_probe_per_address(base: Seq<char>, candidates: Seq<Seq<char>>, i: int)
    requires
        0 <= i < candidates.len(),
        resolve_one(base, candidates[i]) is Some,
    ensures
        resolved(base, candidates).contains(resolve_one(base, candidates[i])->Some_0),
        resolved(base, candidates).no_duplicates(),
{
    lemma_resolved_unique(base, candidates);
    lemma_resolved_members(base, candidates, resolve_one(base, candidates[i])->Some_0);
}

/// Every descriptor collected from the first `n` addresses carries one of
/// them.
pub proof fn lemma_collected_addresses(urls: Seq<Seq<char>>, outcomes: Seq<Result<Vec<u8>, IconError>>, n: int)
    requires
        0 <= n <= urls.len(),
        n <= outcomes.len(),
    ensures
        forall|k: int| 0 <= k < collected(urls, outcomes, n).len() ==> exists|j: int|
            0 <= j < n && urls[j] == #[trigger] collected(urls, outcomes, n)[k].0,
    decreases n,
{
    if n > 0 {
        lemma_collected_addresses(urls, outcomes, n - 1);
        let prev = collected(urls, outcomes, n - 1);
        assert forall|k: int| 0 <= k < collected(urls, outcomes, n).len() implies exists|j: int|
            0 <= j < n && urls[j] == #[trigger] collected(urls, outcomes, n)[k].0 by {
            if k < prev.len() {
                assert(collected(urls, outcomes, n)[k] == prev[k]);
                let j = choose|j: int| 0 <= j < n - 1 && urls[j] == #[trigger] prev[k].0;
            } else {
                assert(outcome_result(urls[n - 1], outcomes[n - 1]) is Ok);
                assert(collected(urls, outcomes, n)[k].0 == urls[n - 1]);
            }
        }
    }
}

/// Distinct addresses give at most one descriptor per address.
pub proof fn law_one_link_per_address(urls: Seq<Seq<char>>, outcomes: Seq<Result<Vec<u8>, IconError>>, n: int)
    requires
        urls.no_duplicates(),
        0 <= n <= urls.len(),
        n <= outcomes.len(),
    ensures
        link_urls(collected(urls, outcomes, n)).no_duplicates(),
    decreases n,
{
    if n > 0 {
        law_one_link_per_address(urls, outcomes, n - 1);
        lemma_collected_addresses(urls, outcomes, n - 1);
        let prev = collected(urls, outcomes, n - 1);
        if outcome_result(urls[n - 1], outcomes[n - 1]) is Ok {
            let c = collected(urls, outcomes, n);
            let x = urls[n - 1];
            assert(link_urls(c) =~= link_urls(prev).push(x));
            assert forall|a: int, b: int| 0 <= a < b < link_urls(c).len() implies
                link_urls(c)[a] != link_urls(c)[b] by {
                if b == link_urls(c).len() - 1 {
                    if link_urls(c)[a] == x {
                        let j = choose|j: int| 0 <= j < n - 1 && urls[j] == #[trigger] prev[a].0;
                        assert(urls[j] == urls[n - 1]);
                    }
                } else {
                    assert(link_urls(c)[a] == link_urls(prev)[a]);
                    assert(link_urls(c)[b] == link_urls(prev)[b]);
                }
            }
        }
    }
}

/// The bytes of the words the scanner looks for.
proof fn lemma_keyword_bytes()
    ensures
        !ci_eq("link".spec_bytes(), "meta".spec_bytes()),
        "rel".spec_bytes().len() == 3,
        "name".spec_bytes().len() == 4,
        "href".spec_bytes().len() == 4,
        "content".spec_bytes().len() == 7,
        "property".spec_bytes().len() == 8,
        !ci_eq("href".spec_bytes(), "name".spec_bytes()),
{
    reveal_strlit("link");
    reveal_strlit("meta");
    reveal_strlit("rel");
    reveal_strlit("name");
    reveal_strlit("href");
    reveal_strlit("content");
    reveal_strlit("property");
    vstd::string::is_ascii_spec_bytes("link");
    vstd::string::is_ascii_spec_bytes("meta");
    vstd::string::is_ascii_spec_bytes("rel");
    vstd::string::is_ascii_spec_bytes("name");
    vstd::string::is_ascii_spec_bytes("href");
    vstd::string::is_ascii_spec_bytes("content");
    vstd::string::is_ascii_spec_bytes("property");
    assert("link".spec_bytes()[0] == 108u8);
    assert("href".spec_bytes()[0] == 104u8);
}

/// The lookup finds the last readable attribute with the name.
proof fn lemma_lookup_last(attrs: Seq<Option<Attribute>>, key: Seq<u8>, i: int)
    requires
        0 <= i < attrs.len(),
        attrs[i] is Some,
        ci_eq(bytes_of(attrs[i]->Some_0.name@), key),
        forall|k: int| i < k < attrs.len() && #[trigger] attrs[k] is Some ==> !ci_eq(bytes_of(attrs[k]->Some_0.name@), key),
    ensures
        attr_lookup(attrs, key) == Some(attrs[i]->Some_0.value),
    decreases attrs.len(),
{
    if i < attrs.len() - 1 {
        let prev = attrs.drop_last();
        assert(attrs[attrs.len() - 1] is Some ==> !ci_eq(bytes_of(attrs[attrs.len() - 1]->Some_0.name@), key));
        lemma_lookup_last(prev, key, i);
    }
}

/// A `link` element whose `rel` is `icon` and whose `href` is `X` yields the
/// candidate `X`, whatever the order of its attributes and the case of its
/// names and keyword.
pub proof fn law_link_icon_yields_href(e: Element, i: int, j: int)
    requires
        ci_eq(bytes_of(e.name@), "link".spec_bytes()),
        0 <= i < e.attributes@.len(),
        0 <= j < e.attributes@.len(),
        e.attributes@[i] is Some,
        ci_eq(bytes_of(e.attributes@[i]->Some_0.name@), "rel".spec_bytes()),
        ci_eq(bytes_of(e.attributes@[i]->Some_0.value@), "icon".spec_bytes()),
        e.attributes@[j] is Some,
        ci_eq(bytes_of(e.attributes@[j]->Some_0.name@), "href".spec_bytes()),
        forall|k: int| 0 <= k < e.attributes@.len() && k != i && #[trigger] e.attributes@[k] is Some
            ==> !ci_eq(bytes_of(e.attributes@[k]->Some_0.name@), "rel".spec_bytes()),
        forall|k: int| 0 <= k < e.attributes@.len() && k != j && #[trigger] e.attributes@[k] is Some
            ==> !ci_eq(bytes_of(e.attributes@[k]->Some_0.name@), "href".spec_bytes()),
    ensures
        element_candidates(e) == seq![e.attributes@[j]->Some_0.value],
{
    let attrs = e.attributes@;
    lemma_keyword_bytes();
    assert(!ci_eq(bytes_of(e.name@), "meta".spec_bytes())) by {
        if ci_eq(bytes_of(e.name@), "meta".spec_bytes()) {
            assert forall|k: int| 0 <= k < "link".spec_bytes().len() implies
                lower_byte("link".spec_bytes()[k]) == lower_byte(#[trigger] "meta".spec_bytes()[k]) by {
                assert(lower_byte(bytes_of(e.name@)[k]) == lower_byte("link".spec_bytes()[k]));
            }
        }
    }
    lemma_lookup_last(attrs, "rel".spec_bytes(), i);
    lemma_lookup_last(attrs, "href".spec_bytes(), j);
    assert(link_rels()[2] == "icon");
    assert(in_table(link_rels(), bytes_of(attrs[i]->Some_0.value@)));
}

/// An attribute name whose value is compared against keywords.
pub open spec fn is_selector(n: Seq<u8>) -> bool {
    ci_eq(n, "rel".spec_bytes()) || ci_eq(n, "name".spec_bytes()) || ci_eq(n, "property".spec_bytes())
}

/// Two attributes that differ at most in the case of their name and, for a
/// keyword attribute, of their value.
pub open spec fn attr_equiv(a: Option<Attribute>, b: Option<Attribute>) -> bool {
    match (a, b) {
        (None, None) => true,
        (Some(x), Some(y)) => ci_eq(bytes_of(x.name@), bytes_of(y.name@)) && if is_selector(bytes_of(x.name@)) {
            ci_eq(bytes_of(x.value@), bytes_of(y.value@))
        } else {
            x.value == y.value
        },
        _ => false,
    }
}

/// Two elements that differ at most in letter case where case does not
/// matter: the element name, attribute names and keyword values.
pub open spec fn equal_but_case(e1: Element, e2: Element) -> bool {
    ci_eq(bytes_of(e1.name@), bytes_of(e2.name@)) && e1.attributes@.len() == e2.attributes@.len()
        && forall|i: int| 0 <= i < e1.attributes@.len() ==> attr_equiv(#[trigger] e1.attributes@[i], e2.attributes@[i])
}

proof fn lemma_ci_eq_trans(a: Seq<u8>, b: Seq<u8>, c: Seq<u8>)
    requires
        ci_eq(a, b),
    ensures
        ci_eq(b, c) <==> ci_eq(a, c),
        ci_eq(b, a),
{
    if ci_eq(b, c) {
        assert forall|i: int| 0 <= i < a.len() implies lower_byte(#[trigger] a[i]) == lower_byte(c[i]) by {
            assert(lower_byte(b[i]) == lower_byte(c[i]));
        }
    }
    if ci_eq(a, c) {
        assert forall|i: int| 0 <= i < b.len() implies lower_byte(#[trigger] b[i]) == lower_byte(c[i]) by {
            assert(lower_byte(a[i]) == lower_byte(c[i]));
        }
    }
    assert forall|i: int| 0 <= i < b.len() implies lower_byte(#[trigger] b[i]) == lower_byte(a[i]) by {
        assert(lower_byte(a[i]) == lower_byte(b[i]));
    }
}

proof fn lemma_selector_ci(n: Seq<u8>, m: Seq<u8>)
    requires
        ci_eq(n, m),
    ensures
        is_selector(n) <==> is_selector(m),
{
    lemma_ci_eq_trans(n, m, "rel".spec_bytes());
    lemma_ci_eq_trans(n, m, "name".spec_bytes());
    lemma_ci_eq_trans(n, m, "property".spec_bytes());
}

proof fn lemma_lookup_equiv(a1: Seq<Option<Attribute>>, a2: Seq<Option<Attribute>>, key: Seq<u8>)
    requires
        a1.len() == a2.len(),
        forall|i: int| 0 <= i < a1.len() ==> attr_equiv(#[trigger] a1[i], a2[i]),
    ensures
        attr_lookup(a1, key) is Some <==> attr_lookup(a2, key) is Some,
        attr_lookup(a1, key) is Some && is_selector(key) ==> ci_eq(
            bytes_of(attr_lookup(a1, key)->Some_0@),
            bytes_of(attr_lookup(a2, key)->Some_0@),
        ),
        attr_lookup(a1, key) is Some && !is_selector(key) ==> attr_lookup(a1, key) == attr_lookup(a2, key),
    decreases a1.len(),
{
    if a1.len() > 0 {
        let n = a1.len() - 1;
        assert(attr_equiv(a1[n], a2[n]));
        lemma_lookup_equiv(a1.drop_last(), a2.drop_last(), key);
        if let (Some(x), Some(y)) = (a1[n], a2[n]) {
            lemma_ci_eq_trans(bytes_of(x.name@), bytes_of(y.name@), key);
            if ci_eq(bytes_of(x.name@), key) {
                lemma_selector_ci(bytes_of(x.name@), key);
            }
        }
    }
}

proof fn lemma_in_table_ci(table: Seq<&str>, v1: Seq<u8>, v2: Seq<u8>)
    requires
        ci_eq(v1, v2),
    ensures
        in_table(table, v1) <==> in_table(table, v2),
{
    if in_table(table, v1) {
        let k = choose|k: int| 0 <= k < table.len() && ci_eq(v1, #[trigger] table[k].spec_bytes());
        lemma_ci_eq_trans(v1, v2, table[k].spec_bytes());
    }
    if in_table(table, v2) {
        let k = choose|k: int| 0 <= k < table.len() && ci_eq(v2, #[trigger] table[k].spec_bytes());
        lemma_ci_eq_trans(v1, v2, table[k].spec_bytes());
    }
}

proof fn lemma_extracted_equiv(a1: Seq<Option<Attribute>>, a2: Seq<Option<Attribute>>, table: Seq<&str>, key: &str, content: &str)
    requires
        a1.len() == a2.len(),
        forall|i: int| 0 <= i < a1.len() ==> attr_equiv(#[trigger] a1[i], a2[i]),
        is_selector(key.spec_bytes()),
        !is_selector(content.spec_bytes()),
    ensures
        extracted(a1, table, key, content) == extracted(a2, table, key, content),
{
    lemma_lookup_equiv(a1, a2, key.spec_bytes());
    lemma_lookup_equiv(a1, a2, content.spec_bytes());
    if let Some(n) = attr_lookup(a1, key.spec_bytes()) {
        lemma_in_table_ci(table, bytes_of(n@), bytes_of(attr_lookup(a2, key.spec_bytes())->Some_0@));
    }
}

/// Letter case of element names, attribute names and keyword values does not
/// change the candidates: `<LINK REL="ICON" HREF="/a.png">` yields what
/// `<link rel="icon" href="/a.png">` yields.
pub proof fn law_case_insensitive(e1: Element, e2: Element)
    requires
        equal_but_case(e1, e2),
    ensures
        element_candidates(e1) == element_candidates(e2),
{
    lemma_keyword_bytes();
    let (a1, a2) = (e1.attributes@, e2.attributes@);
    lemma_ci_eq_trans(bytes_of(e1.name@), bytes_of(e2.name@), "meta".spec_bytes());
    lemma_ci_eq_trans(bytes_of(e1.name@), bytes_of(e2.name@), "link".spec_bytes());
    assert(is_selector("rel".spec_bytes()));
    assert(is_selector("name".spec_bytes()));
    assert(is_selector("property".spec_bytes()));
    assert(!is_selector("content".spec_bytes()));
    assert(!is_selector("href".spec_bytes()));
    lemma_extracted_equiv(a1, a2, meta_names(), "name", "content");
    lemma_extracted_equiv(a1, a2, meta_properties(), "property", "content");
    lemma_extracted_equiv(a1, a2, link_rels(), "rel", "href");
}

/// Texts whose tags differ only in letter case where case does not matter
/// give the same candidates: the scan of a text is `scanned` of its tags.
pub proof fn law_scan_case_insensitive(t1: Seq<Element>, t2: Seq<Element>)
    requires
        t1.len() == t2.len(),
        forall|i: int| 0 <= i < t1.len() ==> equal_but_case(#[trigger] t1[i], t2[i]),
    ensures
        scanned(t1) == scanned(t2),
    decreases t1.len(),
{
    if t1.len() > 0 {
        let n = t1.len() - 1;
        assert(equal_but_case(t1[n], t2[n]));
        law_case_insensitive(t1[n], t2[n]);
        law_scan_case_insensitive(t1.drop_last(), t2.drop_last());
    }
}

/// A text one of whose tags is a `link` with `rel` `icon` and `href` `X`
/// scans to candidates that hold `X`: `analyze_content` returns `scanned`
/// of the text's tags.
pub proof fn law_scan_holds_icon_href(tags: Seq<Element>, k: int, i: int, j: int)
    requires
        0 <= k < tags.len(),
        ci_eq(bytes_of(tags[k].name@), "link".spec_bytes()),
        0 <= i < tags[k].attributes@.len(),
        0 <= j < tags[k].attributes@.len(),
        tags[k].attributes@[i] is Some,
        ci_eq(bytes_of(tags[k].attributes@[i]->Some_0.name@), "rel".spec_bytes()),
        ci_eq(bytes_of(tags[k].attributes@[i]->Some_0.value@), "icon".spec_bytes()),
        tags[k].attributes@[j] is Some,
        ci_eq(bytes_of(tags[k].attributes@[j]->Some_0.name@), "href".spec_bytes()),
        forall|m: int| 0 <= m < tags[k].attributes@.len() && m != i && #[trigger] tags[k].attributes@[m] is Some
            ==> !ci_eq(bytes_of(tags[k].attributes@[m]->Some_0.name@), "rel".spec_bytes()),
        forall|m: int| 0 <= m < tags[k].attributes@.len() && m != j && #[trigger] tags[k].attributes@[m] is Some
            ==> !ci_eq(bytes_of(tags[k].attributes@[m]->Some_0.name@), "href".spec_bytes()),
    ensures
        scanned(tags).contains(tags[k].attributes@[j]->Some_0.value),
{
    lemma_scanned_split(tags, k);
    law_link_icon_yields_href(tags[k], i, j);
    let n = scanned(tags.subrange(0, k)).len() as int;
    assert(scanned(tags)[n] == element_candidates(tags[k])[0]);
}

/// The candidates of a sequence of elements around its `k`-th one.
#[verifier::rlimit(40)]
proof fn lemma_scanned_split(tags: Seq<Element>, k: int)
    requires
        0 <= k < tags.len(),
    ensures
        scanned(tags) == scanned(tags.subrange(0, k)) + element_candidates(tags[k])
            + scanned(tags.subrange(k + 1, tags.len() as int)),
{
    let e = tags[k];
    let before = tags.subrange(0, k);
    let after = tags.subrange(k + 1, tags.len() as int);
    let one = seq![e];
    assert(tags =~= before + one + after);
    lemma_scanned_concat(before + one, after);
    lemma_scanned_concat(before, one);
    assert(one.drop_last() =~= Seq::<Element>::empty());
    assert(one.last() == e);
    let c = element_candidates(e);
    assert(scanned(one) == scanned(one.drop_last()) + c);
    assert(scanned(Seq::<Element>::empty()) + c =~= c);
}

} // verus!
