use vstd::prelude::*;
use vstd::string::StringSliceAdditionalSpecFns;
use vstd::utf8::{
    decode_utf8, decode_utf8_encode_utf8, encode_utf8, encode_utf8_decode_utf8, encode_utf8_valid_utf8,
    is_char_boundary, valid_utf8_split,
};
use quick_xml::events::Event;
use quick_xml::Reader;

verus! {

#[verifier::external_type_specification]
#[verifier::external_body]
#[verifier::reject_recursive_types(R)]
pub struct ExReader<R>(Reader<R>);

/// One attribute of an element, as written in the markup.
#[derive(Debug)]
pub struct Attribute {
    /// The attribute's local name, in its own case.
    pub name: String,
    /// The raw value, entities left as written.
    pub value: String,
}

/// An opening or self-closing tag: its local name and its attributes in
/// order; `None` stands for an attribute that could not be read.
#[derive(Debug)]
pub struct Element {
    /// The tag's local name, in its own case.
    pub name: String,
    /// The attributes in the order written.
    pub attributes: Vec<Option<Attribute>>,
}

/// One step of the tag-event stream.
#[derive(Debug)]
pub enum MarkupEvent {
    /// An opening or self-closing tag.
    Tag(Element),
    /// Text, a closing tag, a comment or anything else without candidates.
    Other,
    /// Markup the reader could not parse.
    Malformed,
    /// The end of the input.
    End,
}

/// The events that quick-xml's reader, set up as `markup_reader` sets it up,
/// yields for a text before it reports the end of input.
pub uninterp spec fn markup_events(html: Seq<char>) -> Seq<MarkupEvent>;

/// The events that a reader has still to yield before the end of input.
pub uninterp spec fn pending_events(reader: Reader<&[u8]>) -> Seq<MarkupEvent>;

/// The text that a reader reads.
pub uninterp spec fn reader_text(reader: Reader<&[u8]>) -> Seq<char>;

/// The reader has reported the end of input.
pub uninterp spec fn ended(reader: Reader<&[u8]>) -> bool;

/// How many bytes of a text quick-xml's reader has read once it has reported
/// the end of input.
pub uninterp spec fn stop_offset(html: Seq<char>) -> usize;

/// Relies on `quick_xml::Reader::from_str`, with text trimmed and closing
/// tags not matched against opening ones, as HTML needs. The new reader has
/// all the text's events still to yield; none of them is the end.
#[verifier::external_body]
fn markup_reader(html: &str) -> (r: Reader<&[u8]>)
    ensures
        pending_events(r) == markup_events(html@),
        reader_text(r) == html@,
        forall|i: int| 0 <= i < pending_events(r).len() ==> !(#[trigger] pending_events(r)[i] is End),
{
    let mut reader = Reader::from_str(html);
    reader.trim_text(true);
    reader.check_end_names(false);
    reader
}

/// Relies on `quick_xml::Reader::read_event` for the next event, and on
/// `BytesStart::attributes` to hand a tag over; names and values are taken
/// as UTF-8 text. An attribute that does not parse or decode, or repeats an
/// earlier name letter for letter, becomes `None`. Once the events are used up the
/// reader reports the end, again and again.
#[verifier::external_body]
fn next_event(reader: &mut Reader<&[u8]>) -> (r: MarkupEvent)
    ensures
        pending_events(*old(reader)).len() > 0 ==> r == pending_events(*old(reader))[0]
            && pending_events(*final(reader)) == pending_events(*old(reader)).drop_first(),
        pending_events(*old(reader)).len() == 0 ==> r is End && pending_events(*final(reader)).len() == 0,
        reader_text(*final(reader)) == reader_text(*old(reader)),
        r is End ==> ended(*final(reader)),
{
    let text = |b: &[u8]| String::from_utf8(b.to_vec()).ok();
    let e = match reader.read_event() {
        Ok(Event::Start(e)) => e,
        Ok(Event::Empty(e)) => e,
        Ok(Event::Eof) => return MarkupEvent::End,
        Err(_) => return MarkupEvent::Malformed,
        Ok(_) => return MarkupEvent::Other,
    };
    MarkupEvent::Tag(Element {
        name: text(e.local_name().as_ref()).unwrap_or_default(),
        attributes: e.attributes().map(|a| a.ok().and_then(|a| {
            Some(Attribute { name: text(a.key.local_name().as_ref())?, value: text(&a.value)? })
        })).collect(),
    })
}

/// The tags among a sequence of events, in order.
pub open spec fn tags_of(events: Seq<MarkupEvent>) -> Seq<Element>
    decreases events.len(),
{
    if events.len() == 0 {
        seq![]
    } else {
        let prev = tags_of(events.drop_last());
        match events.last() {
            MarkupEvent::Tag(e) => prev.push(e),
            _ => prev,
        }
    }
}

/// Relies on `quick_xml::Reader::buffer_position`: how many bytes of its
/// text the reader has read.
#[verifier::external_body]
fn read_position(reader: &Reader<&[u8]>) -> (r: usize)
    ensures
        ended(*reader) ==> r == stop_offset(reader_text(*reader)),
{
    reader.buffer_position()
}

/// The text that follows the first `p` bytes of `html`.
pub open spec fn text_after(html: Seq<char>, p: int) -> Seq<char> {
    decode_utf8(bytes_of(html).subrange(p, bytes_of(html).len() as int))
}

/// The reader stopped on malformed markup with more text after it, where
/// scanning goes on.
pub open spec fn resumes(html: Seq<char>) -> bool {
    let events = markup_events(html);
    let p = stop_offset(html) as int;
    &&& events.len() > 0
    &&& events.last() is Malformed
    &&& 0 < p < bytes_of(html).len()
    &&& is_char_boundary(bytes_of(html), p)
}

/// The text starts with a UTF-8 byte-order mark.
pub open spec fn starts_with_bom(t: Seq<char>) -> bool {
    has_prefix(bytes_of(t), seq![0xEFu8, 0xBBu8, 0xBFu8]) && is_char_boundary(bytes_of(t), 3)
}

/// A text without the byte-order marks it starts with; the reader would
/// drop one without counting it in its position.
pub open spec fn without_bom(t: Seq<char>) -> Seq<char>
    decreases bytes_of(t).len(),
    via without_bom_decreases
{
    if starts_with_bom(t) {
        without_bom(text_after(t, 3))
    } else {
        t
    }
}

/// The text after the first `p` bytes has `p` bytes fewer.
proof fn lemma_text_after_len(t: Seq<char>, p: int)
    requires
        0 <= p <= bytes_of(t).len(),
        is_char_boundary(bytes_of(t), p),
    ensures
        bytes_of(text_after(t, p)).len() == bytes_of(t).len() - p,
{
    let b = bytes_of(t);
    encode_utf8_valid_utf8(t);
    valid_utf8_split(b, p);
    decode_utf8_encode_utf8(b.subrange(p, b.len() as int));
}

#[via_fn]
proof fn without_bom_decreases(t: Seq<char>) {
    if starts_with_bom(t) {
        lemma_text_after_len(t, 3);
    }
}

proof fn lemma_without_bom_len(t: Seq<char>)
    ensures
        bytes_of(without_bom(t)).len() <= bytes_of(t).len(),
    decreases bytes_of(t).len(),
{
    if starts_with_bom(t) {
        lemma_text_after_len(t, 3);
        lemma_without_bom_len(text_after(t, 3));
    }
}

/// The opening and self-closing tags of a text, in document order: those the
/// reader yields, and, when it stops on malformed markup, those of the text
/// after the point where it stopped.
pub open spec fn markup_tags(html: Seq<char>) -> Seq<Element>
    decreases bytes_of(html).len(),
    via markup_tags_decreases
{
    let w = without_bom(html);
    if resumes(w) {
        tags_of(markup_events(w)) + markup_tags(text_after(w, stop_offset(w) as int))
    } else {
        tags_of(markup_events(w))
    }
}

#[via_fn]
proof fn markup_tags_decreases(html: Seq<char>) {
    let w = without_bom(html);
    lemma_without_bom_len(html);
    if resumes(w) {
        lemma_text_after_len(w, stop_offset(w) as int);
    }
}

/// Drops the byte-order marks a text starts with.
fn strip_bom(text: &str) -> (r: &str)
    ensures
        r@ == without_bom(text@),
{
    let mut t: &str = text;
    loop
        invariant_except_break
            without_bom(t@) == without_bom(text@),
        ensures
            t@ == without_bom(text@),
        decreases t.spec_bytes().len(),
    {
        assert(t.spec_bytes() == bytes_of(t@));
        let b = t.as_bytes();
        assert(b@ == bytes_of(t@));
        let prefixed = b.len() >= 3 && b[0] == 0xEF && b[1] == 0xBB && b[2] == 0xBF;
        proof {
            if b@.len() >= 3 {
                let head = b@.subrange(0, 3);
                if prefixed {
                    assert(head =~= seq![0xEFu8, 0xBBu8, 0xBFu8]);
                } else {
                    assert(head[0] == b@[0] && head[1] == b@[1] && head[2] == b@[2]);
                }
            }
        }
        assert(prefixed == has_prefix(bytes_of(t@), seq![0xEFu8, 0xBBu8, 0xBFu8]));
        if prefixed && t.is_char_boundary(3) {
            assert(starts_with_bom(t@));
            let (_, after) = t.split_at(3);
            proof {
                encode_utf8_decode_utf8(after@);
                assert(after@ == text_after(t@, 3));
            }
            t = after;
        } else {
            assert(!starts_with_bom(t@));
            break;
        }
    }
    t
}

/// An ASCII upper-case letter mapped to lower case; other bytes unchanged.
pub open spec fn lower_byte(b: u8) -> u8 {
    if 65 <= b && b <= 90 { (b + 32) as u8 } else { b }
}

/// Two byte strings equal but for ASCII letter case.
pub open spec fn ci_eq(a: Seq<u8>, b: Seq<u8>) -> bool {
    a.len() == b.len() && forall|i: int| 0 <= i < a.len() ==> lower_byte(#[trigger] a[i]) == lower_byte(b[i])
}

/// The UTF-8 bytes of a text.
pub open spec fn bytes_of(s: Seq<char>) -> Seq<u8> {
    encode_utf8(s)
}

/// Value of the last readable attribute whose name is `key`, ignoring case.
pub open spec fn attr_lookup(attrs: Seq<Option<Attribute>>, key: Seq<u8>) -> Option<String>
    decreases attrs.len(),
{
    if attrs.len() == 0 {
        None
    } else {
        match attrs.last() {
            Some(a) if ci_eq(bytes_of(a.name@), key) => Some(a.value),
            _ => attr_lookup(attrs.drop_last(), key),
        }
    }
}

/// `v` is one of the keywords of `table`, ignoring case.
pub open spec fn in_table(table: Seq<&str>, v: Seq<u8>) -> bool {
    exists|k: int| 0 <= k < table.len() && ci_eq(v, #[trigger] table[k].spec_bytes())
}

/// The value of attribute `content` when attribute `key` holds a keyword of
/// `table`; nothing otherwise.
pub open spec fn extracted(attrs: Seq<Option<Attribute>>, table: Seq<&str>, key: &str, content: &str) -> Seq<String> {
    match (attr_lookup(attrs, key.spec_bytes()), attr_lookup(attrs, content.spec_bytes())) {
        (Some(n), Some(c)) => if in_table(table, bytes_of(n@)) { seq![c] } else { seq![] },
        _ => seq![],
    }
}

/// Values of `<meta name=...>` that mark a Windows tile image.
pub open spec fn meta_names() -> Seq<&'static str> {
    seq![
        "msapplication-TileImage",
        "msapplication-square70x70logo",
        "msapplication-square150x150logo",
        "msapplication-square310x310logo",
        "msapplication-wide310x150logo",
    ]
}

/// Values of `<meta property=...>` that mark an Open Graph image.
pub open spec fn meta_properties() -> Seq<&'static str> {
    seq!["og:image"]
}

/// Values of `<link rel=...>` that mark an icon.
pub open spec fn link_rels() -> Seq<&'static str> {
    seq!["apple-touch-icon", "shortcut icon", "icon"]
}

/// The candidate references that one element carries.
pub open spec fn element_candidates(e: Element) -> Seq<String> {
    let attrs = e.attributes@;
    if ci_eq(bytes_of(e.name@), "meta".spec_bytes()) {
        extracted(attrs, meta_names(), "name", "content") + extracted(attrs, meta_properties(), "property", "content")
    } else if ci_eq(bytes_of(e.name@), "link".spec_bytes()) {
        extracted(attrs, link_rels(), "rel", "href")
    } else {
        seq![]
    }
}

/// The candidate references of a sequence of elements, in order.
pub open spec fn scanned(elements: Seq<Element>) -> Seq<String>
    decreases elements.len(),
{
    if elements.len() == 0 {
        seq![]
    } else {
        scanned(elements.drop_last()) + element_candidates(elements.last())
    }
}

/// Compares two byte strings ignoring ASCII letter case.
pub fn equal_ignoring_case(a: &[u8], b: &[u8]) -> (r: bool)
    ensures
        r == ci_eq(a@, b@),
{
    if a.len() != b.len() {
        return false;
    }
    let mut i: usize = 0;
    while i < a.len()
        invariant
            a@.len() == b@.len(),
            0 <= i <= a@.len(),
            forall|j: int| 0 <= j < i ==> lower_byte(#[trigger] a@[j]) == lower_byte(b@[j]),
        decreases a@.len() - i,
    {
        let x: u8 = if 65 <= a[i] && a[i] <= 90 { a[i] + 32 } else { a[i] };
        let y: u8 = if 65 <= b[i] && b[i] <= 90 { b[i] + 32 } else { b[i] };
        if x != y {
            return false;
        }
        i = i + 1;
    }
    true
}

/// Looks up an attribute by name, ignoring case; the last one wins.
pub fn attribute_value(attrs: &Vec<Option<Attribute>>, key: &str) -> (r: Option<String>)
    ensures
        r == attr_lookup(attrs@, key.spec_bytes()),
{
    let mut i: usize = attrs.len();
    assert(attrs@.subrange(0, i as int) =~= attrs@);
    while i > 0
        invariant
            i <= attrs@.len(),
            attr_lookup(attrs@, key.spec_bytes()) == attr_lookup(attrs@.subrange(0, i as int), key.spec_bytes()),
        decreases i,
    {
        assert(attrs@.subrange(0, i as int).drop_last() =~= attrs@.subrange(0, i - 1));
        if let Some(a) = &attrs[i - 1] {
            if equal_ignoring_case(a.name.as_str().as_bytes(), key.as_bytes()) {
                return Some(a.value.clone());
            }
        }
        i = i - 1;
    }
    assert(attrs@.subrange(0, 0) =~= Seq::<Option<Attribute>>::empty());
    None
}

/// `p` is a prefix of `s`.
pub open spec fn has_prefix(s: Seq<u8>, p: Seq<u8>) -> bool {
    p.len() <= s.len() && s.subrange(0, p.len() as int) == p
}

/// Tells whether `p` is a prefix of `s`.
pub fn starts_with_bytes(s: &[u8], p: &[u8]) -> (r: bool)
    ensures
        r == has_prefix(s@, p@),
{
    if p.len() > s.len() {
        return false;
    }
    let mut i: usize = 0;
    while i < p.len()
        invariant
            p@.len() <= s@.len(),
            0 <= i <= p@.len(),
            forall|j: int| 0 <= j < i ==> #[trigger] s@[j] == p@[j],
        decreases p@.len() - i,
    {
        if s[i] != p[i] {
            return false;
        }
        i = i + 1;
    }
    assert(s@.subrange(0, p@.len() as int) =~= p@);
    true
}

/// Tells whether `v` is one of the keywords of `table`, ignoring case.
fn in_keywords(table: &Vec<&str>, v: &[u8]) -> (r: bool)
    ensures
        r == in_table(table@, v@),
{
    let mut k: usize = 0;
    while k < table.len()
        invariant
            0 <= k <= table@.len(),
            forall|j: int| 0 <= j < k ==> !ci_eq(v@, #[trigger] table@[j].spec_bytes()),
        decreases table@.len() - k,
    {
        if equal_ignoring_case(v, table[k].as_bytes()) {
            return true;
        }
        k = k + 1;
    }
    false
}

/// The keywords of `meta_names`.
fn meta_name_table() -> (r: Vec<&'static str>)
    ensures
        r@ == meta_names(),
{
    let r = vec![
        "msapplication-TileImage",
        "msapplication-square70x70logo",
        "msapplication-square150x150logo",
        "msapplication-square310x310logo",
        "msapplication-wide310x150logo",
    ];
    assert(r@ =~= meta_names());
    r
}

/// The keywords of `meta_properties`.
fn meta_property_table() -> (r: Vec<&'static str>)
    ensures
        r@ == meta_properties(),
{
    let r = vec!["og:image"];
    assert(r@ =~= meta_properties());
    r
}

/// The keywords of `link_rels`.
fn link_rel_table() -> (r: Vec<&'static str>)
    ensures
        r@ == link_rels(),
{
    let r = vec!["apple-touch-icon", "shortcut icon", "icon"];
    assert(r@ =~= link_rels());
    r
}

/// The value of attribute `content` when attribute `key_name` holds one of
/// `names` (both looked up and compared ignoring case); the value keeps its
/// own case.
pub fn extract(attrs: &Vec<Option<Attribute>>, names: &Vec<&str>, key_name: &str, content: &str) -> (r: Vec<String>)
    ensures
        r@ == extracted(attrs@, names@, key_name, content),
{
    let mut list: Vec<String> = Vec::new();
    let name = attribute_value(attrs, key_name);
    let value = attribute_value(attrs, content);
    if let Some(name) = name {
        if let Some(value) = value {
            if in_keywords(names, name.as_str().as_bytes()) {
                list.push(value);
            }
        }
    }
    assert(list@ =~= extracted(attrs@, names@, key_name, content));
    list
}

/// The candidate references of one element.
pub fn check_start_elem(e: &Element) -> (r: Vec<String>)
    ensures
        r@ == element_candidates(*e),
{
    let mut list: Vec<String> = Vec::new();
    let name = e.name.as_str().as_bytes();
    if equal_ignoring_case(name, "meta".as_bytes()) {
        let mut l = extract(&e.attributes, &meta_name_table(), "name", "content");
        list.append(&mut l);
        let mut l = extract(&e.attributes, &meta_property_table(), "property", "content");
        list.append(&mut l);
    } else if equal_ignoring_case(name, "link".as_bytes()) {
        let mut l = extract(&e.attributes, &link_rel_table(), "rel", "href");
        list.append(&mut l);
    }
    assert(list@ =~= element_candidates(*e));
    list
}

/// The candidate references of a sequence of elements, in order.
pub fn scan_elements(elements: &Vec<Element>) -> (r: Vec<String>)
    ensures
        r@ == scanned(elements@),
{
    let mut list: Vec<String> = Vec::new();
    let mut i: usize = 0;
    while i < elements.len()
        invariant
            0 <= i <= elements@.len(),
            list@ == scanned(elements@.subrange(0, i as int)),
        decreases elements@.len() - i,
    {
        let mut l = check_start_elem(&elements[i]);
        list.append(&mut l);
        assert(elements@.subrange(0, i + 1).drop_last() =~= elements@.subrange(0, i as int));
        i = i + 1;
    }
    assert(elements@.subrange(0, i as int) =~= elements@);
    list
}

/// The candidates of a concatenation are those of each part.
pub proof fn lemma_scanned_concat(a: Seq<Element>, b: Seq<Element>)
    ensures
        scanned(a + b) == scanned(a) + scanned(b),
    decreases b.len(),
{
    if b.len() == 0 {
        assert(a + b =~= a);
        assert(scanned(a) + scanned(b) =~= scanned(a));
    } else {
        assert((a + b).drop_last() =~= a + b.drop_last());
        lemma_scanned_concat(a, b.drop_last());
        assert(scanned(a) + scanned(b) =~= scanned(a) + scanned(b.drop_last()) + element_candidates(b.last()));
    }
}

/// One pass of the tag-event reader over `text`: the candidates of the tags
/// it yields, and where scanning resumes when it stops on malformed markup.
fn scan_segment(text: &str) -> (r: (Vec<String>, Option<usize>))
    ensures
        r.0@ == scanned(tags_of(markup_events(text@))),
        r.1 == (if resumes(text@) { Some(stop_offset(text@)) } else { None::<usize> }),
{
    let mut reader = markup_reader(text);
    let mut list: Vec<String> = Vec::new();
    let mut last_malformed = false;
    let ghost events = markup_events(text@);
    let ghost mut done: int = 0;
    loop
        invariant
            0 <= done <= events.len(),
            pending_events(reader) == events.subrange(done, events.len() as int),
            reader_text(reader) == text@,
            forall|i: int| 0 <= i < events.len() ==> !(#[trigger] events[i] is End),
            list@ == scanned(tags_of(events.subrange(0, done))),
            last_malformed == (done > 0 && events[done - 1] is Malformed),
        ensures
            done == events.len(),
            ended(reader),
            reader_text(reader) == text@,
            list@ == scanned(tags_of(events.subrange(0, done))),
            last_malformed == (done > 0 && events[done - 1] is Malformed),
        decreases pending_events(reader).len(),
    {
        let ghost before = reader;
        let event = next_event(&mut reader);
        proof {
            if pending_events(before).len() > 0 {
                assert(events.subrange(0, done + 1).drop_last() =~= events.subrange(0, done));
                assert(pending_events(reader) =~= events.subrange(done + 1, events.len() as int));
                assert(events[done] == pending_events(before)[0]);
            }
        }
        match event {
            MarkupEvent::Tag(element) => {
                let mut l = check_start_elem(&element);
                list.append(&mut l);
                last_malformed = false;
                proof {
                    let tags = tags_of(events.subrange(0, done));
                    assert(tags_of(events.subrange(0, done + 1)) == tags.push(element));
                    assert(tags.push(element).drop_last() =~= tags);
                    done = done + 1;
                }
            },
            MarkupEvent::End => {
                proof {
                    if pending_events(before).len() > 0 {
                        assert(pending_events(before)[0] == events[done]);
                    }
                    assert(pending_events(before).len() == events.len() - done);
                }
                break;
            },
            MarkupEvent::Malformed => {
                last_malformed = true;
                proof {
                    done = done + 1;
                }
            },
            MarkupEvent::Other => {
                last_malformed = false;
                proof {
                    done = done + 1;
                }
            },
        }
    }
    assert(events.subrange(0, done) =~= events);
    assert(text.spec_bytes() == bytes_of(text@));
    proof {
        if done > 0 {
            assert(events.last() == events[done - 1]);
        }
    }
    if last_malformed {
        let p = read_position(&reader);
        if 0 < p && p < text.as_bytes().len() && text.is_char_boundary(p) {
            return (list, Some(p));
        }
    }
    (list, None)
}

/// Scans markup for candidate references: the opening and self-closing tags
/// that the tag-event reader yields, each inspected as `check_start_elem`
/// does; text, closing tags and the rest add nothing. Where the reader stops
/// on malformed markup, scanning goes on after it.
pub fn analyze_content(html: &str) -> (r: Vec<String>)
    ensures
        r@ == scanned(markup_tags(html@)),
{
    let mut list: Vec<String> = Vec::new();
    let mut rest: &str = html;
    loop
        invariant_except_break
            list@ + scanned(markup_tags(rest@)) == scanned(markup_tags(html@)),
        ensures
            list@ == scanned(markup_tags(html@)),
        decreases rest.spec_bytes().len(),
    {
        let seg = strip_bom(rest);
        let (mut found, resume) = scan_segment(seg);
        let ghost tags = tags_of(markup_events(seg@));
        let ghost prev = list@;
        list.append(&mut found);
        match resume {
            Some(p) => {
                let (_, after) = seg.split_at(p);
                proof {
                    encode_utf8_decode_utf8(after@);
                    assert(after@ == text_after(seg@, p as int));
                    assert(markup_tags(rest@) == tags + markup_tags(after@));
                    lemma_scanned_concat(tags, markup_tags(after@));
                    assert(prev + scanned(tags) + scanned(markup_tags(after@))
                        =~= prev + (scanned(tags) + scanned(markup_tags(after@))));
                    lemma_without_bom_len(rest@);
                    lemma_text_after_len(seg@, p as int);
                }
                rest = after;
            },
            None => {
                assert(scanned(markup_tags(rest@)) == scanned(tags));
                assert(list@ =~= prev + scanned(markup_tags(rest@)));
                break;
            },
        }
    }
    list
}

/// A content type that announces HTML.
pub open spec fn is_html(content_type: Option<&str>) -> bool {
    match content_type {
        Some(t) => has_prefix(t.spec_bytes(), "text/html".spec_bytes()),
        None => false,
    }
}

/// The candidate references of a fetched page: those of its markup when its
/// content type announces HTML, none otherwise.
pub fn analyze_location(content_type: Option<&str>, body: &str) -> (r: Vec<String>)
    ensures
        !is_html(content_type) ==> r@.len() == 0,
        is_html(content_type) ==> r@ == scanned(markup_tags(body@)),
{
    if let Some(t) = content_type {
        if starts_with_bytes(t.as_bytes(), "text/html".as_bytes()) {
            return analyze_content(body);
        }
    }
    Vec::new()
}

} // verus!
