use vstd::prelude::*;
use crate::laws::{lemma_collected_addresses, law_one_link_per_address};
use crate::resolve::{is_web, page_targets, page_url, parse_url, probe_targets, texts, url_parse};

verus! {

#[verifier::external_type_specification]
#[verifier::external_body]
pub struct ExImageType(imagesize::ImageType);

/// What can go wrong while turning a page or an image prefix into results.
#[derive(Debug, Clone, Copy, PartialEq, Eq, Structural)]
pub enum IconError {
    /// An address that does not parse, or whose scheme is not `http`/`https`.
    InvalidUrl,
    /// A request that failed or was answered with an error status.
    FetchError,
    /// The bytes carry no image signature that is recognised.
    UnsupportedFormat,
    /// The bytes end before the header fields that hold the size.
    TruncatedData,
    /// The header is recognised but its fields do not describe an image.
    CorruptedImage,
}

/// What `imagesize::blob_size` reports for a byte prefix.
pub uninterp spec fn blob_dimensions(data: Seq<u8>) -> Result<(usize, usize), IconError>;

/// What `imagesize::image_type` reports for a byte prefix.
pub uninterp spec fn blob_image_type(data: Seq<u8>) -> Result<imagesize::ImageType, IconError>;

/// Relies on `imagesize::blob_size`: width and height read from the header.
/// Running out of bytes is an unexpected-end I/O error (here
/// `TruncatedData`), which it always is on fewer than 12 bytes: those are read
/// before the signature is looked at. Other I/O errors mean bad header data.
#[verifier::external_body]
fn pixel_size(data: &[u8]) -> (r: Result<(usize, usize), IconError>)
    ensures
        r == blob_dimensions(data@),
        r is Err && r->Err_0 == IconError::TruncatedData || data@.len() >= 12,
{
    match imagesize::blob_size(data) {
        Ok(size) => Ok((size.width, size.height)),
        Err(imagesize::ImageError::NotSupported) => Err(IconError::UnsupportedFormat),
        Err(imagesize::ImageError::CorruptedImage) => Err(IconError::CorruptedImage),
        Err(imagesize::ImageError::IoError(e)) if e.kind() == std::io::ErrorKind::UnexpectedEof => Err(IconError::TruncatedData),
        Err(imagesize::ImageError::IoError(_)) => Err(IconError::CorruptedImage),
    }
}

/// Relies on `imagesize::image_type`: the format told by the signature, and
/// an unexpected-end I/O error (here `TruncatedData`) on fewer than 12 bytes.
#[verifier::external_body]
fn detect_type(data: &[u8]) -> (r: Result<imagesize::ImageType, IconError>)
    ensures
        r == blob_image_type(data@),
        r is Err && r->Err_0 == IconError::TruncatedData || data@.len() >= 12,
{
    match imagesize::image_type(data) {
        Ok(kind) => Ok(kind),
        Err(imagesize::ImageError::NotSupported) => Err(IconError::UnsupportedFormat),
        Err(imagesize::ImageError::CorruptedImage) => Err(IconError::CorruptedImage),
        Err(imagesize::ImageError::IoError(e)) if e.kind() == std::io::ErrorKind::UnexpectedEof => Err(IconError::TruncatedData),
        Err(imagesize::ImageError::IoError(_)) => Err(IconError::CorruptedImage),
    }
}

/// An image that was reached and whose size was read.
#[derive(Debug)]
pub struct ImageLink {
    /// Absolute address of the image.
    pub url: String,
    /// Format told by the image's signature.
    pub image_type: imagesize::ImageType,
    /// Width in pixels.
    pub width: usize,
    /// Height in pixels.
    pub height: usize,
}

/// The descriptor's content: address, format, width, height.
pub type LinkView = (Seq<char>, imagesize::ImageType, usize, usize);

impl View for ImageLink {
    type V = LinkView;

    open spec fn view(&self) -> LinkView {
        (self.url@, self.image_type, self.width, self.height)
    }
}

/// What sniffing `data` fetched from `url` yields: the size is read first,
/// then the format, and the first failure is the result.
pub open spec fn sniffed(url: Seq<char>, data: Seq<u8>) -> Result<LinkView, IconError> {
    match blob_dimensions(data) {
        Err(e) => Err(e),
        Ok((w, h)) => match blob_image_type(data) {
            Err(e) => Err(e),
            Ok(t) => Ok((url, t, w, h)),
        },
    }
}

/// The descriptor that the fetch outcome of `url` yields, or why it yields
/// none.
pub open spec fn outcome_result(url: Seq<char>, outcome: Result<Vec<u8>, IconError>) -> Result<LinkView, IconError> {
    match outcome {
        Ok(data) => sniffed(url, data@),
        Err(e) => Err(e),
    }
}

/// The descriptors that the first `n` addresses yield with their fetch
/// outcomes, in order; failures are left out.
pub open spec fn collected(urls: Seq<Seq<char>>, outcomes: Seq<Result<Vec<u8>, IconError>>, n: int) -> Seq<LinkView>
    decreases n,
{
    if n <= 0 {
        seq![]
    } else {
        let prev = collected(urls, outcomes, n - 1);
        match outcome_result(urls[n - 1], outcomes[n - 1]) {
            Ok(v) => prev.push(v),
            Err(_) => prev,
        }
    }
}

/// The descriptors of the addresses that have a fetch outcome.
pub open spec fn collected_all(urls: Seq<Seq<char>>, outcomes: Seq<Result<Vec<u8>, IconError>>) -> Seq<LinkView> {
    collected(urls, outcomes, if urls.len() <= outcomes.len() { urls.len() as int } else { outcomes.len() as int })
}

/// The views of a sequence of descriptors.
pub open spec fn link_views(links: Seq<ImageLink>) -> Seq<LinkView> {
    links.map_values(|l: ImageLink| l@)
}

/// The addresses of a sequence of descriptors.
pub open spec fn link_urls(links: Seq<LinkView>) -> Seq<Seq<char>> {
    links.map_values(|l: LinkView| l.0)
}

impl ImageLink {
    /// Builds the descriptor of the image at `url` from the first bytes that
    /// were fetched from it; the address is kept in its parsed form.
    pub fn new(url: String, data: &[u8]) -> (r: Result<ImageLink, IconError>)
        ensures
            url_parse(url@) is None ==> r is Err && r->Err_0 == IconError::InvalidUrl,
            url_parse(url@) is Some ==> match r {
                Ok(link) => sniffed(url_parse(url@)->Some_0, data@) == Ok::<LinkView, IconError>(link@),
                Err(e) => sniffed(url_parse(url@)->Some_0, data@) == Err::<LinkView, IconError>(e),
            },
            url_parse(url@) is Some && data@.len() < 12 ==> r is Err && r->Err_0 == IconError::TruncatedData,
    {
        let url = match parse_url(url.as_str()) {
            Some(u) => u,
            None => return Err(IconError::InvalidUrl),
        };
        ImageLink::sniff_at(url, data)
    }

    /// The descriptor of the image at an address already in parsed form.
    fn sniff_at(url: String, data: &[u8]) -> (r: Result<ImageLink, IconError>)
        ensures
            match r {
                Ok(link) => sniffed(url@, data@) == Ok::<LinkView, IconError>(link@),
                Err(e) => sniffed(url@, data@) == Err::<LinkView, IconError>(e),
            },
            data@.len() < 12 ==> r is Err && r->Err_0 == IconError::TruncatedData,
    {
        let (width, height) = match pixel_size(data) {
            Ok(size) => size,
            Err(e) => return Err(e),
        };
        let image_type = match detect_type(data) {
            Ok(kind) => kind,
            Err(e) => return Err(e),
        };
        Ok(ImageLink { url, image_type, width, height })
    }

    /// The icons of a web page. `base_url` is the page's address,
    /// `content_type` and `body` what fetching it gave, and `outcomes` the
    /// results of fetching the first bytes of each address of
    /// `probe_targets(page_url(base_url), content_type, body)`, in that order.
    /// An address whose fetch failed, that has no outcome, or whose bytes
    /// cannot be sniffed is left out. An address that does not parse or is not
    /// `http`/`https` gives `InvalidUrl`.
    pub fn from_website(
        base_url: &str,
        content_type: Option<&str>,
        body: &str,
        outcomes: &Vec<Result<Vec<u8>, IconError>>,
    ) -> (r: Result<Vec<ImageLink>, IconError>)
        ensures
            match url_parse(base_url@) {
                Some(u) => if is_web(u) {
                    r is Ok && link_views(r->Ok_0@) == collected_all(page_targets(u, content_type, body@), outcomes@)
                } else {
                    r == Err::<Vec<ImageLink>, IconError>(IconError::InvalidUrl)
                },
                None => r == Err::<Vec<ImageLink>, IconError>(IconError::InvalidUrl),
            },
            r is Ok ==> link_urls(link_views(r->Ok_0@)).no_duplicates(),
            r is Ok ==> forall|k: int| 0 <= k < r->Ok_0@.len() ==> {
                &&& is_web(#[trigger] r->Ok_0@[k].url@)
                &&& page_targets(url_parse(base_url@)->Some_0, content_type, body@).contains(r->Ok_0@[k].url@)
            },
    {
        let base = match page_url(base_url) {
            Ok(b) => b,
            Err(e) => return Err(e),
        };
        let targets = probe_targets(base.as_str(), content_type, body);
        let ghost urls = texts(targets@);
        let mut list: Vec<ImageLink> = Vec::new();
        let mut i: usize = 0;
        while i < targets.len() && i < outcomes.len()
            invariant
                0 <= i <= targets@.len(),
                i <= outcomes@.len(),
                urls == texts(targets@),
                link_views(list@) == collected(urls, outcomes@, i as int),
            decreases targets@.len() - i,
        {
            if let Ok(data) = &outcomes[i] {
                if let Ok(link) = ImageLink::sniff_at(targets[i].clone(), data.as_slice()) {
                    let ghost prev = list@;
                    let ghost view = link@;
                    list.push(link);
                    assert(link_views(list@) =~= link_views(prev).push(view));
                }
            }
            assert(urls[i as int] == targets@[i as int]@);
            i = i + 1;
        }
        proof {
            let n = i as int;
            lemma_collected_addresses(urls, outcomes@, n);
            law_one_link_per_address(urls, outcomes@, n);
            assert forall|k: int| 0 <= k < list@.len() implies {
                &&& is_web(#[trigger] list@[k].url@)
                &&& urls.contains(list@[k].url@)
            } by {
                assert(link_views(list@)[k] == list@[k]@);
                let j = choose|j: int| 0 <= j < n && urls[j] == collected(urls, outcomes@, n)[k].0;
                assert(urls[j] == targets@[j]@);
            }
        }
        Ok(list)
    }
}

} // verus!
