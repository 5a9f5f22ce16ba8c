//! What the HTTP API does with what it receives before and after it calls
//! into storage and the node: request records, page decoding, error
//! statuses.
use vstd::prelude::*;
use crate::archive::{cbz_archive, cbz_bytes, cbz_fits, page_views};
use crate::models::{CreateSeriesParams, NodeInfo};
use crate::pending::string_views;
use crate::text::{decimal, to_decimal};

verus! {

/// Whether `c` has the Unicode `White_Space` property.
pub open spec fn is_white_space(c: char) -> bool {
    let u = c as u32;
    ||| 0x09 <= u <= 0x0d
    ||| u == 0x20
    ||| u == 0x85
    ||| u == 0xa0
    ||| u == 0x1680
    ||| 0x2000 <= u <= 0x200a
    ||| u == 0x2028
    ||| u == 0x2029
    ||| u == 0x202f
    ||| u == 0x205f
    ||| u == 0x3000
}

/// Whether `c` is white space, as `char::is_whitespace` decides it: the
/// Unicode `White_Space` property.
fn char_is_whitespace(c: char) -> (b: bool)
    ensures
        b == is_white_space(c),
{
    let u = c as u32;
    (0x09 <= u && u <= 0x0d) || u == 0x20 || u == 0x85 || u == 0xa0 || u == 0x1680 || (0x2000 <= u
        && u <= 0x200a) || u == 0x2028 || u == 0x2029 || u == 0x202f || u == 0x205f || u == 0x3000
}

/// What follows the first comma of `s`, or `None` when it has none.
pub open spec fn after_first_comma(s: Seq<char>) -> Option<Seq<char>>
    decreases s.len(),
{
    if s.len() == 0 {
        None
    } else if s[0] == ',' {
        Some(s.drop_first())
    } else {
        after_first_comma(s.drop_first())
    }
}

/// The encoded part of a page's content: a data URI's payload after its
/// first comma, or the whole content when there is none.
pub open spec fn encoded_part(s: Seq<char>) -> Seq<char> {
    match after_first_comma(s) {
        Some(rest) => rest,
        None => s,
    }
}

/// `s` without its whitespace.
pub open spec fn without_white_space(s: Seq<char>) -> Seq<char> {
    s.filter(|c: char| !is_white_space(c))
}

/// The Base64 text of a page's content: its encoded part without
/// whitespace.
pub open spec fn page_base64(content: Seq<char>) -> Seq<char> {
    without_white_space(encoded_part(content))
}

proof fn lemma_filter_push(s: Seq<char>, c: char)
    ensures
        without_white_space(s.push(c)) == if is_white_space(c) {
            without_white_space(s)
        } else {
            without_white_space(s).push(c)
        },
{
    reveal_with_fuel(Seq::filter, 1);
    assert(s.push(c).drop_last() =~= s);
}

proof fn lemma_after_comma_split(a: Seq<char>, b: Seq<char>)
    ensures
        !a.contains(',') ==> after_first_comma(a + b) == after_first_comma(b),
        !a.contains(',') ==> after_first_comma(a) is None,
    decreases a.len(),
{
    if a.len() > 0 && !a.contains(',') {
        assert(a[0] != ',');
        assert((a + b).drop_first() =~= a.drop_first() + b);
        assert(!a.drop_first().contains(',')) by {
            if a.drop_first().contains(',') {
                let i = choose|i: int| 0 <= i < a.drop_first().len() && a.drop_first()[i] == ',';
                assert(a[i + 1] == ',');
            }
        }
        lemma_after_comma_split(a.drop_first(), b);
    }
}

/// The Base64 text of a page's content (see [`page_base64`]).
pub fn clean_page_content(content: &str) -> (r: String)
    ensures
        r@ == page_base64(content@),
{
    let mut out = String::new();
    let mut seen_comma = false;
    let ghost mut comma_at: int = 0;
    let ghost s = content@;
    let ghost mut i: int = 0;
    for c in it: content.chars()
        invariant
            it.seq() == s,
            i == it.index(),
            !seen_comma ==> !s.take(i).contains(','),
            !seen_comma ==> out@ == without_white_space(s.take(i)),
            seen_comma ==> 0 <= comma_at < i && s[comma_at] == ',' && !s.take(comma_at).contains(
                ',',
            ),
            seen_comma ==> out@ == without_white_space(s.subrange(comma_at + 1, i)),
    {
        assert(it.seq()[i] == c);
        if !seen_comma && c == ',' {
            seen_comma = true;
            proof {
                comma_at = i;
                assert(s.subrange(comma_at + 1, i + 1) =~= Seq::<char>::empty());
                assert(without_white_space(Seq::<char>::empty()) =~= Seq::<char>::empty());
            }
            out = String::new();
        } else {
            let ws = char_is_whitespace(c);
            proof {
                if seen_comma {
                    assert(s.subrange(comma_at + 1, i + 1) =~= s.subrange(comma_at + 1, i).push(c));
                    lemma_filter_push(s.subrange(comma_at + 1, i), c);
                } else {
                    assert(s.take(i + 1) =~= s.take(i).push(c));
                    lemma_filter_push(s.take(i), c);
                    assert(!s.take(i + 1).contains(',')) by {
                        if s.take(i + 1).contains(',') {
                            let j = choose|j: int| 0 <= j < i + 1 && #[trigger] s.take(i + 1)[j] == ',';
                            if j < i {
                                assert(s.take(i)[j] == ',');
                            }
                        }
                    }
                }
            }
            if !ws {
                crate::text::push_char(&mut out, c);
            }
        }
        proof {
            i = i + 1;
        }
    }
    proof {
        assert(i == s.len());
        if seen_comma {
            assert(s =~= s.take(comma_at) + s.skip(comma_at));
            lemma_after_comma_split(s.take(comma_at), s.skip(comma_at));
            assert(s.skip(comma_at)[0] == ',');
            assert(s.skip(comma_at).drop_first() =~= s.subrange(comma_at + 1, i));
        } else {
            assert(s.take(i) =~= s);
            lemma_after_comma_split(s, Seq::<char>::empty());
        }
    }
    out
}

/// What the standard Base64 alphabet (with padding) decodes `text` to, or
/// the decoder's error message.
pub uninterp spec fn base64_decoded(text: Seq<char>) -> Result<Seq<u8>, Seq<char>>;

/// Decodes standard Base64 (`base64::engine::general_purpose::STANDARD`,
/// through `Engine::decode`), rendering a failure with the error's
/// `Display`. Trusted: the result is the named decoding.
#[verifier::external_body]
fn decode_base64(text: &str) -> (r: Result<Vec<u8>, String>)
    ensures
        match r {
            Ok(bytes) => base64_decoded(text@) == Ok::<Seq<u8>, Seq<char>>(bytes@),
            Err(message) => base64_decoded(text@) == Err::<Seq<u8>, Seq<char>>(message@),
        },
{
    match base64::Engine::decode(&base64::engine::general_purpose::STANDARD, text) {
        Ok(bytes) => Ok(bytes),
        Err(e) => Err(e.to_string()),
    }
}

/// An error answered by the HTTP API, with its message.
#[derive(Debug)]
pub enum AppError {
    InternalServerError(String),
    BadRequest(String),
    NotFound(String),
}

impl AppError {
    /// The HTTP status an error is answered with.
    pub open spec fn status(self) -> u16 {
        match self {
            AppError::InternalServerError(_) => 500,
            AppError::BadRequest(_) => 400,
            AppError::NotFound(_) => 404,
        }
    }

    /// The message an error carries.
    pub open spec fn text(self) -> Seq<char> {
        match self {
            AppError::InternalServerError(m) => m@,
            AppError::BadRequest(m) => m@,
            AppError::NotFound(m) => m@,
        }
    }

    /// The HTTP status code of this error: 500, 400 or 404.
    pub fn status_code(&self) -> (c: u16)
        ensures
            c == self.status(),
    {
        match self {
            AppError::InternalServerError(_) => 500,
            AppError::BadRequest(_) => 400,
            AppError::NotFound(_) => 404,
        }
    }

    /// The message of this error.
    pub fn message(&self) -> (m: String)
        ensures
            m@ == self.text(),
    {
        match self {
            AppError::InternalServerError(m) => m.clone(),
            AppError::BadRequest(m) => m.clone(),
            AppError::NotFound(m) => m.clone(),
        }
    }
}

/// One page of a chapter upload: its position and its content, Base64
/// text possibly inside a data URI.
#[derive(Clone, Debug)]
pub struct CreateChapterPage {
    pub index: i32,
    pub content: String,
}

/// The message a page that is not valid Base64 is refused with.
pub open spec fn bad_page_message(i: nat, reason: Seq<char>) -> Seq<char> {
    "Invalid Base64 page "@ + decimal(i) + ": "@ + reason
}

/// The bytes an uploaded page's text decodes to, or why it cannot be
/// decoded.
pub open spec fn upload_bytes(text: Seq<char>) -> Result<Seq<u8>, Seq<char>> {
    base64_decoded(page_base64(text))
}

/// The bytes of page `p`, or why it cannot be decoded.
pub open spec fn page_bytes(p: CreateChapterPage) -> Result<Seq<u8>, Seq<char>> {
    upload_bytes(p.content@)
}

/// Decodes the text of the page at place `i` of an upload: its bytes, or a
/// bad request naming its place and the decoder's reason.
fn decode_page(i: usize, content: &str) -> (r: Result<Vec<u8>, AppError>)
    ensures
        match r {
            Ok(bytes) => upload_bytes(content@) == Ok::<Seq<u8>, Seq<char>>(bytes@),
            Err(e) => {
                &&& upload_bytes(content@) matches Err(reason)
                &&& e is BadRequest
                &&& e.text() == bad_page_message(i as nat, reason)
            },
        },
{
    let text = clean_page_content(content);
    match decode_base64(text.as_str()) {
        Ok(bytes) => Ok(bytes),
        Err(reason) => {
            let mut message = String::from_str("Invalid Base64 page ");
            let number = to_decimal(i);
            message.append(number.as_str());
            message.append(": ");
            message.append(reason.as_str());
            proof {
                reveal_strlit("Invalid Base64 page ");
                reveal_strlit(": ");
            }
            Err(AppError::BadRequest(message))
        },
    }
}

/// All pages decode.
pub open spec fn pages_decode(pages: Seq<CreateChapterPage>) -> bool {
    forall|i: int| 0 <= i < pages.len() ==> #[trigger] page_bytes(pages[i]) is Ok
}

/// Decodes the pages of a chapter upload: each page's position with its
/// bytes, in order. The first page that does not decode is refused with
/// a bad request naming its place in the upload and the decoder's reason.
pub fn decode_pages(pages: &Vec<CreateChapterPage>) -> (r: Result<Vec<(i32, Vec<u8>)>, AppError>)
    ensures
        match r {
            Ok(decoded) => {
                &&& pages_decode(pages@)
                &&& decoded@.len() == pages@.len()
                &&& forall|i: int|
                    0 <= i < pages@.len() ==> #[trigger] decoded@[i].0 == pages@[i].index && page_bytes(
                        pages@[i],
                    ) == Ok::<Seq<u8>, Seq<char>>(decoded@[i].1@)
            },
            Err(e) => exists|i: int|
                #![trigger page_bytes(pages@[i])]
                {
                    &&& 0 <= i < pages@.len()
                    &&& forall|j: int| 0 <= j < i ==> #[trigger] page_bytes(pages@[j]) is Ok
                    &&& page_bytes(pages@[i]) matches Err(reason)
                    &&& e is BadRequest
                    &&& e.text() == bad_page_message(i as nat, reason)
                },
        },
{
    let mut out: Vec<(i32, Vec<u8>)> = Vec::new();
    let mut i: usize = 0;
    while i < pages.len()
        invariant
            i <= pages@.len(),
            out@.len() == i,
            forall|j: int|
                0 <= j < i ==> #[trigger] out@[j].0 == pages@[j].index && page_bytes(pages@[j])
                    == Ok::<Seq<u8>, Seq<char>>(out@[j].1@),
        decreases pages@.len() - i,
    {
        match decode_page(i, pages[i].content.as_str()) {
            Ok(bytes) => {
                out.push((pages[i].index, bytes));
            },
            Err(e) => {
                proof {
                    assert(page_bytes(pages@[i as int]) matches Err(r) && e.text() == bad_page_message(
                        i as nat,
                        r,
                    ));
                    assert forall|j: int| 0 <= j < i implies #[trigger] page_bytes(pages@[j]) is Ok by {
                        assert(out@[j].0 == pages@[j].index);
                    }
                }
                return Err(e);
            },
        }
        i = i + 1;
    }
    proof {
        assert forall|j: int| 0 <= j < pages@.len() implies #[trigger] page_bytes(pages@[j]) is Ok by {
            assert(out@[j].0 == pages@[j].index);
        }
    }
    Ok(out)
}

/// The pages of an upload, decoded (a page that does not decode counts as
/// empty here; the functions below refuse such uploads).
pub open spec fn uploaded_pages(pages: Seq<String>) -> Seq<Seq<u8>> {
    Seq::new(
        pages.len(),
        |i: int|
            match upload_bytes(pages[i]@) {
                Ok(b) => b,
                Err(_) => Seq::empty(),
            },
    )
}

/// Every page of the upload decodes.
pub open spec fn uploads_decode(pages: Seq<String>) -> bool {
    forall|i: int| 0 <= i < pages.len() ==> #[trigger] upload_bytes(pages[i]@) is Ok
}

/// Page `i` is the first of the upload that does not decode, and `e`
/// refuses the upload for it.
pub open spec fn refused_at_page(pages: Seq<String>, i: int, e: AppError) -> bool {
    &&& 0 <= i < pages.len()
    &&& forall|j: int| 0 <= j < i ==> #[trigger] upload_bytes(pages[j]@) is Ok
    &&& upload_bytes(pages[i]@) matches Err(reason)
    &&& e is BadRequest
    &&& e.text() == bad_page_message(i as nat, reason)
}

/// The message an upload whose pages do not fit in one archive is refused
/// with.
pub open spec fn archive_too_large_message() -> Seq<char> {
    "Pages do not fit in one CBZ archive"@
}

/// Decodes the pages of a series upload, Base64 text possibly inside a
/// data URI, in order. The first page that does not decode is refused as
/// `decode_pages` refuses one.
pub fn decode_upload_pages(pages: &Vec<String>) -> (r: Result<Vec<Vec<u8>>, AppError>)
    ensures
        match r {
            Ok(decoded) => uploads_decode(pages@) && page_views(decoded@) == uploaded_pages(pages@),
            Err(e) => exists|i: int| #[trigger] refused_at_page(pages@, i, e),
        },
{
    let mut out: Vec<Vec<u8>> = Vec::new();
    let mut i: usize = 0;
    while i < pages.len()
        invariant
            i <= pages@.len(),
            out@.len() == i,
            forall|j: int|
                0 <= j < i ==> #[trigger] upload_bytes(pages@[j]@) == Ok::<Seq<u8>, Seq<char>>(
                    out@[j]@,
                ),
        decreases pages@.len() - i,
    {
        match decode_page(i, pages[i].as_str()) {
            Ok(bytes) => {
                out.push(bytes);
            },
            Err(e) => {
                proof {
                    assert(refused_at_page(pages@, i as int, e));
                }
                return Err(e);
            },
        }
        i = i + 1;
    }
    assert(page_views(out@) =~= uploaded_pages(pages@));
    Ok(out)
}

/// The CBZ archive a series upload's pages are stored as. Refused with a
/// bad request at the first page that does not decode, or, when all do,
/// if they do not fit in one archive.
pub fn manga_archive(pages: &Vec<String>) -> (r: Result<Vec<u8>, AppError>)
    ensures
        match r {
            Ok(bytes) => {
                &&& uploads_decode(pages@)
                &&& cbz_fits(uploaded_pages(pages@))
                &&& bytes@ == cbz_bytes(uploaded_pages(pages@))
            },
            Err(e) => {
                ||| exists|i: int| #[trigger] refused_at_page(pages@, i, e)
                ||| {
                    &&& uploads_decode(pages@)
                    &&& !cbz_fits(uploaded_pages(pages@))
                    &&& e is BadRequest
                    &&& e.text() == archive_too_large_message()
                }
            },
        },
{
    let decoded = decode_upload_pages(pages)?;
    match cbz_archive(&decoded) {
        Some(bytes) => Ok(bytes),
        None => {
            proof {
                reveal_strlit("Pages do not fit in one CBZ archive");
            }
            Err(AppError::BadRequest(String::from_str("Pages do not fit in one CBZ archive")))
        },
    }
}

/// A request to register a series.
#[derive(Clone, Debug)]
pub struct CreateMangaRequest {
    pub title: String,
    pub author: String,
    pub series_code: Option<String>,
    pub series_title: Option<String>,
    pub alternative_titles: Option<Vec<String>>,
    pub pages: Option<Vec<String>>,
}

/// The entries of `list` separated by `sep`.
pub open spec fn joined(list: Seq<Seq<char>>, sep: Seq<char>) -> Seq<char>
    decreases list.len(),
{
    if list.len() == 0 {
        Seq::empty()
    } else if list.len() == 1 {
        list[0]
    } else {
        joined(list.drop_last(), sep) + sep + list.last()
    }
}

/// Joins strings with a separator (as `[String]::join` does).
pub fn join_with(list: &Vec<String>, sep: &str) -> (r: String)
    ensures
        r@ == joined(string_views(list@), sep@),
{
    let mut r = String::new();
    let mut i: usize = 0;
    while i < list.len()
        invariant
            i <= list@.len(),
            r@ == joined(string_views(list@).take(i as int), sep@),
        decreases list@.len() - i,
    {
        let ghost prefix = string_views(list@).take(i + 1);
        assert(prefix.drop_last() =~= string_views(list@).take(i as int));
        assert(prefix.last() == list@[i as int]@);
        if i > 0 {
            r.append(sep);
        } else {
            assert(prefix =~= seq![list@[0]@]);
        }
        r.append(list[i].as_str());
        proof {
            if i == 0 {
                assert(string_views(list@).take(0) =~= Seq::<Seq<char>>::empty());
                assert(r@ =~= list@[0]@);
            }
        }
        i = i + 1;
    }
    assert(string_views(list@).take(i as int) =~= string_views(list@));
    r
}

/// The storage parameters for a series registration: the alternative
/// titles, when given, joined with commas.
pub fn series_params(req: CreateMangaRequest) -> (p: CreateSeriesParams)
    ensures
        p.title == req.title,
        p.author == req.author,
        p.series_code == req.series_code,
        p.series_title == req.series_title,
        match req.alternative_titles {
            Some(titles) => p.alternative_titles is Some && p.alternative_titles->0@ == joined(
                string_views(titles@),
                ","@,
            ),
            None => p.alternative_titles is None,
        },
{
    let alternative_titles = match &req.alternative_titles {
        Some(titles) => Some(join_with(titles, ",")),
        None => None,
    };
    CreateSeriesParams {
        title: req.title,
        author: req.author,
        series_code: req.series_code,
        series_title: req.series_title,
        alternative_titles,
    }
}

/// What the API reports about the node.
#[derive(Clone, Debug)]
pub struct NodeInfoResponse {
    pub peer_id: String,
    pub listeners: Vec<String>,
    pub connected_peers: Vec<String>,
}

impl NodeInfoResponse {
    /// The report for the node's own description.
    pub fn from_info(info: NodeInfo) -> (r: NodeInfoResponse)
        ensures
            r.peer_id == info.peer_id,
            r.listeners == info.listeners,
            r.connected_peers == info.connected_peers,
    {
        NodeInfoResponse {
            peer_id: info.peer_id,
            listeners: info.listeners,
            connected_peers: info.connected_peers,
        }
    }
}

/// A request to connect to a peer.
#[derive(Clone, Debug)]
pub struct ConnectPeerRequest {
    pub multiaddr: String,
}

/// The address to dial for a connect request: its multiaddr in canonical
/// form; a bad request when it is not one.
pub fn connect_target(req: &ConnectPeerRequest) -> (r: Result<String, AppError>)
    ensures
        match crate::peers::multiaddr_canonical(req.multiaddr@) {
            Some(c) => r is Ok && r->Ok_0@ == c,
            None => r is Err && r->Err_0.status() == 400 && r->Err_0.text() == "Invalid multiaddr"@,
        },
{
    match crate::peers::canonical_multiaddr(req.multiaddr.as_str()) {
        Some(c) => Ok(c),
        None => {
            let e = AppError::BadRequest(String::from_str("Invalid multiaddr"));
            Err(e)
        },
    }
}

/// How a question put to the network through the node ended.
#[derive(Clone, Copy, Debug, PartialEq, Eq)]
pub enum NetworkOutcome {
    /// A peer had it.
    Found,
    /// The node answered that no peer had it.
    Missing,
    /// The node dropped the question without answering.
    NoReply,
    /// No answer came in time.
    TimedOut,
}

/// How a manga lookup that went to the network is answered when no peer
/// had it: not found when the node said so or time ran out, an internal
/// error when the node gave no answer. `None` when it was found.
pub fn manga_lookup_error(outcome: NetworkOutcome) -> (r: Option<AppError>)
    ensures
        outcome == NetworkOutcome::Found ==> r is None,
        outcome == NetworkOutcome::Missing ==> r is Some && r->0.status() == 404 && r->0.text()
            == "Manga not found in network"@,
        outcome == NetworkOutcome::NoReply ==> r is Some && r->0.status() == 500 && r->0.text()
            == "Failed to receive response from node"@,
        outcome == NetworkOutcome::TimedOut ==> r is Some && r->0.status() == 404 && r->0.text()
            == "Manga not found (timeout)"@,
{
    match outcome {
        NetworkOutcome::Found => None,
        NetworkOutcome::Missing => Some(
            AppError::NotFound(String::from_str("Manga not found in network")),
        ),
        NetworkOutcome::NoReply => Some(
            AppError::InternalServerError(String::from_str("Failed to receive response from node")),
        ),
        NetworkOutcome::TimedOut => Some(
            AppError::NotFound(String::from_str("Manga not found (timeout)")),
        ),
    }
}

/// How an image request is answered when the image is not stored locally
/// and the network did not deliver it: not found, whatever the reason.
/// `None` when it was found.
pub fn image_lookup_error(outcome: NetworkOutcome) -> (r: Option<AppError>)
    ensures
        outcome == NetworkOutcome::Found ==> r is None,
        outcome != NetworkOutcome::Found ==> r is Some && r->0.status() == 404 && r->0.text()
            == "Image not found locally or in network"@,
{
    match outcome {
        NetworkOutcome::Found => None,
        _ => Some(AppError::NotFound(String::from_str("Image not found locally or in network"))),
    }
}

} // verus!
