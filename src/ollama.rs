//! Talking to the local inference server: the request that asks for tags,
//! the rules that judge its reply, and the tags read out of the answer.

use vstd::prelude::*;
use base64::engine::general_purpose::STANDARD;
use base64::Engine;
use crate::text::{chars_of, decimal, lower_of, lowercase, push_decimal, trim, trimmed_bounds};

verus! {

/// Where tag requests are sent.
pub const GENERATE_URL: &'static str = "http://localhost:11434/api/generate";

/// Where the server's liveness is probed.
pub const HEALTH_URL: &'static str = "http://localhost:11434/api/tags";

/// The JSON body of a tag request up to the encoded image: the model, the
/// instruction, and the opening of the image list.
pub const REQUEST_HEAD: &'static str = "{\"model\":\"moondream\",\"prompt\":\"List 5-10 descriptive tags for this image. Output only the tags separated by commas, nothing else. Example: nature, sunset, mountain, peaceful, orange sky\",\"images\":[\"";

/// The rest of the body after the encoded image: a single image, no streaming.
pub const REQUEST_TAIL: &'static str = "\"],\"stream\":false}";

/// The standard base64 encoding, with padding, of these bytes.
pub uninterp spec fn base64_of(b: Seq<u8>) -> Seq<char>;

/// Relies on base64's `Engine::encode` with the `STANDARD` engine (standard
/// alphabet, padded). It panics where the encoded length overflows `usize`.
#[verifier::external_body]
fn encode_base64(b: &Vec<u8>) -> (r: String)
    requires
        4 * ((b@.len() + 2) / 3) <= usize::MAX,
    ensures
        r@ == base64_of(b@),
{
    STANDARD.encode(b)
}

/// The JSON body of a request for the tags of an image given in base64.
pub open spec fn request_json(image_b64: Seq<char>) -> Seq<char> {
    REQUEST_HEAD@ + image_b64 + REQUEST_TAIL@
}

/// Frames an image already in base64 as the body of a tag request.
pub fn frame_request(image_b64: &str) -> (r: String)
    ensures
        r@ == request_json(image_b64@),
{
    let mut body = String::from_str(REQUEST_HEAD);
    body.append(image_b64);
    body.append(REQUEST_TAIL);
    body
}

/// The body of a request for the tags of the image with these bytes.
pub fn request_body(image: &Vec<u8>) -> (r: String)
    requires
        4 * ((image@.len() + 2) / 3) <= usize::MAX,
    ensures
        r@ == request_json(base64_of(image@)),
{
    let encoded = encode_base64(image);
    frame_request(encoded.as_str())
}


/// `s` cut at each comma, as `str::split(',')` cuts it: `n` commas give
/// `n + 1` pieces, empty ones included.
pub open spec fn split_commas(s: Seq<char>) -> Seq<Seq<char>>
    decreases s.len(),
{
    if s.len() == 0 {
        seq![Seq::empty()]
    } else {
        let prev = split_commas(s.drop_last());
        if s.last() == ',' {
            prev.push(Seq::empty())
        } else {
            prev.update(prev.len() - 1, prev.last().push(s.last()))
        }
    }
}

/// Whether a lower-cased piece is kept as a tag: not empty, and under
/// fifty characters.
pub open spec fn is_tag(t: Seq<char>) -> bool {
    0 < t.len() < 50
}

/// The tag made of one piece of the answer: trimmed, then lower-cased.
pub open spec fn tag_of_piece(piece: Seq<char>) -> Seq<char> {
    lower_of(trim(piece))
}

/// The tags of these pieces, in their order, the pieces that make no tag left out.
pub open spec fn tags_of_pieces(ps: Seq<Seq<char>>) -> Seq<Seq<char>>
    decreases ps.len(),
{
    if ps.len() == 0 {
        Seq::empty()
    } else {
        let prev = tags_of_pieces(ps.drop_last());
        let t = tag_of_piece(ps.last());
        if is_tag(t) {
            prev.push(t)
        } else {
            prev
        }
    }
}

/// The tags that the server's answer `text` holds.
pub open spec fn tags_of(text: Seq<char>) -> Seq<Seq<char>> {
    tags_of_pieces(split_commas(text))
}

proof fn lemma_tags_of_pieces_are_tags(ps: Seq<Seq<char>>)
    ensures
        forall|i: int|
            0 <= i < tags_of_pieces(ps).len() ==> is_tag(#[trigger] tags_of_pieces(ps)[i]),
    decreases ps.len(),
{
    if ps.len() > 0 {
        let prev = tags_of_pieces(ps.drop_last());
        lemma_tags_of_pieces_are_tags(ps.drop_last());
        assert forall|i: int| 0 <= i < tags_of_pieces(ps).len() implies is_tag(
            #[trigger] tags_of_pieces(ps)[i],
        ) by {
            if i < prev.len() {
                assert(tags_of_pieces(ps)[i] == prev[i]);
            }
        }
    }
}

/// Every tag read out of an answer is non-empty and under fifty characters:
/// longer pieces are dropped, not cut.
pub proof fn lemma_tags_are_short(text: Seq<char>)
    ensures
        forall|i: int| 0 <= i < tags_of(text).len() ==> 0 < (#[trigger] tags_of(text)[i]).len() < 50,
{
    lemma_tags_of_pieces_are_tags(split_commas(text));
}

/// Strings as character sequences.
pub open spec fn string_views(v: Seq<String>) -> Seq<Seq<char>> {
    v.map_values(|t: String| t@)
}

/// Whether `lowered`, a piece already trimmed and lower-cased, is kept as a tag.
pub fn keep_tag(lowered: &str) -> (r: bool)
    ensures
        r == is_tag(lowered@),
{
    let n = lowered.unicode_len();
    n > 0 && n < 50
}

/// Appends the tag of the piece `c[from..to]` of `text`, where it makes one.
fn push_piece(text: &str, c: &Vec<char>, from: usize, to: usize, tags: &mut Vec<String>)
    requires
        c@ == text@,
        from <= to <= c.len(),
    ensures
        string_views(final(tags)@) == if is_tag(tag_of_piece(c@.subrange(from as int, to as int))) {
            string_views(old(tags)@).push(tag_of_piece(c@.subrange(from as int, to as int)))
        } else {
            string_views(old(tags)@)
        },
{
    let (a, b) = trimmed_bounds(c, from, to);
    let piece = text.substring_char(a, b);
    let t = lowercase(piece);
    if keep_tag(t.as_str()) {
        tags.push(t);
        assert(string_views(final(tags)@) =~= string_views(old(tags)@).push(
            tag_of_piece(c@.subrange(from as int, to as int)),
        ));
    }
}

/// The tags in the server's answer: the comma-separated pieces, each
/// trimmed and lower-cased, without those left empty or fifty characters
/// long or more; in the order of the answer, repeats kept.
pub fn parse_tags(text: &str) -> (r: Vec<String>)
    ensures
        string_views(r@) == tags_of(text@),
{
    let c = chars_of(text);
    let mut tags: Vec<String> = Vec::new();
    let mut start: usize = 0;
    let mut i: usize = 0;
    assert(c@.subrange(0, 0) =~= Seq::<char>::empty());
    while i < c.len()
        invariant
            start <= i <= c.len(),
            c@ == text@,
            split_commas(c@.subrange(0, i as int)).len() >= 1,
            split_commas(c@.subrange(0, i as int)).last() == c@.subrange(start as int, i as int),
            string_views(tags@) == tags_of_pieces(split_commas(c@.subrange(0, i as int)).drop_last()),
        decreases c.len() - i,
    {
        let ghost prev = split_commas(c@.subrange(0, i as int));
        assert(c@.subrange(0, i + 1).drop_last() =~= c@.subrange(0, i as int));
        if c[i] == ',' {
            push_piece(text, &c, start, i, &mut tags);
            assert(prev =~= prev.drop_last().push(prev.last()));
            assert(split_commas(c@.subrange(0, i + 1)).drop_last() =~= prev);
            start = i + 1;
            assert(c@.subrange(start as int, i + 1) =~= Seq::<char>::empty());
        } else {
            let ghost next = split_commas(c@.subrange(0, i + 1));
            assert(next.drop_last() =~= prev.drop_last());
            assert(next.last() =~= c@.subrange(start as int, i + 1));
        }
        i = i + 1;
    }
    let ghost all = split_commas(c@.subrange(0, c.len() as int));
    assert(all =~= all.drop_last().push(all.last()));
    push_piece(text, &c, start, c.len(), &mut tags);
    assert(c@.subrange(0, c.len() as int) =~= text@);
    tags
}


/// Whether an HTTP status counts as success: the 2xx range.
pub open spec fn is_success(status: u16) -> bool {
    200 <= status < 300
}

/// Why a tag request failed.
pub enum TagError {
    /// The image could not be read; the message says why.
    Io(String),
    /// The request could not be sent; the message says why.
    Network(String),
    /// The server answered with this status, which is not a success.
    Server(u16),
    /// The reply was not of the expected shape; the message says why.
    Parse(String),
}

/// The sentence that reports a failed tag request.
pub open spec fn tag_error_text(e: TagError) -> Seq<char> {
    match e {
        TagError::Io(m) => "Failed to read image: "@ + m@,
        TagError::Network(m) => "Failed to call Ollama: "@ + m@ + ". Is Ollama running?"@,
        TagError::Server(s) => "Ollama returned error: "@ + decimal(s as nat),
        TagError::Parse(m) => "Failed to parse Ollama response: "@ + m@,
    }
}

impl TagError {
    /// The error as a sentence for the user.
    pub fn message(&self) -> (r: String)
        ensures
            r@ == tag_error_text(*self),
    {
        match self {
            TagError::Io(m) => {
                let mut r = String::from_str("Failed to read image: ");
                r.append(m.as_str());
                r
            },
            TagError::Network(m) => {
                let mut r = String::from_str("Failed to call Ollama: ");
                r.append(m.as_str());
                r.append(". Is Ollama running?");
                r
            },
            TagError::Server(s) => {
                let mut r = String::from_str("Ollama returned error: ");
                push_decimal(&mut r, *s as usize);
                r
            },
            TagError::Parse(m) => {
                let mut r = String::from_str("Failed to parse Ollama response: ");
                r.append(m.as_str());
                r
            },
        }
    }
}

/// What the outside world reports to a tag request in progress.
pub enum TagEvent {
    /// The image file was read: its bytes, or why reading failed.
    ImageRead(Result<Vec<u8>, String>),
    /// The request was sent: the status of the reply, or why sending failed.
    ReplyStatus(Result<u16, String>),
    /// The reply was decoded as `{"response": string}`: that string, or why
    /// decoding failed.
    ReplyDecoded(Result<String, String>),
}

/// What a tag request in progress does next.
pub enum TagAction {
    /// POST this JSON body to `GENERATE_URL`.
    Send(String),
    /// Decode the body of the reply.
    Decode,
    /// The request is over, with these tags or this error.
    Finish(Result<Vec<String>, TagError>),
}

/// The next step of a tag request, given what the last one reported.
pub fn generate_tags(event: TagEvent) -> (r: TagAction)
    requires
        event matches TagEvent::ImageRead(Ok(b)) ==> 4 * ((b@.len() + 2) / 3) <= usize::MAX,
    ensures
        match event {
            TagEvent::ImageRead(Err(m)) => r matches TagAction::Finish(Err(TagError::Io(e)))
                && e@ == m@,
            TagEvent::ImageRead(Ok(b)) => r matches TagAction::Send(body) && body@ == request_json(
                base64_of(b@),
            ),
            TagEvent::ReplyStatus(Err(m)) => r matches TagAction::Finish(
                Err(TagError::Network(e)),
            ) && e@ == m@,
            TagEvent::ReplyStatus(Ok(s)) => if is_success(s) {
                r is Decode
            } else {
                r matches TagAction::Finish(Err(TagError::Server(c))) && c == s
            },
            TagEvent::ReplyDecoded(Err(m)) => r matches TagAction::Finish(
                Err(TagError::Parse(e)),
            ) && e@ == m@,
            TagEvent::ReplyDecoded(Ok(t)) => r matches TagAction::Finish(Ok(tags)) && string_views(
                tags@,
            ) == tags_of(t@),
        },
{
    match event {
        TagEvent::ImageRead(Err(m)) => TagAction::Finish(Err(TagError::Io(m))),
        TagEvent::ImageRead(Ok(b)) => TagAction::Send(request_body(&b)),
        TagEvent::ReplyStatus(Err(m)) => TagAction::Finish(Err(TagError::Network(m))),
        TagEvent::ReplyStatus(Ok(s)) => {
            if 200 <= s && s < 300 {
                TagAction::Decode
            } else {
                TagAction::Finish(Err(TagError::Server(s)))
            }
        },
        TagEvent::ReplyDecoded(Err(m)) => TagAction::Finish(Err(TagError::Parse(m))),
        TagEvent::ReplyDecoded(Ok(t)) => TagAction::Finish(Ok(parse_tags(t.as_str()))),
    }
}

/// Whether the server is up, from the probe of `HEALTH_URL`: the status of
/// its reply, or why no reply came. Only a success status counts; every
/// failure reads as down.
pub fn check_ollama(probe: Result<u16, String>) -> (r: bool)
    ensures
        r == (probe matches Ok(s) && is_success(s)),
{
    match probe {
        Ok(s) => 200 <= s && s < 300,
        Err(_) => false,
    }
}

} // verus!
