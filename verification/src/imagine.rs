//! The `~imagine` command: reading the requested size off the prompt, and
//! turning what the image model answered into image bytes or an error.
use vstd::prelude::*;
use base64::Engine;
use crate::status::{status_display, status_text};
use crate::text::{
    chars_of, string_of, slice_chars, push_str_chars, push_decimal, decimal, trim, trim_chars,
    contains_seq, contains_str,
};

verus! {

/// The image model asked for.
pub const DEFAULT_IMAGE_MODEL: &'static str = "x/z-image-turbo:fp8";

/// The width of an image when the prompt gives no size.
pub const DEFAULT_WIDTH: u32 = 512;

/// The height of an image when the prompt gives no size.
pub const DEFAULT_HEIGHT: u32 = 512;

/// The largest width or height that may be asked for.
pub const MAX_DIMENSION: u32 = 2048;

// ---------------------------------------------------------------------------
// Numbers as `u32::from_str` reads them
// ---------------------------------------------------------------------------

pub open spec fn is_digit(c: char) -> bool {
    '0' <= c && c <= '9'
}

pub open spec fn all_digits(s: Seq<char>) -> bool {
    forall|i: int| 0 <= i < s.len() ==> is_digit(#[trigger] s[i])
}

/// The number that the decimal digits `s` write.
pub open spec fn digits_value(s: Seq<char>) -> nat
    decreases s.len(),
{
    if s.len() == 0 {
        0
    } else {
        digits_value(s.drop_last()) * 10 + ((s.last() as u32) - ('0' as u32)) as nat
    }
}

/// What `u32::from_str` gives: an optional `+` followed by at least one
/// ASCII digit and nothing else, with a value that fits.
pub open spec fn parsed_u32(s: Seq<char>) -> Option<u32> {
    let d = if s.len() > 0 && s[0] == '+' {
        s.drop_first()
    } else {
        s
    };
    if d.len() > 0 && all_digits(d) && digits_value(d) <= u32::MAX {
        Some(digits_value(d) as u32)
    } else {
        None
    }
}

proof fn lemma_digits_value_prefix(s: Seq<char>, k: int)
    requires
        0 <= k <= s.len(),
        all_digits(s),
    ensures
        digits_value(s.take(k)) <= digits_value(s),
    decreases s.len(),
{
    if k < s.len() {
        assert(s.drop_last().take(k) =~= s.take(k));
        lemma_digits_value_prefix(s.drop_last(), k);
        let v = digits_value(s.drop_last());
        assert(v <= v * 10) by (nonlinear_arith);
    } else {
        assert(s.take(k) =~= s);
    }
}

fn digit_value(c: char) -> (r: Option<u64>)
    ensures
        match r {
            Some(d) => is_digit(c) && d == (c as u32) - ('0' as u32) && d < 10,
            None => !is_digit(c),
        },
{
    if '0' <= c && c <= '9' {
        let u = c as u32;
        Some((u - 48) as u64)
    } else {
        None
    }
}

/// `u32::from_str`: the value of `s`, or `None` where it is no such number.
pub fn parse_u32(s: &[char]) -> (r: Option<u32>)
    ensures
        r == parsed_u32(s@),
{
    let start: usize = if s.len() > 0 && s[0] == '+' {
        1
    } else {
        0
    };
    let ghost d = s@.skip(start as int);
    assert(d =~= (if s@.len() > 0 && s@[0] == '+' {
        s@.drop_first()
    } else {
        s@
    }));
    if start == s.len() {
        return None;
    }
    let mut value: u64 = 0;
    let mut i: usize = start;
    while i < s.len()
        invariant
            start <= i <= s@.len(),
            start < s@.len(),
            d == s@.skip(start as int),
            d == (if s@.len() > 0 && s@[0] == '+' {
                s@.drop_first()
            } else {
                s@
            }),
            all_digits(d.take(i - start)),
            value == digits_value(d.take(i - start)),
            value <= u32::MAX,
        decreases s@.len() - i,
    {
        let ghost k = i - start;
        assert(d.take(k + 1).drop_last() =~= d.take(k));
        assert(d.take(k + 1).last() == s@[i as int]);
        match digit_value(s[i]) {
            None => {
                assert(d[k] == s@[i as int]);
                assert(!all_digits(d));
                return None;
            },
            Some(dv) => {
                let next = value * 10 + dv;
                assert(all_digits(d.take(k + 1)));
                assert(digits_value(d.take(k + 1)) == next);
                if next > 4294967295 {
                    proof {
                        if all_digits(d) {
                            lemma_digits_value_prefix(d, k + 1);
                        }
                    }
                    return None;
                }
                value = next;
                i = i + 1;
            },
        }
    }
    assert(d.take(i - start) =~= d);
    Some(value as u32)
}

// ---------------------------------------------------------------------------
// The size asked for
// ---------------------------------------------------------------------------

/// A width or height that may be asked for.
pub open spec fn in_range(v: u32) -> bool {
    0 < v && v <= MAX_DIMENSION
}

/// `k` is the only position of `c` in `s`.
pub open spec fn only_at(s: Seq<char>, c: char, k: int) -> bool {
    0 <= k < s.len() && s[k] == c && !s.take(k).contains(c) && !s.skip(k + 1).contains(c)
}

/// What `WIDTHxHEIGHT` or a single side `N` (a square) asks for; `None`
/// where the text is neither, or a side is zero or above `MAX_DIMENSION`.
pub open spec fn dimensions(s: Seq<char>) -> Option<(u32, u32)> {
    if s.contains('x') {
        if exists|k: int| only_at(s, 'x', k) {
            let k = choose|k: int| only_at(s, 'x', k);
            match (parsed_u32(s.take(k)), parsed_u32(s.skip(k + 1))) {
                (Some(w), Some(h)) => if in_range(w) && in_range(h) {
                    Some((w, h))
                } else {
                    None
                },
                _ => None,
            }
        } else {
            None
        }
    } else {
        match parsed_u32(s) {
            Some(q) => if in_range(q) {
                Some((q, q))
            } else {
                None
            },
            None => None,
        }
    }
}

/// A size read off a prompt has both sides between 1 and `MAX_DIMENSION`.
pub proof fn law_dimensions_in_range(s: Seq<char>)
    ensures
        dimensions(s) matches Some((w, h)) ==> in_range(w) && in_range(h),
{
}

/// The first position of `c` in `s`.
fn find_char(s: &[char], c: char) -> (r: Option<usize>)
    ensures
        match r {
            Some(k) => k < s@.len() && s@[k as int] == c && !s@.take(k as int).contains(c),
            None => !s@.contains(c),
        },
{
    let mut i: usize = 0;
    while i < s.len()
        invariant
            i <= s@.len(),
            forall|j: int| 0 <= j < i ==> s@[j] != c,
        decreases s@.len() - i,
    {
        if s[i] == c {
            assert(!s@.take(i as int).contains(c)) by {
                if s@.take(i as int).contains(c) {
                    let j = choose|j: int| 0 <= j < i && s@.take(i as int)[j] == c;
                    assert(s@[j] == c);
                }
            }
            return Some(i);
        }
        i = i + 1;
    }
    None
}

proof fn lemma_only_at_unique(s: Seq<char>, c: char, k: int, m: int)
    requires
        only_at(s, c, k),
        only_at(s, c, m),
    ensures
        k == m,
{
    if k < m {
        assert(s.take(m)[k] == c);
    } else if m < k {
        assert(s.take(k)[m] == c);
    }
}

/// What `WIDTHxHEIGHT` or a single side `N` asks for, if anything.
pub fn parse_dimensions(dim_str: &str) -> (r: Option<(u32, u32)>)
    ensures
        r == dimensions(dim_str@),
{
    let cs = chars_of(dim_str);
    dimensions_of(cs.as_slice())
}

fn dimensions_of(dim: &[char]) -> (r: Option<(u32, u32)>)
    ensures
        r == dimensions(dim@),
{
    match find_char(dim, 'x') {
        None => match parse_u32(dim) {
            Some(q) => if 0 < q && q <= MAX_DIMENSION {
                Some((q, q))
            } else {
                None
            },
            None => None,
        },
        Some(k) => {
            assert(dim@.len() == dim.len());
            let rest = slice_chars(dim, k + 1, dim.len());
            assert(rest@ =~= dim@.skip(k + 1));
            match find_char(rest.as_slice(), 'x') {
                Some(j) => {
                    assert(dim@.skip(k + 1)[j as int] == 'x');
                    assert forall|m: int| !only_at(dim@, 'x', m) by {
                        if only_at(dim@, 'x', m) {
                            assert(only_at(dim@, 'x', k as int) || dim@.skip(k + 1).contains('x'));
                            if m != k {
                                if m < k {
                                    assert(dim@.take(k as int)[m] == 'x');
                                } else {
                                    assert(dim@.skip(m + 1).len() >= 0);
                                    assert(dim@.take(m)[k as int] == 'x');
                                }
                            } else {
                                assert(dim@.skip(k + 1).contains('x'));
                            }
                        }
                    }
                    None
                },
                None => {
                    assert(only_at(dim@, 'x', k as int));
                    proof {
                        let m = choose|m: int| only_at(dim@, 'x', m);
                        lemma_only_at_unique(dim@, 'x', k as int, m);
                    }
                    let first = slice_chars(dim, 0, k);
                    assert(first@ =~= dim@.take(k as int));
                    match (parse_u32(first.as_slice()), parse_u32(rest.as_slice())) {
                        (Some(w), Some(h)) => {
                            if 0 < w && w <= MAX_DIMENSION && 0 < h && h <= MAX_DIMENSION {
                                Some((w, h))
                            } else {
                                None
                            }
                        },
                        _ => None,
                    }
                },
            }
        },
    }
}

/// What `~imagine` is asked: when the text before its first space is a
/// size, that size and the rest of the text; otherwise no size and the
/// whole text.
pub open spec fn imagine_request(s: Seq<char>) -> (Option<(u32, u32)>, Seq<char>) {
    if exists|k: int| 0 <= k < s.len() && s[k] == ' ' && !s.take(k).contains(' ') {
        let k = choose|k: int| 0 <= k < s.len() && s[k] == ' ' && !s.take(k).contains(' ');
        match dimensions(s.take(k)) {
            Some(d) => (Some(d), s.skip(k + 1)),
            None => (None, s),
        }
    } else {
        (None, s)
    }
}

pub fn parse_imagine_command(content: &str) -> (r: (Option<(u32, u32)>, String))
    ensures
        r.0 == imagine_request(content@).0,
        r.1@ == imagine_request(content@).1,
{
    let cs = chars_of(content);
    match find_char(cs.as_slice(), ' ') {
        None => {
            assert(!exists|k: int| 0 <= k < content@.len() && content@[k] == ' ' && !content@.take(
                k,
            ).contains(' '));
            (None, String::from_str(content))
        },
        Some(k) => {
            proof {
                let m = choose|m: int|
                    0 <= m < content@.len() && content@[m] == ' ' && !content@.take(m).contains(' ');
                if m < k {
                    assert(content@.take(k as int)[m] == ' ');
                } else if k < m {
                    assert(content@.take(m)[k as int] == ' ');
                }
            }
            let first = slice_chars(cs.as_slice(), 0, k);
            assert(first@ =~= content@.take(k as int));
            match dimensions_of(first.as_slice()) {
                Some(d) => {
                    assert(cs@.len() == cs.len());
                    let rest = slice_chars(cs.as_slice(), k + 1, cs.len());
                    assert(rest@ =~= content@.skip(k + 1));
                    (Some(d), string_of(rest.as_slice()))
                },
                None => (None, String::from_str(content)),
            }
        },
    }
}

/// The size of the image to make: the one asked for, or the default.
pub fn image_size(dims: Option<(u32, u32)>) -> (r: (u32, u32))
    ensures
        r == match dims {
            Some(d) => d,
            None => (DEFAULT_WIDTH, DEFAULT_HEIGHT),
        },
{
    match dims {
        Some(d) => d,
        None => (DEFAULT_WIDTH, DEFAULT_HEIGHT),
    }
}

// ---------------------------------------------------------------------------
// What is shown while and after an image is made
// ---------------------------------------------------------------------------

/// The title of the message shown while the image is made.
pub const GENERATING_TITLE: &'static str = "🎨 Generating Image...";

/// The title of the message shown when no image came.
pub const FAILURE_TITLE: &'static str = "❌ Generation Failed";

/// The colour of the message shown when no image came.
pub const FAILURE_COLOR: u32 = 0xFF0000;

/// The file name the image is uploaded under.
pub const ATTACHMENT_NAME: &'static str = "generated_image.png";

pub open spec fn generating_text(model: Seq<char>, width: u32, height: u32, prompt: Seq<char>) -> Seq<
    char,
> {
    "Model: **"@ + model + "**\nSize: "@ + decimal(width as nat) + "×"@ + decimal(height as nat)
        + "\nPrompt: "@ + prompt
}

/// The description of the message shown while the image is made.
pub fn generating_description(model: &str, width: u32, height: u32, prompt: &str) -> (r: String)
    ensures
        r@ == generating_text(model@, width, height, prompt@),
{
    let mut out: Vec<char> = Vec::new();
    push_str_chars(&mut out, "Model: **");
    push_str_chars(&mut out, model);
    push_str_chars(&mut out, "**\nSize: ");
    push_decimal(&mut out, width as u64);
    push_str_chars(&mut out, "×");
    push_decimal(&mut out, height as u64);
    push_str_chars(&mut out, "\nPrompt: ");
    push_str_chars(&mut out, prompt);
    assert(out@ =~= generating_text(model@, width, height, prompt@));
    string_of(out.as_slice())
}

/// The description of the message shown when no image came.
pub fn failure_description(error: &str) -> (r: String)
    ensures
        r@ == "Failed to generate image: "@ + error@,
{
    let mut out = chars_of("Failed to generate image: ");
    push_str_chars(&mut out, error);
    string_of(out.as_slice())
}

/// The text the image is posted with.
pub fn imagination_content(prompt: &str) -> (r: String)
    ensures
        r@ == "🎨 Here's your imagination of: **"@ + prompt@ + "**"@,
{
    let mut out = chars_of("🎨 Here's your imagination of: **");
    push_str_chars(&mut out, prompt);
    push_str_chars(&mut out, "**");
    string_of(out.as_slice())
}

/// The description the image is uploaded with.
pub fn attachment_description(prompt: &str) -> (r: String)
    ensures
        r@ == "AI generated image: "@ + prompt@,
{
    let mut out = chars_of("AI generated image: ");
    push_str_chars(&mut out, prompt);
    string_of(out.as_slice())
}

// ---------------------------------------------------------------------------
// Asking the image model
// ---------------------------------------------------------------------------

/// What is sent to the image model.
pub struct ImageGenerationRequest {
    pub model: String,
    pub prompt: String,
    pub width: u32,
    pub height: u32,
    pub stream: bool,
}

/// The request for an image of `prompt` at the given size, from the
/// default model, answered in one piece.
pub fn image_request(prompt: &str, width: u32, height: u32) -> (r: ImageGenerationRequest)
    ensures
        r.model@ == DEFAULT_IMAGE_MODEL@,
        r.prompt@ == prompt@,
        r.width == width,
        r.height == height,
        !r.stream,
{
    ImageGenerationRequest {
        model: String::from_str(DEFAULT_IMAGE_MODEL),
        prompt: String::from_str(prompt),
        width,
        height,
        stream: false,
    }
}

/// The error given when the model took too long.
pub const TIMEOUT_MESSAGE: &'static str = "Image generation timed out after 10 minutes";

/// The error given when the model's answer is not the expected JSON.
pub const PARSE_FAILURE_MESSAGE: &'static str = "Failed to parse Ollama JSON response";

/// What stands for the body of a failed answer that could not be read.
pub const UNKNOWN_ERROR: &'static str = "Unknown error";

pub open spec fn model_missing_text() -> Seq<char> {
    "Model '"@ + DEFAULT_IMAGE_MODEL@ + "' not found. Download it with: ollama pull "@
        + DEFAULT_IMAGE_MODEL@
}

pub open spec fn encoder_bug_text() -> Seq<char> {
    "Ollama has a known bug in the text encoder for image generation models.\nThe model crashes with: 'runtime error: index out of range [0] with length 0'\nThis is an Ollama internal bug, not a configuration issue.\nPossible workarounds:\n1. Update Ollama to the latest version\n2. Use ComfyUI with z-image-turbo-fp8 weights instead\n3. Try running ollama with OLLAMA_NUM_GPU=0 to force CPU-only"@
}

pub open spec fn memory_text(error_text: Seq<char>) -> Seq<char> {
    "Not enough GPU memory. Ollama image models need 12+ GB VRAM.\nFor low VRAM (~8 GB), try ComfyUI with FP8 quantized weights instead.\nError: "@
        + error_text
}

/// The error given for an answer with a failure status `code` and body
/// `error_text`: a missing model, the encoder bug, too little memory, or
/// else the status and body as they are.
pub open spec fn failure_message(code: u16, error_text: Seq<char>) -> Seq<char> {
    if code == 404 || contains_seq(error_text, "not found"@) {
        model_missing_text()
    } else if code == 500 && contains_seq(error_text, "index out of range"@) {
        encoder_bug_text()
    } else if contains_seq(error_text, "GiB"@) || contains_seq(error_text, "memory"@)
        || contains_seq(error_text, "VRAM"@) {
        memory_text(error_text)
    } else {
        "Ollama API returned error status "@ + status_text(code) + ": "@ + error_text
    }
}

pub fn http_failure_message(code: u16, error_text: &str) -> (r: String)
    requires
        100 <= code <= 999,
    ensures
        r@ == failure_message(code, error_text@),
{
    if code == 404 || contains_str(error_text, "not found") {
        let mut out = chars_of("Model '");
        push_str_chars(&mut out, DEFAULT_IMAGE_MODEL);
        push_str_chars(&mut out, "' not found. Download it with: ollama pull ");
        push_str_chars(&mut out, DEFAULT_IMAGE_MODEL);
        string_of(out.as_slice())
    } else if code == 500 && contains_str(error_text, "index out of range") {
        String::from_str(
            "Ollama has a known bug in the text encoder for image generation models.\nThe model crashes with: 'runtime error: index out of range [0] with length 0'\nThis is an Ollama internal bug, not a configuration issue.\nPossible workarounds:\n1. Update Ollama to the latest version\n2. Use ComfyUI with z-image-turbo-fp8 weights instead\n3. Try running ollama with OLLAMA_NUM_GPU=0 to force CPU-only",
        )
    } else if contains_str(error_text, "GiB") || contains_str(error_text, "memory") || contains_str(
        error_text,
        "VRAM",
    ) {
        let mut out = chars_of(
            "Not enough GPU memory. Ollama image models need 12+ GB VRAM.\nFor low VRAM (~8 GB), try ComfyUI with FP8 quantized weights instead.\nError: ",
        );
        push_str_chars(&mut out, error_text);
        string_of(out.as_slice())
    } else {
        let mut out = chars_of("Ollama API returned error status ");
        let status = status_display(code);
        push_str_chars(&mut out, status.as_str());
        push_str_chars(&mut out, ": ");
        push_str_chars(&mut out, error_text);
        string_of(out.as_slice())
    }
}

// ---------------------------------------------------------------------------
// The image model's answer
// ---------------------------------------------------------------------------

/// What the image model answers.
pub struct ImageGenerationResponse {
    pub image: Option<String>,
    pub response: Option<String>,
    pub done: bool,
    pub error: Option<String>,
    pub done_reason: Option<String>,
}

pub open spec fn opt_text(o: Option<String>) -> Option<Seq<char>> {
    match o {
        Some(s) => Some(s@),
        None => None,
    }
}

/// How `Debug` writes an optional text (`None`, or `Some` and the text
/// quoted with its special characters escaped).
pub uninterp spec fn debug_option(o: Option<Seq<char>>) -> Seq<char>;

/// `Debug` formatting of an optional `String`: the result is
/// `debug_option` of the value.
#[verifier::external_body]
fn debug_text(o: &Option<String>) -> (r: String)
    ensures
        r@ == debug_option(opt_text(*o)),
{
    format!("{:?}", o)
}

pub open spec fn no_image_text(done_reason: Option<Seq<char>>) -> Seq<char> {
    "No image data in response (done=true, done_reason="@ + debug_option(done_reason) + ")"@
}

/// The base64 text of the image in an answer, or the error it gives: the
/// error the model reported, an unfinished generation, or no image at all.
/// The image is looked for under `image`, then under `response`.
pub open spec fn payload(resp: ImageGenerationResponse) -> Result<Seq<char>, Seq<char>> {
    match resp.error {
        Some(e) => Err("Ollama error: "@ + e@),
        None => if !resp.done {
            Err("Image generation did not complete successfully"@)
        } else {
            match resp.image {
                Some(i) => Ok(i@),
                None => match resp.response {
                    Some(r) => Ok(r@),
                    None => Err(no_image_text(opt_text(resp.done_reason))),
                },
            }
        },
    }
}

pub fn image_payload(resp: &ImageGenerationResponse) -> (r: Result<String, String>)
    ensures
        match r {
            Ok(t) => payload(*resp) == Ok::<Seq<char>, Seq<char>>(t@),
            Err(e) => payload(*resp) == Err::<Seq<char>, Seq<char>>(e@),
        },
{
    match &resp.error {
        Some(e) => {
            let mut out = chars_of("Ollama error: ");
            push_str_chars(&mut out, e.as_str());
            return Err(string_of(out.as_slice()));
        },
        None => {},
    }
    if !resp.done {
        return Err(String::from_str("Image generation did not complete successfully"));
    }
    match &resp.image {
        Some(i) => Ok(i.clone()),
        None => match &resp.response {
            Some(t) => Ok(t.clone()),
            None => {
                let mut out = chars_of("No image data in response (done=true, done_reason=");
                let reason = debug_text(&resp.done_reason);
                push_str_chars(&mut out, reason.as_str());
                push_str_chars(&mut out, ")");
                Err(string_of(out.as_slice()))
            },
        },
    }
}

/// Text with a space in it is prose, not base64.
pub open spec fn looks_like_text(t: Seq<char>) -> bool {
    contains_seq(t, " "@) || contains_seq(t, " the "@) || contains_seq(t, " a "@) || contains_seq(
        t,
        " и "@,
    )
}

/// The first 150 characters of `t`.
pub open spec fn preview(t: Seq<char>) -> Seq<char> {
    if t.len() <= 150 {
        t
    } else {
        t.take(150)
    }
}

pub open spec fn text_instead_message(trimmed: Seq<char>) -> Seq<char> {
    "Model '"@ + DEFAULT_IMAGE_MODEL@
        + "' returned text instead of image data.\nUse an image generation model: x/z-image-turbo\nPull with: ollama pull x/z-image-turbo\nResponse preview: "@
        + preview(trimmed)
}

/// The bytes the standard base64 alphabet (with padding) decodes `s` to,
/// or `None` where `s` is no such text.
pub uninterp spec fn base64_decoded(s: Seq<char>) -> Option<Seq<u8>>;

#[verifier::external_type_specification]
#[verifier::external_body]
pub struct ExDecodeError(base64::DecodeError);

/// `STANDARD.decode` of the UTF-8 bytes of `s`: the bytes are
/// `base64_decoded` of `s`, and it fails exactly where that is `None`.
#[verifier::external_body]
fn decode_base64(s: &str) -> (r: Result<Vec<u8>, base64::DecodeError>)
    ensures
        match r {
            Ok(v) => base64_decoded(s@) == Some(v@),
            Err(_) => base64_decoded(s@) is None,
        },
{
    base64::engine::general_purpose::STANDARD.decode(s)
}

/// The image an answer's base64 text stands for, or the error: prose where
/// base64 was expected, or text that does not decode.
pub open spec fn decoded_image(text: Seq<char>) -> Result<Seq<u8>, Seq<char>> {
    let trimmed = trim(text);
    if looks_like_text(trimmed) {
        Err(text_instead_message(trimmed))
    } else {
        match base64_decoded(text) {
            Some(b) => Ok(b),
            None => Err("Failed to decode base64 image data"@),
        }
    }
}

pub fn decode_image(text: &str) -> (r: Result<Vec<u8>, String>)
    ensures
        match r {
            Ok(b) => decoded_image(text@) == Ok::<Seq<u8>, Seq<char>>(b@),
            Err(e) => decoded_image(text@) == Err::<Seq<u8>, Seq<char>>(e@),
        },
{
    let cs = chars_of(text);
    let trimmed = trim_chars(cs.as_slice());
    let t = string_of(trimmed.as_slice());
    if contains_str(t.as_str(), " ") || contains_str(t.as_str(), " the ") || contains_str(
        t.as_str(),
        " a ",
    ) || contains_str(t.as_str(), " и ") {
        let mut out = chars_of("Model '");
        push_str_chars(&mut out, DEFAULT_IMAGE_MODEL);
        push_str_chars(
            &mut out,
            "' returned text instead of image data.\nUse an image generation model: x/z-image-turbo\nPull with: ollama pull x/z-image-turbo\nResponse preview: ",
        );
        let n: usize = if trimmed.len() <= 150 {
            trimmed.len()
        } else {
            150
        };
        let p = slice_chars(trimmed.as_slice(), 0, n);
        assert(p@ =~= preview(trimmed@));
        crate::text::push_chars(&mut out, p.as_slice());
        return Err(string_of(out.as_slice()));
    }
    match decode_base64(text) {
        Ok(bytes) => Ok(bytes),
        Err(_) => Err(String::from_str("Failed to decode base64 image data")),
    }
}

/// The image an answer holds, or the error it gives.
pub open spec fn answered_image(resp: ImageGenerationResponse) -> Result<Seq<u8>, Seq<char>> {
    match payload(resp) {
        Ok(t) => decoded_image(t),
        Err(e) => Err(e),
    }
}

pub fn image_bytes(resp: &ImageGenerationResponse) -> (r: Result<Vec<u8>, String>)
    ensures
        match r {
            Ok(b) => answered_image(*resp) == Ok::<Seq<u8>, Seq<char>>(b@),
            Err(e) => answered_image(*resp) == Err::<Seq<u8>, Seq<char>>(e@),
        },
{
    match image_payload(resp) {
        Ok(t) => decode_image(t.as_str()),
        Err(e) => Err(e),
    }
}

} // verus!
