use vstd::prelude::*;
use crate::naming::{decimal, decimal_string};

verus! {

/// `url::ParseError`, carried as an opaque cause of a failed request.
#[verifier::external_type_specification]
#[verifier::external_body]
pub struct ExParseError(url::ParseError);

/// What `url::Url::parse_with_params` gives for a base address and query pairs: the serialized
/// URL, or `None` where the base does not parse.
pub uninterp spec fn url_with_query(base: Seq<char>, pairs: Seq<(Seq<char>, Seq<char>)>) -> Option<
    Seq<char>,
>;

/// The texts of a list of query pairs.
pub open spec fn pair_texts(pairs: Seq<(String, String)>) -> Seq<(Seq<char>, Seq<char>)> {
    pairs.map_values(|p: (String, String)| (p.0@, p.1@))
}

/// Relies on `url::Url::parse_with_params` (re-exported by reqwest as `reqwest::Url`): it parses
/// `base`, percent-encoding what the path needs, and appends `pairs` as a form-encoded query.
/// The result depends on the arguments alone.
#[verifier::external_body]
fn parse_with_params(base: &str, pairs: &Vec<(String, String)>) -> (r: Result<String, url::ParseError>)
    ensures
        match r {
            Ok(u) => url_with_query(base@, pair_texts(pairs@)) == Some(u@),
            Err(_) => url_with_query(base@, pair_texts(pairs@)) is None,
        },
{
    reqwest::Url::parse_with_params(base, pairs.iter()).map(String::from)
}

/// The address of the image service's prompt endpoint, to which the prompt is appended.
pub open spec fn prompt_endpoint() -> Seq<char> {
    seq![
        'h', 't', 't', 'p', 's', ':', '/', '/', 'i', 'm', 'a', 'g', 'e', '.', 'p', 'o', 'l', 'l',
        'i', 'n', 'a', 't', 'i', 'o', 'n', 's', '.', 'a', 'i', '/', 'p', 'r', 'o', 'm', 'p', 't', '/',
    ]
}

/// The query of a request for an image of `width` by `height` pixels.
pub open spec fn request_query(width: u32, height: u32) -> Seq<(Seq<char>, Seq<char>)> {
    seq![
        (seq!['w', 'i', 'd', 't', 'h'], decimal(width as nat)),
        (seq!['h', 'e', 'i', 'g', 'h', 't'], decimal(height as nat)),
        (seq!['n', 'o', 'l', 'o', 'g', 'o'], seq!['f', 'a', 'l', 's', 'e']),
    ]
}

/// The URL that asks the image service for `prompt` at `resolution` (width, height), if the
/// service's address with the prompt appended parses.
pub open spec fn request_url_of(prompt: Seq<char>, resolution: [u32; 2]) -> Option<Seq<char>> {
    url_with_query(prompt_endpoint() + prompt, request_query(resolution[0], resolution[1]))
}

/// Why a generation failed.
#[derive(Debug, PartialEq, Eq)]
pub enum GenerationCause {
    /// The request URL could not be built from the prompt.
    InvalidUrl(url::ParseError),
    /// The image service could not be reached or its answer not read; the transport's message.
    Transport(String),
}

/// The failures of the generation pipeline.
#[derive(Debug, PartialEq, Eq)]
pub enum PipelineError {
    /// No image came back from the image service.
    GenerationFailed(GenerationCause),
    /// The image could not be written to the output directory; the cause.
    PersistenceFailed(String),
}

/// The request URL, or the generation failure for a URL that did not parse.
pub fn url_result(parsed: Result<String, url::ParseError>) -> (r: Result<String, PipelineError>)
    ensures
        match parsed {
            Ok(u) => r == Ok::<String, PipelineError>(u),
            Err(e) => r == Err::<String, PipelineError>(
                PipelineError::GenerationFailed(GenerationCause::InvalidUrl(e)),
            ),
        },
{
    match parsed {
        Ok(u) => Ok(u),
        Err(e) => Err(PipelineError::GenerationFailed(GenerationCause::InvalidUrl(e))),
    }
}

/// Builds the URL that asks the image service for an image of `prompt` at `resolution`
/// (width, height). A prompt that cannot be made part of a URL is a failed generation.
pub fn request_url(prompt: &str, resolution: [u32; 2]) -> (r: Result<String, PipelineError>)
    ensures
        match request_url_of(prompt@, resolution) {
            Some(u) => r is Ok && r->Ok_0@ == u,
            None => r matches Err(PipelineError::GenerationFailed(GenerationCause::InvalidUrl(_))),
        },
{
    proof {
        reveal_strlit("https://image.pollinations.ai/prompt/");
        reveal_strlit("width");
        reveal_strlit("height");
        reveal_strlit("nologo");
        reveal_strlit("false");
    }
    let mut base = String::from_str("https://image.pollinations.ai/prompt/");
    base.append(prompt);
    assert(base@ =~= prompt_endpoint() + prompt@);
    let width = resolution[0];
    let height = resolution[1];
    let mut pairs: Vec<(String, String)> = Vec::new();
    let width_pair = (String::from_str("width"), decimal_string(width as u64));
    let height_pair = (String::from_str("height"), decimal_string(height as u64));
    let flag_pair = (String::from_str("nologo"), String::from_str("false"));
    assert(width_pair.0@ == request_query(width, height)[0].0);
    assert(height_pair.0@ == request_query(width, height)[1].0);
    assert(flag_pair.0@ == request_query(width, height)[2].0);
    assert(flag_pair.1@ == request_query(width, height)[2].1);
    pairs.push(width_pair);
    pairs.push(height_pair);
    pairs.push(flag_pair);
    assert(pair_texts(pairs@) =~= request_query(width, height));
    url_result(parse_with_params(base.as_str(), &pairs))
}

} // verus!
