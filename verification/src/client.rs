//! The market data client's decisions: the requests to make, what a response holds, and
//! whether another page is to be asked for.

use vstd::prelude::*;
use vstd::string::*;
use crate::frame::StockFrame;
use crate::json::{document_of, find_key, find_member, parse_json, Json};

verus! {

/// Why the bars of a ticker could not be had.
#[derive(Clone, Copy, Debug, PartialEq, Eq)]
pub enum FetchError {
    /// The request itself failed.
    Network,
    /// The response is not a JSON object with a page-cursor member and an array of bars.
    InvalidResponse,
}

/// The credentials are incomplete: the key or the secret is missing.
#[derive(Clone, Copy, Debug, PartialEq, Eq)]
pub struct ConfigurationError {
    pub key_missing: bool,
    pub secret_missing: bool,
}

/// The two credentials that every request carries.
#[derive(Debug, PartialEq, Eq)]
pub struct Credentials {
    pub key: String,
    pub secret: String,
}

/// One page of a response: its bars and, where more pages follow, the cursor to ask for the
/// next one with.
#[derive(Debug, PartialEq, Eq)]
pub struct Page {
    pub bars: Vec<Json>,
    pub next_page_token: Option<String>,
}

/// The value of a [`Page`].
pub struct PageModel {
    pub bars: Seq<Json>,
    pub next_page_token: Option<Seq<char>>,
}

impl View for Page {
    type V = PageModel;

    open spec fn view(&self) -> PageModel {
        PageModel {
            bars: self.bars@,
            next_page_token: match self.next_page_token {
                Some(token) => Some(token@),
                None => None,
            },
        }
    }
}

/// What the client does after a response.
#[derive(Debug, PartialEq, Eq)]
pub enum Fetch {
    /// The response was the last page: these are all the bars of the ticker.
    Complete { bars: Vec<Json> },
    /// More pages follow: `url` is the next request, `bars` what has been gathered so far.
    Continue { bars: Vec<Json>, url: String },
}

/// The page that a document holds, or nothing where it does not have the shape of a page:
/// an object with a member `next_page_token` and a member `bars` that is an array. The
/// cursor is the text of `next_page_token` where that is a text; any other value there
/// marks the last page.
pub open spec fn page_model(doc: Option<Json>) -> Option<PageModel> {
    match doc {
        Some(Json::Object(members)) => match (
            find_key(members@, "next_page_token"@, 0),
            find_key(members@, "bars"@, 0),
        ) {
            (Some(token_at), Some(bars_at)) => match members@[bars_at].1 {
                Json::Array(items) => Some(
                    PageModel {
                        bars: items@,
                        next_page_token: match members@[token_at].1 {
                            Json::Text(token) => Some(token@),
                            _ => None,
                        },
                    },
                ),
                _ => None,
            },
            _ => None,
        },
        _ => None,
    }
}

/// The request for the page after the one that gave `token`.
pub open spec fn page_request(uri: Seq<char>, token: Seq<char>) -> Seq<char> {
    uri + "&page_token="@ + token
}

/// The page that a document holds.
pub fn page_of_document(doc: Option<Json>) -> (result: Result<Page, FetchError>)
    ensures
        match result {
            Ok(page) => page_model(doc) == Some(page@),
            Err(error) => error == FetchError::InvalidResponse && page_model(doc) is None,
        },
{
    let mut members: Vec<(String, Json)> = match doc {
        Some(Json::Object(members)) => members,
        _ => { return Err(FetchError::InvalidResponse); },
    };
    let ghost listed = members@;
    let token_at: usize = match find_member(&members, "next_page_token") {
        Some(i) => i,
        None => { return Err(FetchError::InvalidResponse); },
    };
    let bars_at: usize = match find_member(&members, "bars") {
        Some(i) => i,
        None => { return Err(FetchError::InvalidResponse); },
    };
    let next_page_token: Option<String> = match &members[token_at].1 {
        Json::Text(token) => Some(token.clone()),
        _ => None,
    };
    let member: (String, Json) = members.remove(bars_at);
    assert(member == listed[bars_at as int]);
    match member.1 {
        Json::Array(items) => Ok(Page { bars: items, next_page_token }),
        _ => Err(FetchError::InvalidResponse),
    }
}

/// The page that a response body holds.
pub fn decode_page(body: &[u8]) -> (result: Result<Page, FetchError>)
    ensures
        match result {
            Ok(page) => page_model(document_of(body@)) == Some(page@),
            Err(error) => error == FetchError::InvalidResponse && page_model(document_of(body@))
                is None,
        },
{
    page_of_document(parse_json(body))
}

/// The request to make for a ticker's bars: the first one where there is no cursor yet, the
/// one for the next page where there is.
pub fn request_url(uri: &String, page_token: &Option<String>) -> (url: String)
    ensures
        url@ == match *page_token {
            Some(token) => page_request(uri@, token@),
            None => uri@,
        },
{
    let mut url: String = uri.clone();
    match page_token {
        Some(token) => {
            url.append("&page_token=");
            url.append(token.as_str());
        },
        None => {},
    }
    url
}

/// What the client does once it holds the document of a response: it adds the page's bars
/// to those gathered so far, and either asks for the next page or is done.
pub fn advance(uri: &String, gathered: Vec<Json>, doc: Option<Json>) -> (result: Result<
    Fetch,
    FetchError,
>)
    ensures
        match page_model(doc) {
            None => result == Err::<Fetch, FetchError>(FetchError::InvalidResponse),
            Some(page) => match page.next_page_token {
                None => result matches Ok(Fetch::Complete { bars }) && bars@ == gathered@
                    + page.bars,
                Some(token) => result matches Ok(Fetch::Continue { bars, url }) && bars@
                    == gathered@ + page.bars && url@ == page_request(uri@, token),
            },
        },
{
    let mut page: Page = match page_of_document(doc) {
        Ok(page) => page,
        Err(error) => { return Err(error); },
    };
    let mut bars: Vec<Json> = gathered;
    bars.append(&mut page.bars);
    match page.next_page_token {
        None => Ok(Fetch::Complete { bars }),
        Some(token) => {
            let url: String = request_url(uri, &Some(token));
            Ok(Fetch::Continue { bars, url })
        },
    }
}

impl StockFrame {
    /// What the client does after a response to a request for a ticker's bars.
    ///
    /// `uri` is the ticker's first request, `gathered` the bars of the pages read so far and
    /// `body` the response just received. While a response names a cursor the client is
    /// told to go on, however many pages that takes; a response that is not a page fails
    /// the ticker.
    pub fn grab_entire_json(uri: &String, gathered: Vec<Json>, body: &[u8]) -> (result: Result<
        Fetch,
        FetchError,
    >)
        ensures
            match page_model(document_of(body@)) {
                None => result == Err::<Fetch, FetchError>(FetchError::InvalidResponse),
                Some(page) => match page.next_page_token {
                    None => result matches Ok(Fetch::Complete { bars }) && bars@ == gathered@
                        + page.bars,
                    Some(token) => result matches Ok(Fetch::Continue { bars, url }) && bars@
                        == gathered@ + page.bars && url@ == page_request(uri@, token),
                },
            },
    {
        advance(uri, gathered, parse_json(body))
    }
}

/// The seconds that the client waits between the requests of two tickers, to stay under the
/// provider's quota.
pub const PAUSE_SECONDS: u64 = 4;

/// The text of an instant, given in milliseconds since the epoch, as
/// `chrono::DateTime::to_rfc3339_opts` writes it in UTC with whole seconds and the suffix
/// `Z`; nothing where `chrono::DateTime::from_timestamp_millis` finds the instant out of
/// its range.
pub uninterp spec fn rfc3339_of(instant: i64) -> Option<Seq<char>>;

/// Calls `chrono::DateTime::from_timestamp_millis`, of the chrono that polars re-exports,
/// and, on what it gives, `to_rfc3339_opts` with `SecondsFormat::Secs` and `use_z`. The
/// contract claims only that the outcome is a function of the instant, [`rfc3339_of`].
#[verifier::external_body]
fn rfc3339_seconds(instant: i64) -> (text: Option<String>)
    ensures
        match text {
            Some(text) => rfc3339_of(instant) == Some(text@),
            None => rfc3339_of(instant) is None,
        },
{
    polars::export::chrono::DateTime::from_timestamp_millis(instant).map(
        |at| at.to_rfc3339_opts(polars::export::chrono::SecondsFormat::Secs, true),
    )
}

/// The first request for a ticker's minute bars between two instants, given as texts.
pub open spec fn bars_request(ticker: Seq<char>, start: Seq<char>, end: Seq<char>) -> Seq<char> {
    "https://data.alpaca.markets/v2/stocks/"@ + ticker + "/bars?start="@ + start + "&end="@ + end
        + "&timeframe=1Min"@
}

/// The first request for a ticker's minute bars between two instants, given in
/// milliseconds since the epoch. There is none where an instant has no text.
pub fn bars_uri(ticker: &String, start: i64, end: i64) -> (uri: Option<String>)
    ensures
        match (rfc3339_of(start), rfc3339_of(end)) {
            (Some(from), Some(to)) => uri matches Some(text) && text@ == bars_request(
                ticker@,
                from,
                to,
            ),
            _ => uri is None,
        },
{
    let from: String = match rfc3339_seconds(start) {
        Some(text) => text,
        None => { return None; },
    };
    let to: String = match rfc3339_seconds(end) {
        Some(text) => text,
        None => { return None; },
    };
    let mut uri: String = String::from_str("https://data.alpaca.markets/v2/stocks/");
    uri.append(ticker.as_str());
    uri.append("/bars?start=");
    uri.append(from.as_str());
    uri.append("&end=");
    uri.append(to.as_str());
    uri.append("&timeframe=1Min");
    Some(uri)
}

/// The credentials, where both are there. A missing one stops the pipeline before any
/// request is made.
pub fn credentials(key: Option<String>, secret: Option<String>) -> (result: Result<
    Credentials,
    ConfigurationError,
>)
    ensures
        match result {
            Ok(found) => key == Some(found.key) && secret == Some(found.secret),
            Err(error) => {
                &&& key is None || secret is None
                &&& error.key_missing == (key is None)
                &&& error.secret_missing == (secret is None)
            },
        },
{
    match (key, secret) {
        (Some(key), Some(secret)) => Ok(Credentials { key, secret }),
        (key, secret) => Err(
            ConfigurationError { key_missing: key.is_none(), secret_missing: secret.is_none() },
        ),
    }
}

/// The two header lines that carry the credentials.
pub fn auth_headers(credentials: &Credentials) -> (headers: Vec<String>)
    ensures
        headers@.len() == 2,
        headers@[0]@ == "APCA-API-KEY-ID: "@ + credentials.key@,
        headers@[1]@ == "APCA-API-SECRET-KEY: "@ + credentials.secret@,
{
    let mut key_line: String = String::from_str("APCA-API-KEY-ID: ");
    key_line.append(credentials.key.as_str());
    let mut secret_line: String = String::from_str("APCA-API-SECRET-KEY: ");
    secret_line.append(credentials.secret.as_str());
    let mut headers: Vec<String> = Vec::new();
    headers.push(key_line);
    headers.push(secret_line);
    headers
}

} // verus!
