//! The memory store as the compiler sees it: the addresses of its
//! endpoints and the shape of its answers. Sending the requests is left to
//! the caller.

use vstd::prelude::*;
use vstd::string::*;
use crate::text::{append_decimal, decimal, text_bytes};

verus! {

/// The number of memories asked for where the caller names none.
pub const DEFAULT_MEMORY_LIMIT: usize = 5;

/// Addresses of the memory store's endpoints.
#[derive(Debug, Clone)]
pub struct MemoryClient {
    base_url: String,
}

/// One long-term memory of a user.
#[derive(Debug, Clone)]
pub struct Memory {
    pub text: String,
    pub source: String,
    /// Relevance to the query, in millionths.
    pub relevance: Option<u32>,
    pub category: Option<String>,
}

#[derive(Debug, Clone)]
pub struct MemoriesResponse {
    pub user_id: String,
    pub memories: Vec<Memory>,
    pub count: usize,
}

#[derive(Debug, Clone)]
pub struct FormattedMemoriesResponse {
    pub user_id: String,
    pub query: String,
    pub formatted_text: String,
    pub memory_count: usize,
}

/// A byte that stands for itself in a URL: an ASCII letter, a digit, or one
/// of `-`, `.`, `_`, `~`.
pub open spec fn is_unreserved(b: u8) -> bool {
    ||| 0x30 <= b <= 0x39
    ||| 0x41 <= b <= 0x5a
    ||| 0x61 <= b <= 0x7a
    ||| b == 0x2d
    ||| b == 0x2e
    ||| b == 0x5f
    ||| b == 0x7e
}

/// The upper-case hexadecimal digit of a value below 16.
pub open spec fn hex_digit(d: int) -> char {
    if d < 10 {
        (0x30 + d) as u8 as char
    } else {
        (0x41 + d - 10) as u8 as char
    }
}

/// The percent-encoding of a byte string: an unreserved byte stands for
/// itself, any other byte is written as `%` and two hexadecimal digits.
pub open spec fn percent_encoded(bytes: Seq<u8>) -> Seq<char>
    decreases bytes.len(),
{
    if bytes.len() == 0 {
        Seq::empty()
    } else {
        let b = bytes.last();
        percent_encoded(bytes.drop_last()) + if is_unreserved(b) {
            seq![b as char]
        } else {
            seq!['%', hex_digit(b as int / 16), hex_digit(b as int % 16)]
        }
    }
}

/// Calls `urlencoding::encode`, which percent-encodes every byte of the
/// UTF-8 form of the text except ASCII letters, digits and `-`, `.`, `_`,
/// `~`, with upper-case hexadecimal digits. The contract states this of the
/// result; it is not proved here.
#[verifier::external_body]
fn url_encode(text: &str) -> (encoded: String)
    ensures
        encoded@ == percent_encoded(text_bytes(text@)),
{
    urlencoding::encode(text).into_owned()
}

impl MemoryClient {
    /// The base address of the store.
    pub closed spec fn base(&self) -> Seq<char> {
        self.base_url@
    }

    /// Creates a client for the store at `base_url`.
    pub fn new(base_url: String) -> (client: MemoryClient)
        ensures
            client.base() == base_url@,
    {
        MemoryClient { base_url }
    }

    /// The base address of the store.
    pub fn base_url(&self) -> (url: &String)
        ensures
            url@ == self.base(),
    {
        &self.base_url
    }

    /// The address of the memories of a user that are relevant to a query:
    /// `{base}/memory/{user_id}?query={query}&limit={limit}`, with the query
    /// percent-encoded and a limit of 5 where none is given.
    pub fn memories_url(&self, user_id: &str, query: &str, limit: Option<usize>) -> (url: String)
        ensures
            url@ == self.base() + "/memory/"@ + user_id@ + "?query="@ + percent_encoded(
                text_bytes(query@),
            ) + "&limit="@ + decimal(
                match limit {
                    Some(n) => n as nat,
                    None => DEFAULT_MEMORY_LIMIT as nat,
                },
            ),
    {
        let n = match limit {
            Some(n) => n,
            None => DEFAULT_MEMORY_LIMIT,
        };
        let mut url = self.base_url.clone();
        url.append("/memory/");
        url.append(user_id);
        url.append("?query=");
        let encoded = url_encode(query);
        url.append(encoded.as_str());
        url.append("&limit=");
        append_decimal(&mut url, n as u128);
        url
    }

    /// The address of the same memories as one block of text:
    /// `{base}/memory/{user_id}/formatted?query={query}&limit={limit}`.
    pub fn formatted_url(&self, user_id: &str, query: &str, limit: Option<usize>) -> (url: String)
        ensures
            url@ == self.base() + "/memory/"@ + user_id@ + "/formatted?query="@ + percent_encoded(
                text_bytes(query@),
            ) + "&limit="@ + decimal(
                match limit {
                    Some(n) => n as nat,
                    None => DEFAULT_MEMORY_LIMIT as nat,
                },
            ),
    {
        let n = match limit {
            Some(n) => n,
            None => DEFAULT_MEMORY_LIMIT,
        };
        let mut url = self.base_url.clone();
        url.append("/memory/");
        url.append(user_id);
        url.append("/formatted?query=");
        let encoded = url_encode(query);
        url.append(encoded.as_str());
        url.append("&limit=");
        append_decimal(&mut url, n as u128);
        url
    }

    /// The address of the health endpoint: `{base}/health`.
    pub fn health_url(&self) -> (url: String)
        ensures
            url@ == self.base() + "/health"@,
    {
        let mut url = self.base_url.clone();
        url.append("/health");
        url
    }
}

} // verus!
