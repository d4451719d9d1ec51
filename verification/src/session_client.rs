//! The session store as the compiler sees it: the addresses of its
//! endpoints and the shape of its answers. Sending the requests is left to
//! the caller.

use vstd::prelude::*;
use vstd::string::*;
use crate::text::{append_decimal, decimal};

verus! {

/// The number of context spans asked for where the caller names none.
pub const DEFAULT_SESSION_LIMIT: usize = 10;

/// Addresses of the session store's endpoints.
#[derive(Debug, Clone)]
pub struct SessionClient {
    base_url: String,
}

/// One span of conversation history.
#[derive(Debug, Clone)]
pub struct SessionContextSpan {
    pub text: String,
    pub role: String,
    pub timestamp: String,
    pub token_estimate: usize,
}

/// The recent context of a session, oldest span first.
#[derive(Debug, Clone)]
pub struct SessionContextResponse {
    pub session_id: String,
    pub context_spans: Vec<SessionContextSpan>,
    pub total_tokens_estimate: usize,
}

impl SessionClient {
    /// The base address of the store.
    pub closed spec fn base(&self) -> Seq<char> {
        self.base_url@
    }

    /// Creates a client for the store at `base_url`.
    pub fn new(base_url: String) -> (client: SessionClient)
        ensures
            client.base() == base_url@,
    {
        SessionClient { base_url }
    }

    /// The base address of the store.
    pub fn base_url(&self) -> (url: &String)
        ensures
            url@ == self.base(),
    {
        &self.base_url
    }

    /// The address of the recent context of a session:
    /// `{base}/session/{id}/context?limit={limit}`, with a limit of 10 where
    /// none is given.
    pub fn context_url(&self, session_id: &str, limit: Option<usize>) -> (url: String)
        ensures
            url@ == self.base() + "/session/"@ + session_id@ + "/context?limit="@ + decimal(
                match limit {
                    Some(n) => n as nat,
                    None => DEFAULT_SESSION_LIMIT as nat,
                },
            ),
    {
        let n = match limit {
            Some(n) => n,
            None => DEFAULT_SESSION_LIMIT,
        };
        let mut url = self.base_url.clone();
        url.append("/session/");
        url.append(session_id);
        url.append("/context?limit=");
        append_decimal(&mut url, n as u128);
        url
    }

    /// The address of the state of a session: `{base}/session/{id}/state`.
    pub fn state_url(&self, session_id: &str) -> (url: String)
        ensures
            url@ == self.base() + "/session/"@ + session_id@ + "/state"@,
    {
        let mut url = self.base_url.clone();
        url.append("/session/");
        url.append(session_id);
        url.append("/state");
        url
    }

    /// The address of the health endpoint: `{base}/health`.
    pub fn health_url(&self) -> (url: String)
        ensures
            url@ == self.base() + "/health"@,
    {
        let mut url = self.base_url.clone();
        url.append("/health");
        url
    }
}

} // verus!
