//! The side-effect surface: requests that an application hands out and the
//! outcomes that come back to it as messages.

use vstd::prelude::*;

verus! {

/// A single HTTP request.
#[derive(Debug, Copy, Clone)]
pub struct HttpRequest<'a> {
    /// HTTP method ("GET", "POST", and so on).
    pub method: &'a str,
    /// The header (key, value) pairs.
    pub headers: &'a [(&'a str, &'a str)],
    /// Request URL.
    pub url: &'a str,
    /// Request body.
    pub body: &'a str,
    /// Optional request timeout in milliseconds.
    pub timeout_millis: Option<u32>,
}

impl<'a> HttpRequest<'a> {
    /// The timeout as the host takes it: the milliseconds, with zero for a
    /// request that never times out.
    pub fn timeout_or_zero(&self) -> (millis: u32)
        ensures
            millis == match self.timeout_millis {
                Some(t) => t,
                None => 0u32,
            },
    {
        match self.timeout_millis {
            Some(t) => t,
            None => 0,
        }
    }
}

/// The outcome of a request: a response, or the reason why there is none.
pub type HttpResult<'a> = Result<HttpResponse<'a>, HttpError>;

/// A single HTTP response.
#[derive(Debug, Copy, Clone)]
pub struct HttpResponse<'a> {
    /// HTTP status.
    pub status_code: u16,
    /// HTTP status text.
    pub status_text: &'a str,
    /// The response header (key, value) pairs.
    pub headers: &'a [(&'a str, &'a str)],
    /// The body of the response.
    pub body: &'a str,
}

/// Why a request brought no response: the connection failed, or the request
/// timed out.
#[derive(Debug, Copy, Clone, PartialEq, Eq)]
pub enum HttpError {
    NetworkError,
    Timeout,
}

/// Turns the outcome of a request into a message for the application.
pub trait HttpResponseHandler: 'static {
    type Message;

    fn handle<'a>(&self, response: HttpResult<'a>) -> Self::Message;
}

/// The handle through which an application issues side effects. Issuing one
/// does not wait for it: the outcome arrives later, as a message.
pub trait JsIo<Message> {
    /// Issues an asynchronous HTTP request; `handler` turns its outcome into
    /// the message that the application will receive.
    fn http<'b, H: HttpResponseHandler<Message = Message>>(
        &self,
        http_request: HttpRequest<'b>,
        handler: H,
    );
}

/// What the host reports when a request ends.
#[derive(Debug, Copy, Clone, PartialEq, Eq)]
pub enum HttpSignal {
    /// The response has arrived.
    Loaded,
    /// The request timed out.
    TimedOut,
    /// The connection failed.
    Failed,
}

impl HttpSignal {
    /// The signal that the host's number `code` stands for: 0 for a response,
    /// 1 for a timeout, 2 for a failed connection. No other number is a
    /// signal.
    pub fn from_code(code: i32) -> (signal: Option<HttpSignal>)
        ensures
            code == 0 ==> signal == Some(HttpSignal::Loaded),
            code == 1 ==> signal == Some(HttpSignal::TimedOut),
            code == 2 ==> signal == Some(HttpSignal::Failed),
            !(0 <= code <= 2) ==> signal is None,
    {
        if code == 0 {
            Some(HttpSignal::Loaded)
        } else if code == 1 {
            Some(HttpSignal::TimedOut)
        } else if code == 2 {
            Some(HttpSignal::Failed)
        } else {
            None
        }
    }
}

/// The outcome that the handler receives when the host reports `signal`: the
/// response that was read where one has arrived, else the error.
pub fn http_result<'a>(signal: HttpSignal, response: HttpResponse<'a>) -> (result: HttpResult<'a>)
    ensures
        signal == HttpSignal::Loaded ==> result == Ok::<HttpResponse<'a>, HttpError>(response),
        signal == HttpSignal::TimedOut ==> result == Err::<HttpResponse<'a>, HttpError>(
            HttpError::Timeout,
        ),
        signal == HttpSignal::Failed ==> result == Err::<HttpResponse<'a>, HttpError>(
            HttpError::NetworkError,
        ),
{
    match signal {
        HttpSignal::Loaded => Ok(response),
        HttpSignal::TimedOut => Err(HttpError::Timeout),
        HttpSignal::Failed => Err(HttpError::NetworkError),
    }
}

} // verus!
