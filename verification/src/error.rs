use vstd::prelude::*;

verus! {

/// The classes of I/O failure the library distinguishes.
#[derive(Debug, Clone, Copy, PartialEq, Eq, Structural)]
pub enum IoKind {
    NotFound,
    TimedOut,
    Other,
}

/// Mathematical model of a protocol-level failure.
#[verifier::ext_equal]
pub enum PErrV {
    Connection(Seq<char>),
    Utf8,
    Json(Seq<char>),
    Io(IoKind, Seq<char>),
    TooManyRedirects,
    TooManyRetries,
}

/// A failure below the application: transport, decoding, I/O, or one of the
/// two middleware exhaustion conditions. Never carries an HTTP response.
#[derive(Debug)]
pub enum ProtocolError {
    ConnectionError(String),
    Utf8Error,
    JsonError(String),
    IoError(IoKind, String),
    TooManyRedirects,
    TooManyRetries,
}

impl View for ProtocolError {
    type V = PErrV;

    open spec fn view(&self) -> PErrV {
        match self {
            ProtocolError::ConnectionError(m) => PErrV::Connection(m@),
            ProtocolError::Utf8Error => PErrV::Utf8,
            ProtocolError::JsonError(m) => PErrV::Json(m@),
            ProtocolError::IoError(k, m) => PErrV::Io(*k, m@),
            ProtocolError::TooManyRedirects => PErrV::TooManyRedirects,
            ProtocolError::TooManyRetries => PErrV::TooManyRetries,
        }
    }
}

impl Clone for ProtocolError {
    fn clone(&self) -> (r: Self)
        ensures
            r@ == self@,
    {
        match self {
            ProtocolError::ConnectionError(m) => ProtocolError::ConnectionError(m.clone()),
            ProtocolError::Utf8Error => ProtocolError::Utf8Error,
            ProtocolError::JsonError(m) => ProtocolError::JsonError(m.clone()),
            ProtocolError::IoError(k, m) => ProtocolError::IoError(*k, m.clone()),
            ProtocolError::TooManyRedirects => ProtocolError::TooManyRedirects,
            ProtocolError::TooManyRetries => ProtocolError::TooManyRetries,
        }
    }
}

impl ProtocolError {
    /// A short description, in place of a `Display` implementation.
    pub fn message(&self) -> (r: String)
        ensures
            self is TooManyRedirects ==> r@ == "TooManyRedirects"@,
            self is TooManyRetries ==> r@ == "TooManyRetries"@,
    {
        match self {
            ProtocolError::ConnectionError(m) => {
                let mut s = String::from_str("ConnectionError: ");
                s.append(m.as_str());
                s
            },
            ProtocolError::Utf8Error => String::from_str("Utf8Error"),
            ProtocolError::JsonError(m) => {
                let mut s = String::from_str("JsonError: ");
                s.append(m.as_str());
                s
            },
            ProtocolError::IoError(_, m) => {
                let mut s = String::from_str("IoError: ");
                s.append(m.as_str());
                s
            },
            ProtocolError::TooManyRedirects => String::from_str("TooManyRedirects"),
            ProtocolError::TooManyRetries => String::from_str("TooManyRetries"),
        }
    }
}

/// Either a protocol failure or a completed HTTP exchange whose status was an
/// error; `T` is the response representation.
#[derive(Debug)]
pub enum Error<T> {
    Protocol(ProtocolError),
    HttpError(T),
}

impl Error<crate::response::InMemoryResponse> {
    /// The status of the failed exchange; a protocol failure has none.
    pub fn status(&self) -> (r: Option<u16>)
        ensures
            match r {
                Some(code) => self matches Error::HttpError(resp) && resp@.status == code,
                None => self is Protocol,
            },
    {
        match self {
            Error::HttpError(resp) => Some(resp.status),
            Error::Protocol(_) => None,
        }
    }

    /// A textual rendering of the failure: the protocol message, or the
    /// failed response's body as text.
    pub fn into_text(self) -> (r: String)
        ensures
            self matches Error::Protocol(e) && e@ is TooManyRetries ==> r@
                == "TooManyRetries"@,
            self matches Error::Protocol(e) && e@ is TooManyRedirects ==> r@
                == "TooManyRedirects"@,
    {
        match self {
            Error::Protocol(e) => e.message(),
            Error::HttpError(resp) => match resp.text() {
                Ok(t) => t,
                Err(_) => String::from_str("response body is not text"),
            },
        }
    }
}

} // verus!
