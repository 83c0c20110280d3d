//! Why a WireGuard configuration is refused, and the message shown for it.
use vstd::prelude::*;

verus! {

/// A refusal of a WireGuard configuration.
///
/// No variant holds text taken from the configuration's values: a
/// `MissingField` names the key that was looked up, an `InvalidNumber` the
/// field that was being read, so a message can never echo a private key.
#[derive(Debug, Clone, PartialEq, Eq)]
pub enum WireGuardError {
    /// There is no `[Interface]` section.
    MissingInterface,
    /// The number of `[Peer]` header lines is not exactly one.
    UnsupportedPeerCount,
    /// There is no `[Peer]` section.
    MissingPeer,
    /// A required key is absent or empty; holds the key.
    MissingField(String),
    /// No entry of `Address` is an IPv4 address.
    NoIpv4Address,
    /// An endpoint that starts with `[` has no `]:`.
    BadIpv6Endpoint,
    /// An endpoint is not `host:port` with both parts non-empty.
    BadEndpoint,
    /// A number is not an integer from 0 to 65535; holds the field's name.
    InvalidNumber(String),
}

/// The mathematical value of a [`WireGuardError`].
pub enum ErrorView {
    MissingInterface,
    UnsupportedPeerCount,
    MissingPeer,
    MissingField(Seq<char>),
    NoIpv4Address,
    BadIpv6Endpoint,
    BadEndpoint,
    InvalidNumber(Seq<char>),
}

impl View for WireGuardError {
    type V = ErrorView;

    open spec fn view(&self) -> ErrorView {
        match self {
            WireGuardError::MissingInterface => ErrorView::MissingInterface,
            WireGuardError::UnsupportedPeerCount => ErrorView::UnsupportedPeerCount,
            WireGuardError::MissingPeer => ErrorView::MissingPeer,
            WireGuardError::MissingField(k) => ErrorView::MissingField(k@),
            WireGuardError::NoIpv4Address => ErrorView::NoIpv4Address,
            WireGuardError::BadIpv6Endpoint => ErrorView::BadIpv6Endpoint,
            WireGuardError::BadEndpoint => ErrorView::BadEndpoint,
            WireGuardError::InvalidNumber(f) => ErrorView::InvalidNumber(f@),
        }
    }
}

/// The view of a result whose success value is a `String`.
pub open spec fn string_result_view(r: Result<String, WireGuardError>) -> Result<
    Seq<char>,
    ErrorView,
> {
    match r {
        Ok(s) => Ok(s@),
        Err(e) => Err(e@),
    }
}

/// The view of a result whose success value is a number.
pub open spec fn number_result_view(r: Result<u16, WireGuardError>) -> Result<u16, ErrorView> {
    match r {
        Ok(n) => Ok(n),
        Err(e) => Err(e@),
    }
}

/// The text shown for an error.
pub open spec fn error_message(e: ErrorView) -> Seq<char> {
    match e {
        ErrorView::MissingInterface => "Missing [Interface] section"@,
        ErrorView::UnsupportedPeerCount =>
            "Only WireGuard configs with exactly one [Peer] section are supported"@,
        ErrorView::MissingPeer => "Missing [Peer] section"@,
        ErrorView::MissingField(k) => "Missing required WireGuard field `"@ + k + "`"@,
        ErrorView::NoIpv4Address => "Address must contain an IPv4 address"@,
        ErrorView::BadIpv6Endpoint => "Endpoint IPv6 address must use [addr]:port format"@,
        ErrorView::BadEndpoint => "Endpoint must be in host:port format"@,
        ErrorView::InvalidNumber(f) => f + " must be a number between 0 and 65535"@,
    }
}

impl WireGuardError {
    /// The human-readable message for this error.
    pub fn message(&self) -> (r: String)
        ensures
            r@ == error_message(self@),
    {
        match self {
            WireGuardError::MissingInterface => "Missing [Interface] section".to_owned(),
            WireGuardError::UnsupportedPeerCount =>
                "Only WireGuard configs with exactly one [Peer] section are supported".to_owned(),
            WireGuardError::MissingPeer => "Missing [Peer] section".to_owned(),
            WireGuardError::MissingField(k) => {
                let mut m = "Missing required WireGuard field `".to_owned();
                m.append(k.as_str());
                m.append("`");
                m
            },
            WireGuardError::NoIpv4Address => "Address must contain an IPv4 address".to_owned(),
            WireGuardError::BadIpv6Endpoint =>
                "Endpoint IPv6 address must use [addr]:port format".to_owned(),
            WireGuardError::BadEndpoint => "Endpoint must be in host:port format".to_owned(),
            WireGuardError::InvalidNumber(f) => {
                let mut m = f.clone();
                m.append(" must be a number between 0 and 65535");
                m
            },
        }
    }
}

} // verus!
