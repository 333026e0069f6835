//! Endpoint descriptors: the immutable, definition-time record of one API
//! operation's transport shape, and the authentication strategy attached to
//! it.

use vstd::prelude::*;

verus! {

/// The HTTP method of an endpoint.
#[derive(Clone, Copy, PartialEq, Eq, Structural, Debug)]
pub enum Method {
    Get,
    Post,
    Put,
    Delete,
}

/// How callers of an endpoint authenticate.
#[derive(Clone, Copy, PartialEq, Eq, Structural, Debug)]
pub enum AuthKind {
    /// No credential processing.
    NoAuth,
    /// A bearer-style access token, in a header or a query parameter.
    AccessToken,
    /// A detached request signature, verified by an outside collaborator.
    ServerSignature,
}

/// One segment of a path template: literal text, or a named placeholder.
pub enum PathSegment {
    Lit(Vec<u8>),
    Param(Vec<u8>),
}

/// Static metadata for one endpoint, built once at registration time.
pub struct EndpointDescriptor {
    pub method: Method,
    /// The path template: literal segments interleaved with placeholders.
    pub path: Vec<PathSegment>,
    pub auth: AuthKind,
    /// With `AuthKind::AccessToken`: carry the token in the query string
    /// instead of a header.  Fixed per descriptor, never per call.
    pub token_in_query: bool,
    pub rate_limited: bool,
    /// Stable machine name.
    pub name: Vec<u8>,
    /// Human description.
    pub description: Vec<u8>,
}

/// The per-call credential material matching a descriptor's `AuthKind`.
pub enum AuthStrategy {
    NoAuth,
    AccessToken { token: Vec<u8> },
    ServerSignature { signature: Vec<u8> },
}

/// The strategy carries the credential shape that the descriptor asks for.
pub open spec fn strategy_matches(s: AuthStrategy, k: AuthKind) -> bool {
    match s {
        AuthStrategy::NoAuth => k is NoAuth,
        AuthStrategy::AccessToken { .. } => k is AccessToken,
        AuthStrategy::ServerSignature { .. } => k is ServerSignature,
    }
}

/// The header that carries credentials: `authorization`.
pub open spec fn auth_header_name() -> Seq<u8> {
    seq![0x61, 0x75, 0x74, 0x68, 0x6f, 0x72, 0x69, 0x7a, 0x61, 0x74, 0x69, 0x6f, 0x6e]
}

/// The query parameter that carries an access token: `access_token`.
pub open spec fn token_param_name() -> Seq<u8> {
    seq![0x61, 0x63, 0x63, 0x65, 0x73, 0x73, 0x5f, 0x74, 0x6f, 0x6b, 0x65, 0x6e]
}

/// The bearer-credential marker ahead of a token: `Bearer `.
pub open spec fn bearer_prefix() -> Seq<u8> {
    seq![0x42, 0x65, 0x61, 0x72, 0x65, 0x72, 0x20]
}

/// The `authorization` header name as a byte vector.
pub fn auth_header_name_exec() -> (r: Vec<u8>)
    ensures
        r@ == auth_header_name(),
{
    let mut v: Vec<u8> = Vec::new();
    v.push(0x61);
    v.push(0x75);
    v.push(0x74);
    v.push(0x68);
    v.push(0x6f);
    v.push(0x72);
    v.push(0x69);
    v.push(0x7a);
    v.push(0x61);
    v.push(0x74);
    v.push(0x69);
    v.push(0x6f);
    v.push(0x6e);
    proof {
        assert(v@ =~= auth_header_name());
    }
    v
}

/// The `access_token` query parameter name as a byte vector.
pub fn token_param_name_exec() -> (r: Vec<u8>)
    ensures
        r@ == token_param_name(),
{
    let mut v: Vec<u8> = Vec::new();
    v.push(0x61);
    v.push(0x63);
    v.push(0x63);
    v.push(0x65);
    v.push(0x73);
    v.push(0x73);
    v.push(0x5f);
    v.push(0x74);
    v.push(0x6f);
    v.push(0x6b);
    v.push(0x65);
    v.push(0x6e);
    proof {
        assert(v@ =~= token_param_name());
    }
    v
}

/// The `Bearer ` prefix as a byte vector.
pub fn bearer_prefix_exec() -> (r: Vec<u8>)
    ensures
        r@ == bearer_prefix(),
{
    let mut v: Vec<u8> = Vec::new();
    v.push(0x42);
    v.push(0x65);
    v.push(0x61);
    v.push(0x72);
    v.push(0x65);
    v.push(0x72);
    v.push(0x20);
    proof {
        assert(v@ =~= bearer_prefix());
    }
    v
}

} // verus!
