//! The request and response marshallers: bidirectional transforms between
//! typed field values and concrete HTTP messages, driven by an endpoint
//! descriptor and its resolved placements.
//!
//! Field values are byte strings, one per resolved field, in declaration
//! order.  A whole-payload body field's value is the body verbatim; every
//! other value is the field's canonical text.

use vstd::prelude::*;
use crate::descriptor::{EndpointDescriptor, Method, AuthStrategy, AuthKind, strategy_matches};
use crate::descriptor::{auth_header_name, token_param_name, bearer_prefix};
use crate::descriptor::{auth_header_name_exec, token_param_name_exec, bearer_prefix_exec};
use crate::descriptor::PathSegment;
use crate::placement::{ResolvedField, Placement, request_fields_ok, response_fields_ok};
use crate::ident::{ValidationError, spec_validate, validate_bytes, bytes_eq};
use crate::wire::{
    encode_bytes,
    decode_bytes,
    render_path,
    parse_path,
    render_pairs,
    parse_pairs,
    bytes_view,
    pairs_view,
    percent_encode,
    copy_range,
    push_all,
    render_pairs_exec,
    render_path_exec,
    parse_pairs_exec,
    parse_path_exec,
};

verus! {

/// A concrete outgoing or incoming HTTP request message.
pub struct HttpRequest {
    pub method: Method,
    /// The rendered path: `/`-separated, placeholders percent-encoded.
    pub path: Vec<u8>,
    /// The rendered query string: `name=value` pairs, `&`-joined.
    pub query: Vec<u8>,
    /// Header name/value pairs; names travel in lower case.
    pub headers: Vec<(Vec<u8>, Vec<u8>)>,
    pub body: Vec<u8>,
}

/// A concrete outgoing or incoming HTTP response message.
pub struct HttpResponse {
    pub status: u16,
    pub headers: Vec<(Vec<u8>, Vec<u8>)>,
    pub body: Vec<u8>,
}

/// A request reconstructed by the inbound marshaller.
pub struct ParsedRequest {
    /// One value per resolved field, in declaration order.
    pub values: Vec<Vec<u8>>,
    /// The extracted credential, when the descriptor requires one.
    pub credential: Option<Vec<u8>>,
}

/// Why an outbound message could not be constructed.
#[derive(PartialEq, Eq, Debug)]
pub enum BuildError {
    /// A header-placed value holds bytes that cannot travel in a header.
    InvalidHeaderValue { field: Vec<u8> },
    /// A header-carried credential holds such bytes.
    InvalidCredential,
}

/// Why an inbound message was rejected.
#[derive(PartialEq, Eq, Debug)]
pub enum ParseError {
    MethodNotAllowed,
    MalformedPath,
    MissingField { field: Vec<u8> },
    FieldParseError { field: Vec<u8>, cause: ValidationError },
    Unauthorized,
    TransportStatus { code: u16, payload: Vec<u8> },
}

/// The same rejection, over byte strings; what the contracts speak of.
pub enum ParseErrView {
    MethodNotAllowed,
    MalformedPath,
    MissingField { field: Seq<u8> },
    FieldParseError { field: Seq<u8>, cause: ValidationError },
    Unauthorized,
    TransportStatus { code: u16, payload: Seq<u8> },
}

/// The view of a concrete rejection.
pub open spec fn err_view(e: ParseError) -> ParseErrView {
    match e {
        ParseError::MethodNotAllowed => ParseErrView::MethodNotAllowed,
        ParseError::MalformedPath => ParseErrView::MalformedPath,
        ParseError::MissingField { field } => ParseErrView::MissingField { field: field@ },
        ParseError::FieldParseError { field, cause } => ParseErrView::FieldParseError {
            field: field@,
            cause,
        },
        ParseError::Unauthorized => ParseErrView::Unauthorized,
        ParseError::TransportStatus { code, payload } => ParseErrView::TransportStatus {
            code,
            payload: payload@,
        },
    }
}

/// A byte that may travel in a header value: visible ASCII or space.
pub open spec fn header_value_byte(b: u8) -> bool {
    0x20 <= b && b <= 0x7e
}

/// A value fit for a header.
pub open spec fn valid_header_value(v: Seq<u8>) -> bool {
    forall|i: int| 0 <= i < v.len() ==> header_value_byte(v[i])
}

/// A byte lowered to its ASCII lower-case form.
pub open spec fn lower_byte(b: u8) -> u8 {
    if 0x41 <= b && b <= 0x5a {
        (b + 0x20) as u8
    } else {
        b
    }
}

/// A byte string lowered byte by byte.
pub open spec fn lower_seq(s: Seq<u8>) -> Seq<u8> {
    s.map_values(|b: u8| lower_byte(b))
}

/// Index of the first field with this name, or the field count.
pub open spec fn field_index(fields: Seq<ResolvedField>, name: Seq<u8>) -> nat
    decreases fields.len(),
{
    if fields.len() == 0 {
        0
    } else if fields[0].name@ == name {
        0
    } else {
        1 + field_index(fields.skip(1), name)
    }
}

/// Index of the first placeholder with this name, or the template length.
pub open spec fn param_index(template: Seq<PathSegment>, name: Seq<u8>) -> nat
    decreases template.len(),
{
    if template.len() == 0 {
        0
    } else if template[0] is Param && template[0]->Param_0@ == name {
        0
    } else {
        1 + param_index(template.skip(1), name)
    }
}

/// Index of the first whole-payload body field, or the field count.
pub open spec fn raw_index(fields: Seq<ResolvedField>) -> nat
    decreases fields.len(),
{
    if fields.len() == 0 {
        0
    } else if fields[0].placement is RawBody {
        0
    } else {
        1 + raw_index(fields.skip(1))
    }
}

/// The value of the first pair with this name.
pub open spec fn pairs_lookup(ps: Seq<(Seq<u8>, Seq<u8>)>, name: Seq<u8>) -> Option<Seq<u8>>
    decreases ps.len(),
{
    if ps.len() == 0 {
        None
    } else if ps[0].0 == name {
        Some(ps[0].1)
    } else {
        pairs_lookup(ps.skip(1), name)
    }
}

/// The value of the first header whose lowered name matches.
pub open spec fn header_lookup(hs: Seq<(Seq<u8>, Seq<u8>)>, name: Seq<u8>) -> Option<Seq<u8>>
    decreases hs.len(),
{
    if hs.len() == 0 {
        None
    } else if lower_seq(hs[0].0) == name {
        Some(hs[0].1)
    } else {
        header_lookup(hs.skip(1), name)
    }
}

/// The name/value pairs of the fields with one placement, in declaration
/// order.
pub open spec fn placed_pairs(
    fields: Seq<ResolvedField>,
    vals: Seq<Seq<u8>>,
    p: Placement,
) -> Seq<(Seq<u8>, Seq<u8>)>
    decreases fields.len(),
{
    if fields.len() == 0 {
        Seq::empty()
    } else {
        (if fields[0].placement == p {
            seq![(fields[0].name@, vals[0])]
        } else {
            Seq::empty()
        }) + placed_pairs(fields.skip(1), vals.skip(1), p)
    }
}

/// The rendered path segments: literals verbatim, placeholders replaced by
/// the percent-encoded value of the field that claims them.
pub open spec fn spec_path_segs(
    template: Seq<PathSegment>,
    fields: Seq<ResolvedField>,
    vals: Seq<Seq<u8>>,
) -> Seq<Seq<u8>> {
    template.map_values(
        |seg: PathSegment| match seg {
            PathSegment::Lit(l) => l@,
            PathSegment::Param(n) => encode_bytes(vals[field_index(fields, n@) as int]),
        },
    )
}

/// The query pairs: query fields in order, then the access token when the
/// descriptor carries it in the query.
pub open spec fn spec_query_pairs(
    desc: EndpointDescriptor,
    fields: Seq<ResolvedField>,
    vals: Seq<Seq<u8>>,
    auth: AuthStrategy,
) -> Seq<(Seq<u8>, Seq<u8>)> {
    placed_pairs(fields, vals, Placement::Query) + (match auth {
        AuthStrategy::AccessToken { token } if desc.token_in_query => seq![
            (token_param_name(), token@),
        ],
        _ => Seq::empty(),
    })
}

/// The header pairs: header fields in order, then the credential header.
pub open spec fn spec_header_pairs(
    desc: EndpointDescriptor,
    fields: Seq<ResolvedField>,
    vals: Seq<Seq<u8>>,
    auth: AuthStrategy,
) -> Seq<(Seq<u8>, Seq<u8>)> {
    placed_pairs(fields, vals, Placement::Header) + (match auth {
        AuthStrategy::AccessToken { token } if !desc.token_in_query => seq![
            (auth_header_name(), bearer_prefix() + token@),
        ],
        AuthStrategy::ServerSignature { signature } => seq![(auth_header_name(), signature@)],
        _ => Seq::empty(),
    })
}

/// The body: the whole-payload field verbatim, or the rendered structured
/// pairs of the body fields.
pub open spec fn spec_body(fields: Seq<ResolvedField>, vals: Seq<Seq<u8>>) -> Seq<u8> {
    if raw_index(fields) < fields.len() {
        vals[raw_index(fields) as int]
    } else {
        render_pairs(placed_pairs(fields, vals, Placement::Body))
    }
}

/// Index of the first header-placed field whose value cannot travel in a
/// header, or the field count.
pub open spec fn first_bad_header(fields: Seq<ResolvedField>, vals: Seq<Seq<u8>>) -> nat
    decreases fields.len(),
{
    if fields.len() == 0 {
        0
    } else if fields[0].placement is Header && !valid_header_value(vals[0]) {
        0
    } else {
        1 + first_bad_header(fields.skip(1), vals.skip(1))
    }
}

/// Whether the credential material can travel where the descriptor puts it.
pub open spec fn credential_ok(desc: EndpointDescriptor, auth: AuthStrategy) -> bool {
    match auth {
        AuthStrategy::NoAuth => true,
        AuthStrategy::AccessToken { token } => desc.token_in_query || valid_header_value(token@),
        AuthStrategy::ServerSignature { signature } => valid_header_value(signature@),
    }
}


/// A first-index recursion is pinned by a witness position.
proof fn lemma_field_index_at(fields: Seq<ResolvedField>, name: Seq<u8>, p: int)
    requires
        0 <= p <= fields.len(),
        p < fields.len() ==> fields[p].name@ == name,
        forall|j: int| 0 <= j < p ==> fields[j].name@ != name,
    ensures
        field_index(fields, name) == p,
    decreases p,
{
    if p > 0 {
        assert forall|j: int| 0 <= j < p - 1 implies fields.skip(1)[j].name@ != name by {
            assert(fields.skip(1)[j] == fields[j + 1]);
        }
        lemma_field_index_at(fields.skip(1), name, p - 1);
    }
}

proof fn lemma_param_index_at(template: Seq<PathSegment>, name: Seq<u8>, p: int)
    requires
        0 <= p <= template.len(),
        p < template.len() ==> template[p] is Param && template[p]->Param_0@ == name,
        forall|j: int| 0 <= j < p ==> !(template[j] is Param && template[j]->Param_0@ == name),
    ensures
        param_index(template, name) == p,
    decreases p,
{
    if p > 0 {
        assert forall|j: int|
            0 <= j < p - 1 implies !(template.skip(1)[j] is Param && template.skip(1)[j]->Param_0@
            == name) by {
            assert(template.skip(1)[j] == template[j + 1]);
        }
        lemma_param_index_at(template.skip(1), name, p - 1);
    }
}

proof fn lemma_raw_index_le(fields: Seq<ResolvedField>)
    ensures
        raw_index(fields) <= fields.len(),
    decreases fields.len(),
{
    if fields.len() > 0 && !(fields[0].placement is RawBody) {
        lemma_raw_index_le(fields.skip(1));
    }
}

proof fn lemma_raw_index_at(fields: Seq<ResolvedField>, p: int)
    requires
        0 <= p <= fields.len(),
        p < fields.len() ==> fields[p].placement is RawBody,
        forall|j: int| 0 <= j < p ==> !((#[trigger] fields[j].placement) is RawBody),
    ensures
        raw_index(fields) == p,
    decreases p,
{
    if p > 0 {
        assert forall|j: int|
            0 <= j < p - 1 implies !((#[trigger] fields.skip(1)[j].placement) is RawBody) by {
            assert(fields.skip(1)[j] == fields[j + 1]);
        }
        lemma_raw_index_at(fields.skip(1), p - 1);
    }
}

proof fn lemma_first_bad_header_at(fields: Seq<ResolvedField>, values: Seq<Seq<u8>>, p: int)
    requires
        fields.len() == values.len(),
        0 <= p <= fields.len(),
        p < fields.len() ==> fields[p].placement is Header && !valid_header_value(values[p]),
        forall|j: int|
            0 <= j < p ==> !((#[trigger] fields[j].placement) is Header && !valid_header_value(
                values[j],
            )),
    ensures
        first_bad_header(fields, values) == p,
    decreases p,
{
    if p > 0 {
        assert forall|j: int|
            0 <= j < p - 1 implies !((#[trigger] fields.skip(1)[j].placement) is Header
            && !valid_header_value(values.skip(1)[j])) by {
            assert(fields.skip(1)[j] == fields[j + 1]);
            assert(values.skip(1)[j] == values[j + 1]);
        }
        lemma_first_bad_header_at(fields.skip(1), values.skip(1), p - 1);
    }
}

/// Placed pairs distribute over concatenation of the field and value lists.
proof fn lemma_placed_pairs_app(
    f1: Seq<ResolvedField>,
    v1: Seq<Seq<u8>>,
    f2: Seq<ResolvedField>,
    v2: Seq<Seq<u8>>,
    p: Placement,
)
    requires
        f1.len() == v1.len(),
    ensures
        placed_pairs(f1 + f2, v1 + v2, p) == placed_pairs(f1, v1, p) + placed_pairs(f2, v2, p),
    decreases f1.len(),
{
    if f1.len() == 0 {
        assert(f1 + f2 =~= f2);
        assert(v1 + v2 =~= v2);
        assert(placed_pairs(f1, v1, p) + placed_pairs(f2, v2, p) =~= placed_pairs(f2, v2, p));
    } else {
        lemma_placed_pairs_app(f1.skip(1), v1.skip(1), f2, v2, p);
        assert((f1 + f2).skip(1) =~= f1.skip(1) + f2);
        assert((v1 + v2).skip(1) =~= v1.skip(1) + v2);
        assert((f1 + f2)[0] == f1[0] && (v1 + v2)[0] == v1[0]);
        let h = if f1[0].placement == p {
            seq![(f1[0].name@, v1[0])]
        } else {
            Seq::<(Seq<u8>, Seq<u8>)>::empty()
        };
        assert(h + (placed_pairs(f1.skip(1), v1.skip(1), p) + placed_pairs(f2, v2, p)) =~= (h
            + placed_pairs(f1.skip(1), v1.skip(1), p)) + placed_pairs(f2, v2, p));
    }
}

/// One more field appended to a placed-pairs prefix.
proof fn lemma_placed_pairs_snoc(
    fields: Seq<ResolvedField>,
    values: Seq<Seq<u8>>,
    p: Placement,
    i: int,
)
    requires
        fields.len() == values.len(),
        0 <= i < fields.len(),
    ensures
        placed_pairs(fields.take(i + 1), values.take(i + 1), p) == placed_pairs(
            fields.take(i),
            values.take(i),
            p,
        ) + (if fields[i].placement == p {
            seq![(fields[i].name@, values[i])]
        } else {
            Seq::<(Seq<u8>, Seq<u8>)>::empty()
        }),
{
    lemma_placed_pairs_app(fields.take(i), values.take(i), seq![fields[i]], seq![values[i]], p);
    assert(fields.take(i) + seq![fields[i]] =~= fields.take(i + 1));
    assert(values.take(i) + seq![values[i]] =~= values.take(i + 1));
    let h = if fields[i].placement == p {
        seq![(fields[i].name@, values[i])]
    } else {
        Seq::<(Seq<u8>, Seq<u8>)>::empty()
    };
    assert(seq![fields[i]].skip(1) =~= Seq::<ResolvedField>::empty());
    assert(seq![values[i]].skip(1) =~= Seq::<Seq<u8>>::empty());
    assert(placed_pairs(Seq::<ResolvedField>::empty(), Seq::<Seq<u8>>::empty(), p)
        =~= Seq::<(Seq<u8>, Seq<u8>)>::empty());
    assert(placed_pairs(seq![fields[i]], seq![values[i]], p) =~= h + Seq::<(
        Seq<u8>,
        Seq<u8>,
    )>::empty());
    assert(placed_pairs(seq![fields[i]], seq![values[i]], p) =~= h);
    assert(h + Seq::<(Seq<u8>, Seq<u8>)>::empty() =~= h);
}

/// Copy a byte slice into a fresh vector.
pub fn copy_bytes(s: &[u8]) -> (r: Vec<u8>)
    ensures
        r@ == s@,
{
    let r = copy_range(s, 0, s.len());
    proof {
        assert(s@.subrange(0, s@.len() as int) =~= s@);
    }
    r
}

/// Whether a value is fit for a header.
fn valid_header_value_exec(v: &[u8]) -> (r: bool)
    ensures
        r == valid_header_value(v@),
{
    let mut i: usize = 0;
    while i < v.len()
        invariant
            0 <= i <= v@.len(),
            forall|j: int| 0 <= j < i ==> header_value_byte(v@[j]),
        decreases v@.len() - i,
    {
        let b = v[i];
        if !(0x20 <= b && b <= 0x7e) {
            return false;
        }
        i = i + 1;
    }
    true
}

/// Index of the first field with this name, or the field count.
#[verifier::loop_isolation(false)]
fn find_field(fields: &Vec<ResolvedField>, name: &[u8]) -> (r: usize)
    ensures
        r == field_index(fields@, name@),
        r <= fields@.len(),
        r < fields@.len() ==> fields@[r as int].name@ == name@,
        r == fields@.len() ==> forall|j: int|
            0 <= j < fields@.len() ==> (#[trigger] fields@[j].name@) != name@,
{
    let mut i: usize = 0;
    while i < fields.len()
        invariant
            0 <= i <= fields@.len(),
            forall|j: int| 0 <= j < i ==> (#[trigger] fields@[j].name@) != name@,
        decreases fields@.len() - i,
    {
        if bytes_eq(fields[i].name.as_slice(), name) {
            proof {
                lemma_field_index_at(fields@, name@, i as int);
            }
            return i;
        }
        i = i + 1;
    }
    proof {
        lemma_field_index_at(fields@, name@, fields@.len() as int);
    }
    fields.len()
}

/// Build the outgoing message for a typed request.
///
/// Given a descriptor, its resolved placements, matching credential
/// material, and one value per field, produce the concrete message: the
/// descriptor's method; the rendered path with each placeholder replaced by
/// the percent-encoded value of its field; the query string from the Query
/// fields in declaration order, with the access token appended when the
/// descriptor carries it there; one header per Header field plus the
/// credential header; and the body, either the whole-payload field verbatim
/// or the rendered pairs of the Body fields.  Fails exactly when a
/// header-placed value, or a header-carried credential, holds bytes that
/// cannot travel in a header.
#[verifier::loop_isolation(false)]
#[verifier::rlimit(80)]
pub fn serialize_request(
    desc: &EndpointDescriptor,
    fields: &Vec<ResolvedField>,
    values: &Vec<Vec<u8>>,
    auth: &AuthStrategy,
) -> (r: Result<HttpRequest, BuildError>)
    requires
        fields@.len() == values@.len(),
        request_fields_ok(*desc, fields@),
        strategy_matches(*auth, desc.auth),
    ensures
        match r {
            Ok(m) => first_bad_header(fields@, bytes_view(values@)) == fields@.len() && credential_ok(
                *desc,
                *auth,
            ) && m.method == desc.method && m.path@ == render_path(
                spec_path_segs(desc.path@, fields@, bytes_view(values@)),
            ) && m.query@ == render_pairs(spec_query_pairs(*desc, fields@, bytes_view(values@), *auth))
                && pairs_view(m.headers@) == spec_header_pairs(*desc, fields@, bytes_view(values@), *auth)
                && m.body@ == spec_body(fields@, bytes_view(values@)),
            Err(BuildError::InvalidHeaderValue { field }) => first_bad_header(fields@, bytes_view(values@))
                < fields@.len() && field@ == fields@[first_bad_header(fields@, bytes_view(values@)) as int].name@,
            Err(BuildError::InvalidCredential) => first_bad_header(fields@, bytes_view(values@))
                == fields@.len() && !credential_ok(*desc, *auth),
        },
{
    // Header-placed values must be able to travel in a header.
    let mut i: usize = 0;
    while i < fields.len()
        invariant
            0 <= i <= fields@.len(),
            forall|j: int|
                0 <= j < i ==> !((#[trigger] fields@[j].placement) is Header
                    && !valid_header_value(bytes_view(values@)[j])),
        decreases fields@.len() - i,
    {
        if matches!(fields[i].placement, Placement::Header) && !valid_header_value_exec(
            values[i].as_slice(),
        ) {
            proof {
                lemma_first_bad_header_at(fields@, bytes_view(values@), i as int);
            }
            let nm = copy_bytes(fields[i].name.as_slice());
            return Err(BuildError::InvalidHeaderValue { field: nm });
        }
        i = i + 1;
    }
    proof {
        lemma_first_bad_header_at(fields@, bytes_view(values@), fields@.len() as int);
    }
    // So must a header-carried credential.
    match auth {
        AuthStrategy::AccessToken { token } => {
            if !desc.token_in_query && !valid_header_value_exec(token.as_slice()) {
                return Err(BuildError::InvalidCredential);
            }
        },
        AuthStrategy::ServerSignature { signature } => {
            if !valid_header_value_exec(signature.as_slice()) {
                return Err(BuildError::InvalidCredential);
            }
        },
        AuthStrategy::NoAuth => {},
    }
    // The path: literals verbatim, placeholders percent-encoded.
    let mut segs: Vec<Vec<u8>> = Vec::new();
    let mut k: usize = 0;
    while k < desc.path.len()
        invariant
            0 <= k <= desc.path@.len(),
            segs@.len() == k,
            forall|k2: int|
                0 <= k2 < k ==> (#[trigger] segs@[k2])@ == spec_path_segs(
                    desc.path@,
                    fields@,
                    bytes_view(values@),
                )[k2],
        decreases desc.path@.len() - k,
    {
        match &desc.path[k] {
            PathSegment::Lit(l) => {
                segs.push(copy_bytes(l.as_slice()));
            },
            PathSegment::Param(n) => {
                let idx = find_field(fields, n.as_slice());
                proof {
                    assert(desc.path@[k as int] is Param);
                    assert(exists|i2: int|
                        0 <= i2 < fields@.len() && (#[trigger] fields@[i2].placement) is Path
                            && fields@[i2].name@ == n@);
                    let w = choose|i2: int|
                        0 <= i2 < fields@.len() && (#[trigger] fields@[i2].placement) is Path
                            && fields@[i2].name@ == n@;
                    if idx as int == fields@.len() as int {
                        assert(fields@[w].name@ != n@);
                    }
                }
                segs.push(percent_encode(values[idx].as_slice()));
            },
        }
        k = k + 1;
    }
    proof {
        assert(bytes_view(segs@) =~= spec_path_segs(desc.path@, fields@, bytes_view(values@)));
    }
    let path = render_path_exec(&segs);
    // The query: Query fields in order, then the token when it rides there.
    let mut qp: Vec<(Vec<u8>, Vec<u8>)> = Vec::new();
    let mut i2: usize = 0;
    while i2 < fields.len()
        invariant
            0 <= i2 <= fields@.len(),
            pairs_view(qp@) == placed_pairs(
                fields@.take(i2 as int),
                bytes_view(values@).take(i2 as int),
                Placement::Query,
            ),
        decreases fields@.len() - i2,
    {
        proof {
            lemma_placed_pairs_snoc(fields@, bytes_view(values@), Placement::Query, i2 as int);
        }
        if matches!(fields[i2].placement, Placement::Query) {
            qp.push((copy_bytes(fields[i2].name.as_slice()), copy_bytes(values[i2].as_slice())));
        }
        proof {
            assert(pairs_view(qp@) =~= placed_pairs(
                fields@.take(i2 + 1),
                bytes_view(values@).take(i2 + 1),
                Placement::Query,
            ));
        }
        i2 = i2 + 1;
    }
    proof {
        assert(fields@.take(fields@.len() as int) =~= fields@);
        assert(bytes_view(values@).take(values@.len() as int) =~= bytes_view(values@));
    }
    match auth {
        AuthStrategy::AccessToken { token } => {
            if desc.token_in_query {
                qp.push((token_param_name_exec(), copy_bytes(token.as_slice())));
            }
        },
        _ => {},
    }
    proof {
        assert(pairs_view(qp@) =~= spec_query_pairs(*desc, fields@, bytes_view(values@), *auth));
    }
    let query = render_pairs_exec(&qp);
    // The headers: Header fields in order, then the credential header.
    let mut hp: Vec<(Vec<u8>, Vec<u8>)> = Vec::new();
    let mut i3: usize = 0;
    while i3 < fields.len()
        invariant
            0 <= i3 <= fields@.len(),
            pairs_view(hp@) == placed_pairs(
                fields@.take(i3 as int),
                bytes_view(values@).take(i3 as int),
                Placement::Header,
            ),
        decreases fields@.len() - i3,
    {
        proof {
            lemma_placed_pairs_snoc(fields@, bytes_view(values@), Placement::Header, i3 as int);
        }
        if matches!(fields[i3].placement, Placement::Header) {
            hp.push((copy_bytes(fields[i3].name.as_slice()), copy_bytes(values[i3].as_slice())));
        }
        proof {
            assert(pairs_view(hp@) =~= placed_pairs(
                fields@.take(i3 + 1),
                bytes_view(values@).take(i3 + 1),
                Placement::Header,
            ));
        }
        i3 = i3 + 1;
    }
    match auth {
        AuthStrategy::AccessToken { token } => {
            if !desc.token_in_query {
                let mut hv = bearer_prefix_exec();
                push_all(&mut hv, token.as_slice());
                hp.push((auth_header_name_exec(), hv));
            }
        },
        AuthStrategy::ServerSignature { signature } => {
            hp.push((auth_header_name_exec(), copy_bytes(signature.as_slice())));
        },
        AuthStrategy::NoAuth => {},
    }
    proof {
        assert(pairs_view(hp@) =~= spec_header_pairs(*desc, fields@, bytes_view(values@), *auth));
    }
    // The body: whole-payload field verbatim, or the rendered body pairs.
    let mut ridx: usize = 0;
    while ridx < fields.len() && !matches!(fields[ridx].placement, Placement::RawBody)
        invariant
            0 <= ridx <= fields@.len(),
            forall|j: int| 0 <= j < ridx ==> !((#[trigger] fields@[j].placement) is RawBody),
        decreases fields@.len() - ridx,
    {
        ridx = ridx + 1;
    }
    proof {
        lemma_raw_index_at(fields@, ridx as int);
    }
    let body = if ridx < fields.len() {
        copy_bytes(values[ridx].as_slice())
    } else {
        let mut bp: Vec<(Vec<u8>, Vec<u8>)> = Vec::new();
        let mut i4: usize = 0;
        while i4 < fields.len()
            invariant
                0 <= i4 <= fields@.len(),
                pairs_view(bp@) == placed_pairs(
                    fields@.take(i4 as int),
                    bytes_view(values@).take(i4 as int),
                    Placement::Body,
                ),
            decreases fields@.len() - i4,
        {
            proof {
                lemma_placed_pairs_snoc(fields@, bytes_view(values@), Placement::Body, i4 as int);
            }
            if matches!(fields[i4].placement, Placement::Body) {
                bp.push(
                    (copy_bytes(fields[i4].name.as_slice()), copy_bytes(values[i4].as_slice())),
                );
            }
            proof {
                assert(pairs_view(bp@) =~= placed_pairs(
                    fields@.take(i4 + 1),
                    bytes_view(values@).take(i4 + 1),
                    Placement::Body,
                ));
            }
            i4 = i4 + 1;
        }
        render_pairs_exec(&bp)
    };
    Ok(HttpRequest { method: desc.method, path, query, headers: hp, body })
}

/// Build the outgoing message for a typed response: one header per Header
/// field plus the body, under a success status.  Fails exactly when a
/// header-placed value holds bytes that cannot travel in a header.
#[verifier::loop_isolation(false)]
pub fn serialize_response(fields: &Vec<ResolvedField>, values: &Vec<Vec<u8>>) -> (r: Result<
    HttpResponse,
    BuildError,
>)
    requires
        fields@.len() == values@.len(),
        response_fields_ok(fields@),
    ensures
        match r {
            Ok(m) => first_bad_header(fields@, bytes_view(values@)) == fields@.len() && m.status == 200
                && pairs_view(m.headers@) == placed_pairs(fields@, bytes_view(values@), Placement::Header)
                && m.body@ == spec_body(fields@, bytes_view(values@)),
            Err(BuildError::InvalidHeaderValue { field }) => first_bad_header(fields@, bytes_view(values@))
                < fields@.len() && field@ == fields@[first_bad_header(fields@, bytes_view(values@)) as int].name@,
            Err(BuildError::InvalidCredential) => false,
        },
{
    let mut i: usize = 0;
    while i < fields.len()
        invariant
            0 <= i <= fields@.len(),
            forall|j: int|
                0 <= j < i ==> !((#[trigger] fields@[j].placement) is Header
                    && !valid_header_value(bytes_view(values@)[j])),
        decreases fields@.len() - i,
    {
        if matches!(fields[i].placement, Placement::Header) && !valid_header_value_exec(
            values[i].as_slice(),
        ) {
            proof {
                lemma_first_bad_header_at(fields@, bytes_view(values@), i as int);
            }
            let nm = copy_bytes(fields[i].name.as_slice());
            return Err(BuildError::InvalidHeaderValue { field: nm });
        }
        i = i + 1;
    }
    proof {
        lemma_first_bad_header_at(fields@, bytes_view(values@), fields@.len() as int);
    }
    let mut hp: Vec<(Vec<u8>, Vec<u8>)> = Vec::new();
    let mut i3: usize = 0;
    while i3 < fields.len()
        invariant
            0 <= i3 <= fields@.len(),
            pairs_view(hp@) == placed_pairs(
                fields@.take(i3 as int),
                bytes_view(values@).take(i3 as int),
                Placement::Header,
            ),
        decreases fields@.len() - i3,
    {
        proof {
            lemma_placed_pairs_snoc(fields@, bytes_view(values@), Placement::Header, i3 as int);
        }
        if matches!(fields[i3].placement, Placement::Header) {
            hp.push((copy_bytes(fields[i3].name.as_slice()), copy_bytes(values[i3].as_slice())));
        }
        proof {
            assert(pairs_view(hp@) =~= placed_pairs(
                fields@.take(i3 + 1),
                bytes_view(values@).take(i3 + 1),
                Placement::Header,
            ));
        }
        i3 = i3 + 1;
    }
    proof {
        assert(fields@.take(fields@.len() as int) =~= fields@);
        assert(bytes_view(values@).take(values@.len() as int) =~= bytes_view(values@));
    }
    let mut ridx: usize = 0;
    while ridx < fields.len() && !matches!(fields[ridx].placement, Placement::RawBody)
        invariant
            0 <= ridx <= fields@.len(),
            forall|j: int| 0 <= j < ridx ==> !((#[trigger] fields@[j].placement) is RawBody),
        decreases fields@.len() - ridx,
    {
        ridx = ridx + 1;
    }
    proof {
        lemma_raw_index_at(fields@, ridx as int);
    }
    let body = if ridx < fields.len() {
        copy_bytes(values[ridx].as_slice())
    } else {
        let mut bp: Vec<(Vec<u8>, Vec<u8>)> = Vec::new();
        let mut i4: usize = 0;
        while i4 < fields.len()
            invariant
                0 <= i4 <= fields@.len(),
                pairs_view(bp@) == placed_pairs(
                    fields@.take(i4 as int),
                    bytes_view(values@).take(i4 as int),
                    Placement::Body,
                ),
            decreases fields@.len() - i4,
        {
            proof {
                lemma_placed_pairs_snoc(fields@, bytes_view(values@), Placement::Body, i4 as int);
            }
            if matches!(fields[i4].placement, Placement::Body) {
                bp.push(
                    (copy_bytes(fields[i4].name.as_slice()), copy_bytes(values[i4].as_slice())),
                );
            }
            proof {
                assert(pairs_view(bp@) =~= placed_pairs(
                    fields@.take(i4 + 1),
                    bytes_view(values@).take(i4 + 1),
                    Placement::Body,
                ));
            }
            i4 = i4 + 1;
        }
        render_pairs_exec(&bp)
    };
    Ok(HttpResponse { status: 200, headers: hp, body })
}

/// The pairs of a rendered pair list, or none on a malformed list.
pub open spec fn qpairs_of(s: Seq<u8>) -> Seq<(Seq<u8>, Seq<u8>)> {
    match parse_pairs(s) {
        Some(ps) => ps,
        None => Seq::empty(),
    }
}

/// Every literal template segment appears verbatim in the path.
pub open spec fn literals_match(template: Seq<PathSegment>, segs: Seq<Seq<u8>>) -> bool {
    forall|k: int|
        0 <= k < template.len() && (#[trigger] template[k]) is Lit ==> segs[k]
            == template[k]->Lit_0@
}

/// Every placeholder segment of the path decodes.
pub open spec fn placeholders_decode(template: Seq<PathSegment>, segs: Seq<Seq<u8>>) -> bool {
    forall|k: int|
        0 <= k < template.len() && (#[trigger] template[k]) is Param ==> decode_bytes(segs[k])
            is Some
}

/// The parsed text of one field's type: identifier fields must validate.
pub open spec fn check_kind(f: ResolvedField, v: Seq<u8>) -> Result<Seq<u8>, ParseErrView> {
    if f.kind is Identifier && !(spec_validate(v) is Ok) {
        Err(
            ParseErrView::FieldParseError {
                field: f.name@,
                cause: spec_validate(v)->Err_0,
            },
        )
    } else {
        Ok(v)
    }
}

/// Extraction of one field's value from the destructured message.
pub open spec fn extract_field(
    f: ResolvedField,
    template: Seq<PathSegment>,
    segs: Seq<Seq<u8>>,
    qpairs: Seq<(Seq<u8>, Seq<u8>)>,
    headers: Seq<(Seq<u8>, Seq<u8>)>,
    bpairs: Seq<(Seq<u8>, Seq<u8>)>,
    body: Seq<u8>,
) -> Result<Seq<u8>, ParseErrView> {
    match f.placement {
        Placement::Path => check_kind(
            f,
            decode_bytes(segs[param_index(template, f.name@) as int])->Some_0,
        ),
        Placement::Query => match pairs_lookup(qpairs, f.name@) {
            Option::None => Err(ParseErrView::MissingField { field: f.name@ }),
            Option::Some(v) => check_kind(f, v),
        },
        Placement::Header => match header_lookup(headers, f.name@) {
            Option::None => Err(ParseErrView::MissingField { field: f.name@ }),
            Option::Some(v) => check_kind(f, v),
        },
        Placement::Body => match pairs_lookup(bpairs, f.name@) {
            Option::None => Err(ParseErrView::MissingField { field: f.name@ }),
            Option::Some(v) => check_kind(f, v),
        },
        Placement::RawBody => check_kind(f, body),
    }
}

/// Extraction of every field's value, in declaration order; the first
/// failure aborts the whole parse.
pub open spec fn extract_fields(
    fields: Seq<ResolvedField>,
    template: Seq<PathSegment>,
    segs: Seq<Seq<u8>>,
    qpairs: Seq<(Seq<u8>, Seq<u8>)>,
    headers: Seq<(Seq<u8>, Seq<u8>)>,
    bpairs: Seq<(Seq<u8>, Seq<u8>)>,
    body: Seq<u8>,
) -> Result<Seq<Seq<u8>>, ParseErrView>
    decreases fields.len(),
{
    if fields.len() == 0 {
        Ok(Seq::empty())
    } else {
        match extract_field(fields[0], template, segs, qpairs, headers, bpairs, body) {
            Err(e) => Err(e),
            Ok(v) => match extract_fields(
                fields.skip(1),
                template,
                segs,
                qpairs,
                headers,
                bpairs,
                body,
            ) {
                Err(e) => Err(e),
                Ok(r) => Ok(seq![v] + r),
            },
        }
    }
}

/// Extraction of the credential the descriptor requires; absence, or a
/// malformed bearer marker, is `Unauthorized` and never a defaulted value.
pub open spec fn extract_credential(
    desc: EndpointDescriptor,
    qpairs: Seq<(Seq<u8>, Seq<u8>)>,
    headers: Seq<(Seq<u8>, Seq<u8>)>,
) -> Result<Option<Seq<u8>>, ParseErrView> {
    match desc.auth {
        AuthKind::NoAuth => Ok(Option::None),
        AuthKind::AccessToken => if desc.token_in_query {
            match pairs_lookup(qpairs, token_param_name()) {
                Option::None => Err(ParseErrView::Unauthorized),
                Option::Some(t) => Ok(Option::Some(t)),
            }
        } else {
            match header_lookup(headers, auth_header_name()) {
                Option::None => Err(ParseErrView::Unauthorized),
                Option::Some(v) => if v.len() >= 7 && v.take(7) == bearer_prefix() {
                    Ok(Option::Some(v.skip(7)))
                } else {
                    Err(ParseErrView::Unauthorized)
                },
            }
        },
        AuthKind::ServerSignature => match header_lookup(headers, auth_header_name()) {
            Option::None => Err(ParseErrView::Unauthorized),
            Option::Some(v) => Ok(Option::Some(v)),
        },
    }
}

/// The whole inbound request parse, as a function of the message alone.
pub open spec fn spec_parse_request(
    desc: EndpointDescriptor,
    fields: Seq<ResolvedField>,
    method: Method,
    path: Seq<u8>,
    query: Seq<u8>,
    headers: Seq<(Seq<u8>, Seq<u8>)>,
    body: Seq<u8>,
) -> Result<(Seq<Seq<u8>>, Option<Seq<u8>>), ParseErrView> {
    if method != desc.method {
        Err(ParseErrView::MethodNotAllowed)
    } else {
        match parse_path(path) {
            Option::None => Err(ParseErrView::MalformedPath),
            Option::Some(segs) => if segs.len() != desc.path@.len() || !literals_match(
                desc.path@,
                segs,
            ) || !placeholders_decode(desc.path@, segs) {
                Err(ParseErrView::MalformedPath)
            } else {
                match extract_fields(
                    fields,
                    desc.path@,
                    segs,
                    qpairs_of(query),
                    headers,
                    qpairs_of(body),
                    body,
                ) {
                    Err(e) => Err(e),
                    Ok(vs) => match extract_credential(desc, qpairs_of(query), headers) {
                        Err(e) => Err(e),
                        Ok(c) => Ok((vs, c)),
                    },
                }
            },
        }
    }
}

/// The whole inbound response parse: a non-success status short-circuits
/// into a transport error carrying the status and payload.
pub open spec fn spec_parse_response(
    fields: Seq<ResolvedField>,
    status: u16,
    headers: Seq<(Seq<u8>, Seq<u8>)>,
    body: Seq<u8>,
) -> Result<Seq<Seq<u8>>, ParseErrView> {
    if !(200 <= status && status < 300) {
        Err(ParseErrView::TransportStatus { code: status, payload: body })
    } else {
        extract_fields(
            fields,
            Seq::empty(),
            Seq::empty(),
            Seq::empty(),
            headers,
            qpairs_of(body),
            body,
        )
    }
}

/// The view of an extracted credential.
pub open spec fn opt_view(o: Option<Vec<u8>>) -> Option<Seq<u8>> {
    match o {
        Option::Some(c) => Option::Some(c@),
        Option::None => Option::None,
    }
}

proof fn lemma_pairs_lookup_at(ps: Seq<(Seq<u8>, Seq<u8>)>, name: Seq<u8>, p: int)
    requires
        0 <= p <= ps.len(),
        p < ps.len() ==> ps[p].0 == name,
        forall|j: int| 0 <= j < p ==> (#[trigger] ps[j]).0 != name,
    ensures
        pairs_lookup(ps, name) == if p < ps.len() {
            Option::Some(ps[p].1)
        } else {
            Option::<Seq<u8>>::None
        },
    decreases p,
{
    if p > 0 {
        assert forall|j: int| 0 <= j < p - 1 implies (#[trigger] ps.skip(1)[j]).0 != name by {
            assert(ps.skip(1)[j] == ps[j + 1]);
        }
        lemma_pairs_lookup_at(ps.skip(1), name, p - 1);
    }
}

proof fn lemma_header_lookup_at(hs: Seq<(Seq<u8>, Seq<u8>)>, name: Seq<u8>, p: int)
    requires
        0 <= p <= hs.len(),
        p < hs.len() ==> lower_seq(hs[p].0) == name,
        forall|j: int| 0 <= j < p ==> lower_seq((#[trigger] hs[j]).0) != name,
    ensures
        header_lookup(hs, name) == if p < hs.len() {
            Option::Some(hs[p].1)
        } else {
            Option::<Seq<u8>>::None
        },
    decreases p,
{
    if p > 0 {
        assert forall|j: int|
            0 <= j < p - 1 implies lower_seq((#[trigger] hs.skip(1)[j]).0) != name by {
            assert(hs.skip(1)[j] == hs[j + 1]);
        }
        lemma_header_lookup_at(hs.skip(1), name, p - 1);
    }
}

/// Look a name up in a pair list; the first match wins.
#[verifier::loop_isolation(false)]
pub fn pairs_lookup_exec(ps: &Vec<(Vec<u8>, Vec<u8>)>, name: &[u8]) -> (r: Option<Vec<u8>>)
    ensures
        match r {
            Option::Some(v) => pairs_lookup(pairs_view(ps@), name@) == Option::Some(v@),
            Option::None => pairs_lookup(pairs_view(ps@), name@) is None,
        },
{
    let mut i: usize = 0;
    while i < ps.len()
        invariant
            0 <= i <= ps@.len(),
            forall|j: int| 0 <= j < i ==> (#[trigger] pairs_view(ps@)[j]).0 != name@,
        decreases ps@.len() - i,
    {
        if bytes_eq(ps[i].0.as_slice(), name) {
            proof {
                lemma_pairs_lookup_at(pairs_view(ps@), name@, i as int);
            }
            return Some(copy_bytes(ps[i].1.as_slice()));
        }
        i = i + 1;
    }
    proof {
        lemma_pairs_lookup_at(pairs_view(ps@), name@, ps@.len() as int);
    }
    None
}

/// Whether the lowered form of one byte string equals another.
fn lower_eq(a: &[u8], b: &[u8]) -> (r: bool)
    ensures
        r <==> lower_seq(a@) == b@,
{
    if a.len() != b.len() {
        assert(lower_seq(a@) != b@) by {
            assert(lower_seq(a@).len() != b@.len());
        }
        return false;
    }
    let mut i: usize = 0;
    while i < a.len()
        invariant
            0 <= i <= a@.len(),
            a@.len() == b@.len(),
            forall|j: int| 0 <= j < i ==> lower_seq(a@)[j] == b@[j],
        decreases a@.len() - i,
    {
        let c = a[i];
        let lc: u8 = if 0x41 <= c && c <= 0x5a {
            c + 0x20
        } else {
            c
        };
        if lc != b[i] {
            assert(lower_seq(a@)[i as int] != b@[i as int]);
            return false;
        }
        i = i + 1;
    }
    proof {
        assert(lower_seq(a@) =~= b@);
    }
    true
}

/// Look a name up among headers, matching names case-insensitively.
#[verifier::loop_isolation(false)]
fn header_lookup_exec(hs: &Vec<(Vec<u8>, Vec<u8>)>, name: &[u8]) -> (r: Option<Vec<u8>>)
    ensures
        match r {
            Option::Some(v) => header_lookup(pairs_view(hs@), name@) == Option::Some(v@),
            Option::None => header_lookup(pairs_view(hs@), name@) is None,
        },
{
    let mut i: usize = 0;
    while i < hs.len()
        invariant
            0 <= i <= hs@.len(),
            forall|j: int| 0 <= j < i ==> lower_seq((#[trigger] pairs_view(hs@)[j]).0) != name@,
        decreases hs@.len() - i,
    {
        if lower_eq(hs[i].0.as_slice(), name) {
            proof {
                lemma_header_lookup_at(pairs_view(hs@), name@, i as int);
            }
            return Some(copy_bytes(hs[i].1.as_slice()));
        }
        i = i + 1;
    }
    proof {
        lemma_header_lookup_at(pairs_view(hs@), name@, hs@.len() as int);
    }
    None
}

/// Index of the first placeholder with this name, or the template length.
#[verifier::loop_isolation(false)]
fn param_index_exec(template: &Vec<PathSegment>, name: &[u8]) -> (r: usize)
    ensures
        r == param_index(template@, name@),
        r <= template@.len(),
        r < template@.len() ==> template@[r as int] is Param && template@[r as int]->Param_0@
            == name@,
        r == template@.len() ==> forall|j: int|
            0 <= j < template@.len() ==> !((#[trigger] template@[j]) is Param
                && template@[j]->Param_0@ == name@),
{
    let mut k: usize = 0;
    while k < template.len()
        invariant
            0 <= k <= template@.len(),
            forall|j: int|
                0 <= j < k ==> !((#[trigger] template@[j]) is Param && template@[j]->Param_0@
                    == name@),
        decreases template@.len() - k,
    {
        match &template[k] {
            PathSegment::Param(n) => {
                if bytes_eq(n.as_slice(), name) {
                    proof {
                        lemma_param_index_at(template@, name@, k as int);
                    }
                    return k;
                }
            },
            PathSegment::Lit(_) => {},
        }
        k = k + 1;
    }
    proof {
        lemma_param_index_at(template@, name@, template@.len() as int);
    }
    template.len()
}

/// Whether two methods are the same.
fn method_eq(a: Method, b: Method) -> (r: bool)
    ensures
        r == (a == b),
{
    a == b
}

/// Reconstruct a typed request from an incoming message.
///
/// The method must match the descriptor; the path must destructure against
/// the template, literal by literal, with every placeholder decodable; each
/// field's value is pulled from its placement, absent values are
/// `MissingField`, identifier text that fails validation is
/// `FieldParseError`; and the credential the descriptor requires is
/// extracted, absence being `Unauthorized`.  Any single failure aborts the
/// whole parse; no partial request is ever returned.
#[verifier::loop_isolation(false)]
#[verifier::spinoff_prover]
#[verifier::rlimit(100)]
pub fn parse_request(
    desc: &EndpointDescriptor,
    fields: &Vec<ResolvedField>,
    msg: &HttpRequest,
) -> (r: Result<ParsedRequest, ParseError>)
    requires
        request_fields_ok(*desc, fields@),
    ensures
        ({
            let sp = spec_parse_request(
                *desc,
                fields@,
                msg.method,
                msg.path@,
                msg.query@,
                pairs_view(msg.headers@),
                msg.body@,
            );
            match r {
                Ok(p) => sp == Ok::<_, ParseErrView>(
                    (bytes_view(p.values@), opt_view(p.credential)),
                ),
                Err(e) => sp == Err::<(Seq<Seq<u8>>, Option<Seq<u8>>), _>(err_view(e)),
            }
        }),
{
    let ghost template = desc.path@;
    if !method_eq(msg.method, desc.method) {
        return Err(ParseError::MethodNotAllowed);
    }
    let segs = match parse_path_exec(msg.path.as_slice()) {
        Some(s) => s,
        None => {
            return Err(ParseError::MalformedPath);
        },
    };
    let ghost segsv = bytes_view(segs@);
    if segs.len() != desc.path.len() {
        return Err(ParseError::MalformedPath);
    }
    // Destructure the path: match literals, decode placeholders.
    let mut dsegs: Vec<Vec<u8>> = Vec::new();
    let mut k: usize = 0;
    while k < desc.path.len()
        invariant
            0 <= k <= template.len(),
            dsegs@.len() == k,
            forall|k2: int|
                0 <= k2 < k && (#[trigger] template[k2]) is Lit ==> segsv[k2]
                    == template[k2]->Lit_0@,
            forall|k2: int|
                0 <= k2 < k && (#[trigger] template[k2]) is Param ==> decode_bytes(segsv[k2])
                    is Some && dsegs@[k2]@ == decode_bytes(segsv[k2])->Some_0,
        decreases template.len() - k,
    {
        match &desc.path[k] {
            PathSegment::Lit(l) => {
                if !bytes_eq(segs[k].as_slice(), l.as_slice()) {
                    proof {
                        assert(!literals_match(template, segsv));
                    }
                    return Err(ParseError::MalformedPath);
                }
                dsegs.push(Vec::new());
            },
            PathSegment::Param(_) => {
                match crate::wire::percent_decode(segs[k].as_slice()) {
                    Some(d) => {
                        dsegs.push(d);
                    },
                    None => {
                        proof {
                            assert(!placeholders_decode(template, segsv));
                        }
                        return Err(ParseError::MalformedPath);
                    },
                }
            },
        }
        k = k + 1;
    }
    // The query and structured-body pair lists; a malformed list holds no
    // pairs, so its fields are simply missing.
    let qpairs = match parse_pairs_exec(msg.query.as_slice()) {
        Some(ps) => ps,
        None => Vec::new(),
    };
    let bpairs = match parse_pairs_exec(msg.body.as_slice()) {
        Some(ps) => ps,
        None => Vec::new(),
    };
    proof {
        assert(pairs_view(qpairs@) =~= qpairs_of(msg.query@));
        assert(pairs_view(bpairs@) =~= qpairs_of(msg.body@));
    }
    let ghost qv = qpairs_of(msg.query@);
    let ghost bv = qpairs_of(msg.body@);
    let ghost hv = pairs_view(msg.headers@);
    // Pull each field's value from its placement, in declaration order.
    let mut values: Vec<Vec<u8>> = Vec::new();
    proof {
        assert(fields@.skip(0) =~= fields@);
        let all0 = extract_fields(fields@, template, segsv, qv, hv, bv, msg.body@);
        if all0 is Ok {
            assert(bytes_view(values@) + all0->Ok_0 =~= all0->Ok_0);
        }
    }
    let mut i: usize = 0;
    while i < fields.len()
        invariant
            0 <= i <= fields@.len(),
            values@.len() == i,
            match extract_fields(fields@.skip(i as int), template, segsv, qv, hv, bv, msg.body@) {
                Ok(rest) => extract_fields(fields@, template, segsv, qv, hv, bv, msg.body@)
                    == Ok::<_, ParseErrView>(bytes_view(values@) + rest),
                Err(e) => extract_fields(fields@, template, segsv, qv, hv, bv, msg.body@)
                    == Err::<Seq<Seq<u8>>, _>(e),
            },
        decreases fields@.len() - i,
    {
        proof {
            assert(fields@.skip(i as int)[0] == fields@[i as int]);
            assert(fields@.skip(i as int).skip(1) =~= fields@.skip(i + 1));
        }
        let v: Vec<u8> = match fields[i].placement {
            Placement::Path => {
                let kidx = param_index_exec(&desc.path, fields[i].name.as_slice());
                proof {
                    assert(exists|k2: int|
                        0 <= k2 < template.len() && (#[trigger] template[k2]) is Param
                            && template[k2]->Param_0@ == fields@[i as int].name@);
                    let w = choose|k2: int|
                        0 <= k2 < template.len() && (#[trigger] template[k2]) is Param
                            && template[k2]->Param_0@ == fields@[i as int].name@;
                    if kidx as int == template.len() as int {
                        assert(!(template[w] is Param && template[w]->Param_0@
                            == fields@[i as int].name@));
                    }
                }
                copy_bytes(dsegs[kidx].as_slice())
            },
            Placement::Query => {
                match pairs_lookup_exec(&qpairs, fields[i].name.as_slice()) {
                    Some(v) => v,
                    None => {
                        let nm = copy_bytes(fields[i].name.as_slice());
                        return Err(ParseError::MissingField { field: nm });
                    },
                }
            },
            Placement::Header => {
                match header_lookup_exec(&msg.headers, fields[i].name.as_slice()) {
                    Some(v) => v,
                    None => {
                        let nm = copy_bytes(fields[i].name.as_slice());
                        return Err(ParseError::MissingField { field: nm });
                    },
                }
            },
            Placement::Body => {
                match pairs_lookup_exec(&bpairs, fields[i].name.as_slice()) {
                    Some(v) => v,
                    None => {
                        let nm = copy_bytes(fields[i].name.as_slice());
                        return Err(ParseError::MissingField { field: nm });
                    },
                }
            },
            Placement::RawBody => copy_bytes(msg.body.as_slice()),
        };
        if matches!(fields[i].kind, crate::placement::FieldKind::Identifier) {
            match validate_bytes(v.as_slice()) {
                Ok(()) => {},
                Err(cause) => {
                    let nm = copy_bytes(fields[i].name.as_slice());
                    return Err(ParseError::FieldParseError { field: nm, cause });
                },
            }
        }
        proof {
            assert(extract_field(fields@[i as int], template, segsv, qv, hv, bv, msg.body@)
                == Ok::<_, ParseErrView>(v@));
        }
        let ghost vprev = values@;
        values.push(v);
        proof {
            let suf = extract_fields(fields@.skip(i as int), template, segsv, qv, hv, bv, msg.body@);
            let suf1 = extract_fields(fields@.skip(i + 1), template, segsv, qv, hv, bv, msg.body@);
            assert(bytes_view(values@) =~= bytes_view(vprev).push(v@));
            match suf1 {
                Ok(r) => {
                    assert(suf == Ok::<_, ParseErrView>(seq![v@] + r));
                    assert(bytes_view(vprev) + (seq![v@] + r) =~= bytes_view(values@) + r);
                },
                Err(e) => {
                    assert(suf == Err::<Seq<Seq<u8>>, _>(e));
                },
            }
        }
        i = i + 1;
    }
    proof {
        assert(fields@.skip(fields@.len() as int) =~= Seq::<ResolvedField>::empty());
        assert(bytes_view(values@) + Seq::<Seq<u8>>::empty() =~= bytes_view(values@));
    }
    // Extract the credential the descriptor requires.
    let credential: Option<Vec<u8>> = match desc.auth {
        AuthKind::NoAuth => None,
        AuthKind::AccessToken => {
            if desc.token_in_query {
                let tp = token_param_name_exec();
                match pairs_lookup_exec(&qpairs, tp.as_slice()) {
                    Some(t) => Some(t),
                    None => {
                        return Err(ParseError::Unauthorized);
                    },
                }
            } else {
                let ah = auth_header_name_exec();
                match header_lookup_exec(&msg.headers, ah.as_slice()) {
                    Some(v) => {
                        let bp = bearer_prefix_exec();
                        if v.len() < 7 {
                            return Err(ParseError::Unauthorized);
                        }
                        let head = copy_range(v.as_slice(), 0, 7);
                        if !bytes_eq(head.as_slice(), bp.as_slice()) {
                            proof {
                                assert(v@.take(7) =~= v@.subrange(0, 7));
                            }
                            return Err(ParseError::Unauthorized);
                        }
                        let tok = copy_range(v.as_slice(), 7, v.len());
                        proof {
                            assert(v@.take(7) =~= v@.subrange(0, 7));
                            assert(v@.skip(7) =~= v@.subrange(7, v@.len() as int));
                        }
                        Some(tok)
                    },
                    None => {
                        return Err(ParseError::Unauthorized);
                    },
                }
            }
        },
        AuthKind::ServerSignature => {
            let ah = auth_header_name_exec();
            match header_lookup_exec(&msg.headers, ah.as_slice()) {
                Some(v) => Some(v),
                None => {
                    return Err(ParseError::Unauthorized);
                },
            }
        },
    };
    Ok(ParsedRequest { values, credential })
}

/// Reconstruct a typed response from an incoming message.
///
/// A non-success status short-circuits into `TransportStatus`, carrying the
/// status and the undecoded payload; a success status parses the Header and
/// Body fields exactly as the request parse does.
#[verifier::loop_isolation(false)]
#[verifier::rlimit(100)]
pub fn parse_response(fields: &Vec<ResolvedField>, msg: &HttpResponse) -> (r: Result<
    Vec<Vec<u8>>,
    ParseError,
>)
    requires
        response_fields_ok(fields@),
    ensures
        ({
            let sp = spec_parse_response(fields@, msg.status, pairs_view(msg.headers@), msg.body@);
            match r {
                Ok(values) => sp == Ok::<_, ParseErrView>(bytes_view(values@)),
                Err(e) => sp == Err::<Seq<Seq<u8>>, _>(err_view(e)),
            }
        }),
{
    if !(200 <= msg.status && msg.status < 300) {
        let payload = copy_bytes(msg.body.as_slice());
        return Err(ParseError::TransportStatus { code: msg.status, payload });
    }
    let bpairs = match parse_pairs_exec(msg.body.as_slice()) {
        Some(ps) => ps,
        None => Vec::new(),
    };
    proof {
        assert(pairs_view(bpairs@) =~= qpairs_of(msg.body@));
    }
    let ghost template = Seq::<PathSegment>::empty();
    let ghost segsv = Seq::<Seq<u8>>::empty();
    let ghost qv = Seq::<(Seq<u8>, Seq<u8>)>::empty();
    let ghost bv = qpairs_of(msg.body@);
    let ghost hv = pairs_view(msg.headers@);
    let mut values: Vec<Vec<u8>> = Vec::new();
    proof {
        assert(fields@.skip(0) =~= fields@);
        let all0 = extract_fields(fields@, template, segsv, qv, hv, bv, msg.body@);
        if all0 is Ok {
            assert(bytes_view(values@) + all0->Ok_0 =~= all0->Ok_0);
        }
    }
    let mut i: usize = 0;
    while i < fields.len()
        invariant
            0 <= i <= fields@.len(),
            values@.len() == i,
            match extract_fields(fields@.skip(i as int), template, segsv, qv, hv, bv, msg.body@) {
                Ok(rest) => extract_fields(fields@, template, segsv, qv, hv, bv, msg.body@)
                    == Ok::<_, ParseErrView>(bytes_view(values@) + rest),
                Err(e) => extract_fields(fields@, template, segsv, qv, hv, bv, msg.body@)
                    == Err::<Seq<Seq<u8>>, _>(e),
            },
        decreases fields@.len() - i,
    {
        proof {
            assert(fields@.skip(i as int)[0] == fields@[i as int]);
            assert(fields@.skip(i as int).skip(1) =~= fields@.skip(i + 1));
        }
        let v: Vec<u8> = match fields[i].placement {
            Placement::Header => {
                match header_lookup_exec(&msg.headers, fields[i].name.as_slice()) {
                    Some(v) => v,
                    None => {
                        let nm = copy_bytes(fields[i].name.as_slice());
                        return Err(ParseError::MissingField { field: nm });
                    },
                }
            },
            Placement::Body => {
                match pairs_lookup_exec(&bpairs, fields[i].name.as_slice()) {
                    Some(v) => v,
                    None => {
                        let nm = copy_bytes(fields[i].name.as_slice());
                        return Err(ParseError::MissingField { field: nm });
                    },
                }
            },
            Placement::RawBody => copy_bytes(msg.body.as_slice()),
            Placement::Path => {
                proof {
                    assert(!((fields@[i as int].placement) is Path));
                    assert(false);
                }
                Vec::new()
            },
            Placement::Query => {
                proof {
                    assert(!((fields@[i as int].placement) is Query));
                    assert(false);
                }
                Vec::new()
            },
        };
        if matches!(fields[i].kind, crate::placement::FieldKind::Identifier) {
            match validate_bytes(v.as_slice()) {
                Ok(()) => {},
                Err(cause) => {
                    let nm = copy_bytes(fields[i].name.as_slice());
                    return Err(ParseError::FieldParseError { field: nm, cause });
                },
            }
        }
        proof {
            assert(extract_field(fields@[i as int], template, segsv, qv, hv, bv, msg.body@)
                == Ok::<_, ParseErrView>(v@));
        }
        let ghost vprev = values@;
        values.push(v);
        proof {
            let suf = extract_fields(fields@.skip(i as int), template, segsv, qv, hv, bv, msg.body@);
            let suf1 = extract_fields(fields@.skip(i + 1), template, segsv, qv, hv, bv, msg.body@);
            assert(bytes_view(values@) =~= bytes_view(vprev).push(v@));
            match suf1 {
                Ok(r) => {
                    assert(suf == Ok::<_, ParseErrView>(seq![v@] + r));
                    assert(bytes_view(vprev) + (seq![v@] + r) =~= bytes_view(values@) + r);
                },
                Err(e) => {
                    assert(suf == Err::<Seq<Seq<u8>>, _>(e));
                },
            }
        }
        i = i + 1;
    }
    proof {
        assert(fields@.skip(fields@.len() as int) =~= Seq::<ResolvedField>::empty());
        assert(bytes_view(values@) + Seq::<Seq<u8>>::empty() =~= bytes_view(values@));
    }
    Ok(values)
}

/// One value per field, each identifier-typed value valid.
pub open spec fn values_ok(fields: Seq<ResolvedField>, vals: Seq<Seq<u8>>) -> bool {
    &&& fields.len() == vals.len()
    &&& forall|i: int|
        0 <= i < fields.len() && (#[trigger] fields[i].kind) is Identifier ==> spec_validate(
            vals[i],
        ) is Ok
}

/// Every header-placed value can travel in a header.
pub open spec fn headers_fit(fields: Seq<ResolvedField>, vals: Seq<Seq<u8>>) -> bool {
    forall|i: int|
        0 <= i < fields.len() && (#[trigger] fields[i].placement) is Header
            ==> valid_header_value(vals[i])
}

/// The credential a parse recovers from a message built with this strategy.
pub open spec fn cred_of(auth: AuthStrategy) -> Option<Seq<u8>> {
    match auth {
        AuthStrategy::NoAuth => Option::None,
        AuthStrategy::AccessToken { token } => Option::Some(token@),
        AuthStrategy::ServerSignature { signature } => Option::Some(signature@),
    }
}

proof fn lemma_field_index_self(fields: Seq<ResolvedField>, i: int)
    requires
        0 <= i < fields.len(),
        forall|a: int, b: int|
            0 <= a < b < fields.len() ==> (#[trigger] fields[a].name@) != (
            #[trigger] fields[b].name@),
    ensures
        field_index(fields, fields[i].name@) == i,
{
    lemma_field_index_at(fields, fields[i].name@, i);
}

proof fn lemma_param_index_props(template: Seq<PathSegment>, name: Seq<u8>)
    ensures
        param_index(template, name) <= template.len(),
        param_index(template, name) < template.len() ==> template[param_index(template, name) as int]
            is Param && template[param_index(template, name) as int]->Param_0@ == name,
        (exists|k: int|
            0 <= k < template.len() && (#[trigger] template[k]) is Param && template[k]->Param_0@
                == name) ==> param_index(template, name) < template.len(),
    decreases template.len(),
{
    if template.len() > 0 && !(template[0] is Param && template[0]->Param_0@ == name) {
        lemma_param_index_props(template.skip(1), name);
        let pi = param_index(template, name);
        if pi < template.len() {
            assert(template.skip(1)[pi - 1] == template[pi as int]);
        }
        if exists|k: int|
            0 <= k < template.len() && (#[trigger] template[k]) is Param && template[k]->Param_0@
                == name {
            let w = choose|k: int|
                0 <= k < template.len() && (#[trigger] template[k]) is Param
                    && template[k]->Param_0@ == name;
            assert(w > 0);
            assert(template.skip(1)[w - 1] == template[w]);
        }
    }
}

proof fn lemma_pairs_lookup_app(a: Seq<(Seq<u8>, Seq<u8>)>, b: Seq<(Seq<u8>, Seq<u8>)>, n: Seq<u8>)
    ensures
        pairs_lookup(a + b, n) == (match pairs_lookup(a, n) {
            Option::Some(v) => Option::Some(v),
            Option::None => pairs_lookup(b, n),
        }),
    decreases a.len(),
{
    if a.len() == 0 {
        assert(a + b =~= b);
    } else {
        lemma_pairs_lookup_app(a.skip(1), b, n);
        assert((a + b).skip(1) =~= a.skip(1) + b);
        assert((a + b)[0] == a[0]);
    }
}

/// On a list whose names are already lower case, header lookup is pair
/// lookup.
proof fn lemma_header_as_pairs(hs: Seq<(Seq<u8>, Seq<u8>)>, n: Seq<u8>)
    requires
        forall|j: int| 0 <= j < hs.len() ==> lower_seq((#[trigger] hs[j]).0) == hs[j].0,
    ensures
        header_lookup(hs, n) == pairs_lookup(hs, n),
    decreases hs.len(),
{
    if hs.len() > 0 {
        assert forall|j: int|
            0 <= j < hs.skip(1).len() implies lower_seq((#[trigger] hs.skip(1)[j]).0) == hs.skip(
            1,
        )[j].0 by {
            assert(hs.skip(1)[j] == hs[j + 1]);
        }
        lemma_header_as_pairs(hs.skip(1), n);
    }
}

/// A wire-fit name is already lower case.
proof fn lemma_lower_fixed(n: Seq<u8>)
    requires
        crate::wire::valid_wire_name(n),
    ensures
        lower_seq(n) == n,
{
    assert(lower_seq(n) =~= n);
}

/// The placed pairs of a shape with wire-fit names have wire-fit, lower-case
/// names.
proof fn lemma_placed_names(fields: Seq<ResolvedField>, vals: Seq<Seq<u8>>, p: Placement)
    requires
        fields.len() == vals.len(),
        forall|i: int|
            0 <= i < fields.len() ==> crate::wire::valid_wire_name(#[trigger] fields[i].name@),
    ensures
        forall|idx: int|
            0 <= idx < placed_pairs(fields, vals, p).len() ==> crate::wire::valid_wire_name(
                (#[trigger] placed_pairs(fields, vals, p)[idx]).0,
            ),
    decreases fields.len(),
{
    if fields.len() > 0 {
        lemma_placed_names(fields.skip(1), vals.skip(1), p);
        assert forall|idx: int|
            0 <= idx < placed_pairs(fields, vals, p).len() implies crate::wire::valid_wire_name(
            (#[trigger] placed_pairs(fields, vals, p)[idx]).0,
        ) by {
            let h = if fields[0].placement == p {
                seq![(fields[0].name@, vals[0])]
            } else {
                Seq::<(Seq<u8>, Seq<u8>)>::empty()
            };
            if idx < h.len() {
                assert(placed_pairs(fields, vals, p)[idx] == h[idx]);
            } else {
                assert(placed_pairs(fields, vals, p)[idx] == placed_pairs(
                    fields.skip(1),
                    vals.skip(1),
                    p,
                )[idx - h.len()]);
            }
        }
    }
}

/// Looking up a placed field's name finds exactly its value.
proof fn lemma_placed_lookup(fields: Seq<ResolvedField>, vals: Seq<Seq<u8>>, p: Placement, i: int)
    requires
        fields.len() == vals.len(),
        0 <= i < fields.len(),
        fields[i].placement == p,
        forall|j: int| 0 <= j < fields.len() && j != i ==> (#[trigger] fields[j].name@) != fields[i].name@,
    ensures
        pairs_lookup(placed_pairs(fields, vals, p), fields[i].name@) == Option::Some(vals[i]),
    decreases i,
{
    let ps = placed_pairs(fields, vals, p);
    let h = if fields[0].placement == p {
        seq![(fields[0].name@, vals[0])]
    } else {
        Seq::<(Seq<u8>, Seq<u8>)>::empty()
    };
    if i == 0 {
        assert(ps[0] == (fields[0].name@, vals[0]));
    } else {
        assert forall|j: int|
            0 <= j < fields.skip(1).len() && j != i - 1 implies (
        #[trigger] fields.skip(1)[j].name@) != fields.skip(1)[i - 1].name@ by {
            assert(fields.skip(1)[j] == fields[j + 1]);
            assert(fields.skip(1)[i - 1] == fields[i]);
        }
        assert(fields.skip(1)[i - 1] == fields[i] && vals.skip(1)[i - 1] == vals[i]);
        lemma_placed_lookup(fields.skip(1), vals.skip(1), p, i - 1);
        lemma_pairs_lookup_app(h, placed_pairs(fields.skip(1), vals.skip(1), p), fields[i].name@);
        if fields[0].placement == p {
            assert(h[0].0 == fields[0].name@);
            assert(fields[0].name@ != fields[i].name@);
            assert(h.skip(1) =~= Seq::<(Seq<u8>, Seq<u8>)>::empty());
            assert(pairs_lookup(Seq::<(Seq<u8>, Seq<u8>)>::empty(), fields[i].name@) is None);
            assert(pairs_lookup(h, fields[i].name@) == pairs_lookup(
                h.skip(1),
                fields[i].name@,
            ));
            assert(pairs_lookup(h, fields[i].name@) is None);
        }
    }
}

/// A name placed on no field of this placement is not found.
proof fn lemma_placed_absent(fields: Seq<ResolvedField>, vals: Seq<Seq<u8>>, p: Placement, n: Seq<u8>)
    requires
        fields.len() == vals.len(),
        forall|i: int|
            0 <= i < fields.len() && (#[trigger] fields[i].placement) == p ==> fields[i].name@ != n,
    ensures
        pairs_lookup(placed_pairs(fields, vals, p), n) is None,
    decreases fields.len(),
{
    if fields.len() > 0 {
        assert forall|i: int|
            0 <= i < fields.skip(1).len() && (#[trigger] fields.skip(1)[i].placement)
                == p implies fields.skip(1)[i].name@ != n by {
            assert(fields.skip(1)[i] == fields[i + 1]);
        }
        lemma_placed_absent(fields.skip(1), vals.skip(1), p, n);
        let h = if fields[0].placement == p {
            seq![(fields[0].name@, vals[0])]
        } else {
            Seq::<(Seq<u8>, Seq<u8>)>::empty()
        };
        if fields[0].placement == p {
            assert(h[0].0 == fields[0].name@);
            assert(fields[0].name@ != n);
            assert(h.skip(1) =~= Seq::<(Seq<u8>, Seq<u8>)>::empty());
            assert(pairs_lookup(Seq::<(Seq<u8>, Seq<u8>)>::empty(), n) is None);
            assert(pairs_lookup(h, n) == pairs_lookup(h.skip(1), n));
        } else {
            assert(pairs_lookup(h, n) is None);
        }
        lemma_pairs_lookup_app(h, placed_pairs(fields.skip(1), vals.skip(1), p), n);
        assert(placed_pairs(fields, vals, p) =~= h + placed_pairs(fields.skip(1), vals.skip(1), p));
    }
}

/// Percent-encoded output never holds a byte that is neither unreserved nor
/// the escape mark.
proof fn lemma_encode_avoids(sv: Seq<u8>, c: u8)
    requires
        !crate::wire::is_unreserved(c),
        c != 0x25,
    ensures
        forall|j: int| 0 <= j < encode_bytes(sv).len() ==> encode_bytes(sv)[j] != c,
{
    crate::wire::lemma_encode_bytes_alphabet(sv);
}

/// The names used by the credential carrier are wire-fit and lower case.
proof fn lemma_reserved_names_fit()
    ensures
        crate::wire::valid_wire_name(token_param_name()),
        crate::wire::valid_wire_name(auth_header_name()),
        lower_seq(auth_header_name()) == auth_header_name(),
        bearer_prefix().len() == 7,
{
    assert(crate::wire::valid_wire_name(token_param_name()));
    assert(crate::wire::valid_wire_name(auth_header_name()));
    lemma_lower_fixed(auth_header_name());
}

/// A whole-payload body field rules out structured body fields.
proof fn lemma_raw_index_props(fields: Seq<ResolvedField>)
    requires
        crate::placement::body_ok(fields),
        raw_index(fields) < fields.len(),
    ensures
        fields[raw_index(fields) as int].placement is RawBody,
        forall|j: int| 0 <= j < fields.len() ==> !((#[trigger] fields[j].placement) is Body),
    decreases fields.len(),
{
    if !(fields[0].placement is RawBody) {
        assert forall|i2: int, j2: int|
            0 <= i2 < fields.skip(1).len() && 0 <= j2 < fields.skip(1).len() implies !((
        #[trigger] fields.skip(1)[i2].placement) is RawBody && (
        #[trigger] fields.skip(1)[j2].placement) is Body) && (i2 != j2 ==> !((fields.skip(
            1,
        )[i2].placement) is RawBody && (fields.skip(1)[j2].placement) is RawBody)) by {
            assert(fields.skip(1)[i2] == fields[i2 + 1]);
            assert(fields.skip(1)[j2] == fields[j2 + 1]);
        }
        lemma_raw_index_props(fields.skip(1));
        assert(fields.skip(1)[raw_index(fields.skip(1)) as int] == fields[raw_index(
            fields,
        ) as int]);
        assert forall|j: int| 0 <= j < fields.len() implies !((#[trigger] fields[j].placement)
            is Body) by {
            if j > 0 {
                assert(fields.skip(1)[j - 1] == fields[j]);
            } else {
                let w = raw_index(fields) as int;
                assert(!(fields[w].placement is RawBody && fields[0].placement is Body));
            }
        }
    } else {
        assert forall|j: int| 0 <= j < fields.len() implies !((#[trigger] fields[j].placement)
            is Body) by {
            assert(!(fields[0].placement is RawBody && fields[j].placement is Body));
        }
    }
}

/// Extraction undoes construction, field by field.
#[verifier::rlimit(100)]
proof fn lemma_extract_serialized(
    desc: EndpointDescriptor,
    fields: Seq<ResolvedField>,
    vals: Seq<Seq<u8>>,
    segs: Seq<Seq<u8>>,
    qpairs: Seq<(Seq<u8>, Seq<u8>)>,
    headers: Seq<(Seq<u8>, Seq<u8>)>,
    bpairs: Seq<(Seq<u8>, Seq<u8>)>,
    i: int,
)
    requires
        values_ok(fields, vals),
        crate::placement::names_ok(fields),
        crate::placement::body_ok(fields),
        crate::placement::path_claims_ok(desc.path@, fields),
        segs == spec_path_segs(desc.path@, fields, vals),
        forall|fi: int|
            0 <= fi < fields.len() && (#[trigger] fields[fi].placement) is Query ==> pairs_lookup(
                qpairs,
                fields[fi].name@,
            ) == Option::Some(vals[fi]),
        forall|fi: int|
            0 <= fi < fields.len() && (#[trigger] fields[fi].placement) is Header
                ==> header_lookup(headers, fields[fi].name@) == Option::Some(vals[fi]),
        forall|fi: int|
            0 <= fi < fields.len() && (#[trigger] fields[fi].placement) is Body ==> pairs_lookup(
                bpairs,
                fields[fi].name@,
            ) == Option::Some(vals[fi]),
        0 <= i <= fields.len(),
    ensures
        extract_fields(
            fields.skip(i),
            desc.path@,
            segs,
            qpairs,
            headers,
            bpairs,
            spec_body(fields, vals),
        ) == Ok::<_, ParseErrView>(vals.skip(i)),
    decreases fields.len() - i,
{
    let template = desc.path@;
    let body = spec_body(fields, vals);
    if i == fields.len() {
        assert(fields.skip(i) =~= Seq::<ResolvedField>::empty());
        assert(vals.skip(i) =~= Seq::<Seq<u8>>::empty());
    } else {
        lemma_extract_serialized(desc, fields, vals, segs, qpairs, headers, bpairs, i + 1);
        assert(fields.skip(i)[0] == fields[i]);
        assert(fields.skip(i).skip(1) =~= fields.skip(i + 1));
        let f = fields[i];
        let got = extract_field(f, template, segs, qpairs, headers, bpairs, body);
        match f.placement {
            Placement::Path => {
                lemma_param_index_props(template, f.name@);
                let k = param_index(template, f.name@) as int;
                assert(k < template.len());
                assert(segs[k] == encode_bytes(vals[field_index(fields, f.name@) as int]));
                lemma_field_index_self(fields, i);
                crate::wire::lemma_decode_encode(vals[i]);
                assert(got == Ok::<_, ParseErrView>(vals[i]));
            },
            Placement::Query => {
                assert(got == Ok::<_, ParseErrView>(vals[i]));
            },
            Placement::Header => {
                assert(got == Ok::<_, ParseErrView>(vals[i]));
            },
            Placement::Body => {
                lemma_raw_index_le(fields);
                assert(got == Ok::<_, ParseErrView>(vals[i]));
            },
            Placement::RawBody => {
                assert forall|j: int| 0 <= j < i implies !((#[trigger] fields[j].placement)
                    is RawBody) by {}
                lemma_raw_index_at(fields, i);
                assert(body == vals[i]);
                assert(got == Ok::<_, ParseErrView>(vals[i]));
            },
        }
        assert(seq![vals[i]] + vals.skip(i + 1) =~= vals.skip(i));
    }
}

/// The request round trip: parsing a message built from valid field values
/// under the same descriptor, placements, and strategy recovers exactly
/// those values and the credential; it never fails and never alters a value.
pub proof fn lemma_request_round_trip(
    desc: EndpointDescriptor,
    fields: Seq<ResolvedField>,
    vals: Seq<Seq<u8>>,
    auth: AuthStrategy,
)
    requires
        crate::placement::request_fields_ok(desc, fields),
        strategy_matches(auth, desc.auth),
        values_ok(fields, vals),
        headers_fit(fields, vals),
        credential_ok(desc, auth),
    ensures
        spec_parse_request(
            desc,
            fields,
            desc.method,
            render_path(spec_path_segs(desc.path@, fields, vals)),
            render_pairs(spec_query_pairs(desc, fields, vals, auth)),
            spec_header_pairs(desc, fields, vals, auth),
            spec_body(fields, vals),
        ) == Ok::<_, ParseErrView>((vals, cred_of(auth))),
{
    let template = desc.path@;
    let segs = spec_path_segs(template, fields, vals);
    let qpairs = spec_query_pairs(desc, fields, vals, auth);
    let headers = spec_header_pairs(desc, fields, vals, auth);
    let body = spec_body(fields, vals);
    lemma_reserved_names_fit();
    // The rendered path destructures back into its segments.
    assert forall|k: int, j: int|
        0 <= k < segs.len() && 0 <= j < segs[k].len() implies #[trigger] segs[k][j] != 0x2f by {
        match template[k] {
            PathSegment::Lit(l) => {
                assert(segs[k] == l@);
            },
            PathSegment::Param(n) => {
                lemma_encode_avoids(vals[field_index(fields, n@) as int], 0x2f);
            },
        }
    }
    crate::wire::lemma_parse_render_path(segs);
    assert(literals_match(template, segs));
    assert forall|k: int|
        0 <= k < template.len() && (#[trigger] template[k]) is Param implies decode_bytes(segs[k])
        is Some by {
        crate::wire::lemma_decode_encode(vals[field_index(fields, template[k]->Param_0@) as int]);
    }
    // The rendered query parses back into its pairs.
    assert forall|idx: int|
        0 <= idx < qpairs.len() implies crate::wire::valid_wire_name(
        (#[trigger] qpairs[idx]).0,
    ) by {
        lemma_placed_names(fields, vals, Placement::Query);
        let qplaced0 = placed_pairs(fields, vals, Placement::Query);
        if idx < qplaced0.len() {
            assert(qpairs[idx] == qplaced0[idx]);
        } else {
            assert(qpairs[idx].0 == token_param_name());
        }
    }
    crate::wire::lemma_parse_render_pairs(qpairs);
    assert(qpairs_of(render_pairs(qpairs)) == qpairs);
    // The structured body parses back into its pairs.
    lemma_raw_index_le(fields);
    let bplaced = placed_pairs(fields, vals, Placement::Body);
    if raw_index(fields) >= fields.len() {
        lemma_placed_names(fields, vals, Placement::Body);
        crate::wire::lemma_parse_render_pairs(bplaced);
        assert(qpairs_of(body) == bplaced);
    }
    // Field lookups in the built message find the original values.
    let qplaced = placed_pairs(fields, vals, Placement::Query);
    let hplaced = placed_pairs(fields, vals, Placement::Header);
    let qtail = qpairs.skip(qplaced.len() as int);
    let htail = headers.skip(hplaced.len() as int);
    assert(qplaced + qtail =~= qpairs);
    assert(hplaced + htail =~= headers);
    assert forall|fi: int|
        0 <= fi < fields.len() && (#[trigger] fields[fi].placement) is Query implies pairs_lookup(
        qpairs,
        fields[fi].name@,
    ) == Option::Some(vals[fi]) by {
        lemma_placed_lookup(fields, vals, Placement::Query, fi);
        lemma_pairs_lookup_app(qplaced, qtail, fields[fi].name@);
    }
    assert forall|j: int| 0 <= j < headers.len() implies lower_seq((#[trigger] headers[j]).0)
        == headers[j].0 by {
        lemma_placed_names(fields, vals, Placement::Header);
        if j < hplaced.len() {
            assert(headers[j] == hplaced[j]);
            lemma_lower_fixed(headers[j].0);
        } else {
            assert(headers[j].0 == auth_header_name());
        }
    }
    assert forall|fi: int|
        0 <= fi < fields.len() && (#[trigger] fields[fi].placement) is Header implies header_lookup(
        headers,
        fields[fi].name@,
    ) == Option::Some(vals[fi]) by {
        lemma_header_as_pairs(headers, fields[fi].name@);
        lemma_placed_lookup(fields, vals, Placement::Header, fi);
        lemma_pairs_lookup_app(hplaced, htail, fields[fi].name@);
    }
    assert forall|fi: int|
        0 <= fi < fields.len() && (#[trigger] fields[fi].placement) is Body implies pairs_lookup(
        qpairs_of(body),
        fields[fi].name@,
    ) == Option::Some(vals[fi]) by {
        assert(!(fields[fi].placement is RawBody));
        if raw_index(fields) < fields.len() {
            lemma_raw_index_props(fields);
            assert(false);
        }
        lemma_placed_lookup(fields, vals, Placement::Body, fi);
    }
    lemma_extract_serialized(desc, fields, vals, segs, qpairs, headers, qpairs_of(body), 0);
    assert(fields.skip(0) =~= fields);
    assert(vals.skip(0) =~= vals);
    // The credential rides where the descriptor says and is recovered
    // untouched.
    match auth {
        AuthStrategy::NoAuth => {},
        AuthStrategy::AccessToken { token } => {
            if desc.token_in_query {
                lemma_placed_absent(fields, vals, Placement::Query, token_param_name());
                lemma_pairs_lookup_app(qplaced, qtail, token_param_name());
                assert(qtail[0] == (token_param_name(), token@));
            } else {
                lemma_header_as_pairs(headers, auth_header_name());
                lemma_placed_absent(fields, vals, Placement::Header, auth_header_name());
                lemma_pairs_lookup_app(hplaced, htail, auth_header_name());
                assert(htail[0] == (auth_header_name(), bearer_prefix() + token@));
                let v = bearer_prefix() + token@;
                assert(v.take(7) =~= bearer_prefix());
                assert(v.skip(7) =~= token@);
            }
        },
        AuthStrategy::ServerSignature { signature } => {
            lemma_header_as_pairs(headers, auth_header_name());
            lemma_placed_absent(fields, vals, Placement::Header, auth_header_name());
            lemma_pairs_lookup_app(hplaced, htail, auth_header_name());
            assert(htail[0] == (auth_header_name(), signature@));
        },
    }
}

/// Stability under repeated round trips: the values a parse recovers
/// rebuild, under the same descriptor and strategy, the very same message,
/// so a second parse recovers the same values again.
pub proof fn lemma_marshal_idempotent(
    desc: EndpointDescriptor,
    fields: Seq<ResolvedField>,
    vals: Seq<Seq<u8>>,
    auth: AuthStrategy,
)
    requires
        crate::placement::request_fields_ok(desc, fields),
        strategy_matches(auth, desc.auth),
        values_ok(fields, vals),
        headers_fit(fields, vals),
        credential_ok(desc, auth),
    ensures
        ({
            let first = spec_parse_request(
                desc,
                fields,
                desc.method,
                render_path(spec_path_segs(desc.path@, fields, vals)),
                render_pairs(spec_query_pairs(desc, fields, vals, auth)),
                spec_header_pairs(desc, fields, vals, auth),
                spec_body(fields, vals),
            );
            first is Ok && first->Ok_0.0 == vals && spec_parse_request(
                desc,
                fields,
                desc.method,
                render_path(spec_path_segs(desc.path@, fields, first->Ok_0.0)),
                render_pairs(spec_query_pairs(desc, fields, first->Ok_0.0, auth)),
                spec_header_pairs(desc, fields, first->Ok_0.0, auth),
                spec_body(fields, first->Ok_0.0),
            ) == first
        }),
{
    lemma_request_round_trip(desc, fields, vals, auth);
}

/// The response round trip: parsing a success message built from valid
/// field values under the same placements recovers exactly those values.
pub proof fn lemma_response_round_trip(fields: Seq<ResolvedField>, vals: Seq<Seq<u8>>)
    requires
        crate::placement::response_fields_ok(fields),
        values_ok(fields, vals),
        headers_fit(fields, vals),
    ensures
        spec_parse_response(
            fields,
            200,
            placed_pairs(fields, vals, Placement::Header),
            spec_body(fields, vals),
        ) == Ok::<_, ParseErrView>(vals),
{
    let headers = placed_pairs(fields, vals, Placement::Header);
    let body = spec_body(fields, vals);
    lemma_raw_index_le(fields);
    let bplaced = placed_pairs(fields, vals, Placement::Body);
    if raw_index(fields) >= fields.len() {
        lemma_placed_names(fields, vals, Placement::Body);
        crate::wire::lemma_parse_render_pairs(bplaced);
        assert(qpairs_of(body) == bplaced);
    }
    assert forall|j: int| 0 <= j < headers.len() implies lower_seq((#[trigger] headers[j]).0)
        == headers[j].0 by {
        lemma_placed_names(fields, vals, Placement::Header);
        lemma_lower_fixed(headers[j].0);
    }
    lemma_extract_response(fields, vals, headers, qpairs_of(body), 0);
    assert(fields.skip(0) =~= fields);
    assert(vals.skip(0) =~= vals);
}

proof fn lemma_extract_response(
    fields: Seq<ResolvedField>,
    vals: Seq<Seq<u8>>,
    headers: Seq<(Seq<u8>, Seq<u8>)>,
    bpairs: Seq<(Seq<u8>, Seq<u8>)>,
    i: int,
)
    requires
        crate::placement::response_fields_ok(fields),
        values_ok(fields, vals),
        headers == placed_pairs(fields, vals, Placement::Header),
        forall|j: int| 0 <= j < headers.len() ==> lower_seq((#[trigger] headers[j]).0) == headers[j].0,
        raw_index(fields) == fields.len() ==> bpairs == placed_pairs(fields, vals, Placement::Body),
        0 <= i <= fields.len(),
    ensures
        extract_fields(
            fields.skip(i),
            Seq::empty(),
            Seq::empty(),
            Seq::empty(),
            headers,
            bpairs,
            spec_body(fields, vals),
        ) == Ok::<_, ParseErrView>(vals.skip(i)),
    decreases fields.len() - i,
{
    let body = spec_body(fields, vals);
    if i == fields.len() {
        assert(fields.skip(i) =~= Seq::<ResolvedField>::empty());
        assert(vals.skip(i) =~= Seq::<Seq<u8>>::empty());
    } else {
        lemma_extract_response(fields, vals, headers, bpairs, i + 1);
        assert(fields.skip(i)[0] == fields[i]);
        assert(fields.skip(i).skip(1) =~= fields.skip(i + 1));
        let f = fields[i];
        let got = extract_field(f, Seq::empty(), Seq::empty(), Seq::empty(), headers, bpairs, body);
        match f.placement {
            Placement::Header => {
                lemma_header_as_pairs(headers, f.name@);
                lemma_placed_lookup(fields, vals, Placement::Header, i);
                assert(got == Ok::<_, ParseErrView>(vals[i]));
            },
            Placement::Body => {
                lemma_raw_index_le(fields);
                if raw_index(fields) < fields.len() {
                    lemma_raw_index_props(fields);
                    assert(false);
                }
                lemma_placed_lookup(fields, vals, Placement::Body, i);
                assert(got == Ok::<_, ParseErrView>(vals[i]));
            },
            Placement::RawBody => {
                assert forall|j: int| 0 <= j < i implies !((#[trigger] fields[j].placement)
                    is RawBody) by {}
                lemma_raw_index_at(fields, i);
                assert(body == vals[i]);
                assert(got == Ok::<_, ParseErrView>(vals[i]));
            },
            Placement::Path => {
                assert(false);
            },
            Placement::Query => {
                assert(false);
            },
        }
        assert(seq![vals[i]] + vals.skip(i + 1) =~= vals.skip(i));
    }
}

} // verus!
