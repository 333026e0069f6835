//! Concrete endpoint registrations, each built once at startup from a fixed
//! declaration and validated by the placement resolver: a malformed
//! declaration fails registration and never serves traffic.  Each
//! registration here is proved to succeed, with the descriptor's exact
//! shape stated in its contract.

use vstd::prelude::*;
use crate::descriptor::{EndpointDescriptor, Method, AuthKind, PathSegment};
use crate::placement::{
    FieldDecl,
    FieldKind,
    Placement,
    ResolvedField,
    DefinitionError,
    resolve_placements,
    request_fields_ok,
    response_fields_ok,
    spec_resolvable,
    resolved_of,
};
use crate::wire::{render_pairs, parse_pairs, pairs_view, valid_wire_name, render_pairs_exec};
use crate::marshal::pairs_lookup;

verus! {

/// A registered endpoint: its descriptor and both resolved shapes.
pub struct Endpoint {
    pub desc: EndpointDescriptor,
    pub request_fields: Vec<ResolvedField>,
    pub response_fields: Vec<ResolvedField>,
}

impl Endpoint {
    /// Both shapes passed every definition-time check.
    pub open spec fn wf(&self) -> bool {
        &&& request_fields_ok(self.desc, self.request_fields@)
        &&& response_fields_ok(self.response_fields@)
    }
}

/// A template made of exactly these literal segments, in order.
pub open spec fn literal_template(template: Seq<PathSegment>, lits: Seq<Seq<u8>>) -> bool {
    &&& template.len() == lits.len()
    &&& forall|k: int|
        0 <= k < template.len() ==> (#[trigger] template[k]) is Lit && template[k]->Lit_0@
            == lits[k]
}

/// A resolved field with exactly this name, placement, and kind.
pub open spec fn field_is(f: ResolvedField, name: Seq<u8>, p: Placement, k: FieldKind) -> bool {
    f.name@ == name && f.placement == p && f.kind == k
}

/// The path segment `_matrix`.
pub open spec fn seg_matrix() -> Seq<u8> {
    seq![0x5f, 0x6d, 0x61, 0x74, 0x72, 0x69, 0x78]
}

fn seg_matrix_exec() -> (r: Vec<u8>)
    ensures
        r@ == seg_matrix(),
{
    let mut v: Vec<u8> = Vec::new();
    v.push(0x5f);
    v.push(0x6d);
    v.push(0x61);
    v.push(0x74);
    v.push(0x72);
    v.push(0x69);
    v.push(0x78);
    proof {
        assert(v@ =~= seg_matrix());
    }
    v
}

/// The path segment `key`.
pub open spec fn seg_key() -> Seq<u8> {
    seq![0x6b, 0x65, 0x79]
}

fn seg_key_exec() -> (r: Vec<u8>)
    ensures
        r@ == seg_key(),
{
    let mut v: Vec<u8> = Vec::new();
    v.push(0x6b);
    v.push(0x65);
    v.push(0x79);
    proof {
        assert(v@ =~= seg_key());
    }
    v
}

/// The path segment `v2`.
pub open spec fn seg_v2() -> Seq<u8> {
    seq![0x76, 0x32]
}

fn seg_v2_exec() -> (r: Vec<u8>)
    ensures
        r@ == seg_v2(),
{
    let mut v: Vec<u8> = Vec::new();
    v.push(0x76);
    v.push(0x32);
    proof {
        assert(v@ =~= seg_v2());
    }
    v
}

/// The path segment `server`.
pub open spec fn seg_server() -> Seq<u8> {
    seq![0x73, 0x65, 0x72, 0x76, 0x65, 0x72]
}

fn seg_server_exec() -> (r: Vec<u8>)
    ensures
        r@ == seg_server(),
{
    let mut v: Vec<u8> = Vec::new();
    v.push(0x73);
    v.push(0x65);
    v.push(0x72);
    v.push(0x76);
    v.push(0x65);
    v.push(0x72);
    proof {
        assert(v@ =~= seg_server());
    }
    v
}

/// The path segment `identity`.
pub open spec fn seg_identity() -> Seq<u8> {
    seq![0x69, 0x64, 0x65, 0x6e, 0x74, 0x69, 0x74, 0x79]
}

fn seg_identity_exec() -> (r: Vec<u8>)
    ensures
        r@ == seg_identity(),
{
    let mut v: Vec<u8> = Vec::new();
    v.push(0x69);
    v.push(0x64);
    v.push(0x65);
    v.push(0x6e);
    v.push(0x74);
    v.push(0x69);
    v.push(0x74);
    v.push(0x79);
    proof {
        assert(v@ =~= seg_identity());
    }
    v
}

/// The path segment `account`.
pub open spec fn seg_account() -> Seq<u8> {
    seq![0x61, 0x63, 0x63, 0x6f, 0x75, 0x6e, 0x74]
}

fn seg_account_exec() -> (r: Vec<u8>)
    ensures
        r@ == seg_account(),
{
    let mut v: Vec<u8> = Vec::new();
    v.push(0x61);
    v.push(0x63);
    v.push(0x63);
    v.push(0x6f);
    v.push(0x75);
    v.push(0x6e);
    v.push(0x74);
    proof {
        assert(v@ =~= seg_account());
    }
    v
}

/// The path segment `register`.
pub open spec fn seg_register() -> Seq<u8> {
    seq![0x72, 0x65, 0x67, 0x69, 0x73, 0x74, 0x65, 0x72]
}

fn seg_register_exec() -> (r: Vec<u8>)
    ensures
        r@ == seg_register(),
{
    let mut v: Vec<u8> = Vec::new();
    v.push(0x72);
    v.push(0x65);
    v.push(0x67);
    v.push(0x69);
    v.push(0x73);
    v.push(0x74);
    v.push(0x65);
    v.push(0x72);
    proof {
        assert(v@ =~= seg_register());
    }
    v
}

/// The response field name `server_key`.
pub open spec fn name_server_key() -> Seq<u8> {
    seq![0x73, 0x65, 0x72, 0x76, 0x65, 0x72, 0x5f, 0x6b, 0x65, 0x79]
}

fn name_server_key_exec() -> (r: Vec<u8>)
    ensures
        r@ == name_server_key(),
{
    let mut v: Vec<u8> = Vec::new();
    v.push(0x73);
    v.push(0x65);
    v.push(0x72);
    v.push(0x76);
    v.push(0x65);
    v.push(0x72);
    v.push(0x5f);
    v.push(0x6b);
    v.push(0x65);
    v.push(0x79);
    proof {
        assert(v@ =~= name_server_key());
    }
    v
}

/// The request field name `access_token`: an ordinary body field, distinct from the AccessToken authentication strategy.
pub open spec fn name_access_token() -> Seq<u8> {
    seq![0x61, 0x63, 0x63, 0x65, 0x73, 0x73, 0x5f, 0x74, 0x6f, 0x6b, 0x65, 0x6e]
}

fn name_access_token_exec() -> (r: Vec<u8>)
    ensures
        r@ == name_access_token(),
{
    let mut v: Vec<u8> = Vec::new();
    v.push(0x61);
    v.push(0x63);
    v.push(0x63);
    v.push(0x65);
    v.push(0x73);
    v.push(0x73);
    v.push(0x5f);
    v.push(0x74);
    v.push(0x6f);
    v.push(0x6b);
    v.push(0x65);
    v.push(0x6e);
    proof {
        assert(v@ =~= name_access_token());
    }
    v
}

/// The request field name `token_type`.
pub open spec fn name_token_type() -> Seq<u8> {
    seq![0x74, 0x6f, 0x6b, 0x65, 0x6e, 0x5f, 0x74, 0x79, 0x70, 0x65]
}

fn name_token_type_exec() -> (r: Vec<u8>)
    ensures
        r@ == name_token_type(),
{
    let mut v: Vec<u8> = Vec::new();
    v.push(0x74);
    v.push(0x6f);
    v.push(0x6b);
    v.push(0x65);
    v.push(0x6e);
    v.push(0x5f);
    v.push(0x74);
    v.push(0x79);
    v.push(0x70);
    v.push(0x65);
    proof {
        assert(v@ =~= name_token_type());
    }
    v
}

/// The request field name `matrix_server_name`.
pub open spec fn name_matrix_server_name() -> Seq<u8> {
    seq![0x6d, 0x61, 0x74, 0x72, 0x69, 0x78, 0x5f, 0x73, 0x65, 0x72, 0x76, 0x65, 0x72, 0x5f, 0x6e, 0x61, 0x6d, 0x65]
}

fn name_matrix_server_name_exec() -> (r: Vec<u8>)
    ensures
        r@ == name_matrix_server_name(),
{
    let mut v: Vec<u8> = Vec::new();
    v.push(0x6d);
    v.push(0x61);
    v.push(0x74);
    v.push(0x72);
    v.push(0x69);
    v.push(0x78);
    v.push(0x5f);
    v.push(0x73);
    v.push(0x65);
    v.push(0x72);
    v.push(0x76);
    v.push(0x65);
    v.push(0x72);
    v.push(0x5f);
    v.push(0x6e);
    v.push(0x61);
    v.push(0x6d);
    v.push(0x65);
    proof {
        assert(v@ =~= name_matrix_server_name());
    }
    v
}

/// The request field name `expires_in`.
pub open spec fn name_expires_in() -> Seq<u8> {
    seq![0x65, 0x78, 0x70, 0x69, 0x72, 0x65, 0x73, 0x5f, 0x69, 0x6e]
}

fn name_expires_in_exec() -> (r: Vec<u8>)
    ensures
        r@ == name_expires_in(),
{
    let mut v: Vec<u8> = Vec::new();
    v.push(0x65);
    v.push(0x78);
    v.push(0x70);
    v.push(0x69);
    v.push(0x72);
    v.push(0x65);
    v.push(0x73);
    v.push(0x5f);
    v.push(0x69);
    v.push(0x6e);
    proof {
        assert(v@ =~= name_expires_in());
    }
    v
}

/// The response field name `token`.
pub open spec fn name_token() -> Seq<u8> {
    seq![0x74, 0x6f, 0x6b, 0x65, 0x6e]
}

fn name_token_exec() -> (r: Vec<u8>)
    ensures
        r@ == name_token(),
{
    let mut v: Vec<u8> = Vec::new();
    v.push(0x74);
    v.push(0x6f);
    v.push(0x6b);
    v.push(0x65);
    v.push(0x6e);
    proof {
        assert(v@ =~= name_token());
    }
    v
}

/// The response field name `user_id`.
pub open spec fn name_user_id() -> Seq<u8> {
    seq![0x75, 0x73, 0x65, 0x72, 0x5f, 0x69, 0x64]
}

fn name_user_id_exec() -> (r: Vec<u8>)
    ensures
        r@ == name_user_id(),
{
    let mut v: Vec<u8> = Vec::new();
    v.push(0x75);
    v.push(0x73);
    v.push(0x65);
    v.push(0x72);
    v.push(0x5f);
    v.push(0x69);
    v.push(0x64);
    proof {
        assert(v@ =~= name_user_id());
    }
    v
}

/// The machine name of the published-signing-keys endpoint.
pub open spec fn name_get_server_keys() -> Seq<u8> {
    seq![0x67, 0x65, 0x74, 0x5f, 0x73, 0x65, 0x72, 0x76, 0x65, 0x72, 0x5f, 0x6b, 0x65, 0x79, 0x73]
}

fn name_get_server_keys_exec() -> (r: Vec<u8>)
    ensures
        r@ == name_get_server_keys(),
{
    let mut v: Vec<u8> = Vec::new();
    v.push(0x67);
    v.push(0x65);
    v.push(0x74);
    v.push(0x5f);
    v.push(0x73);
    v.push(0x65);
    v.push(0x72);
    v.push(0x76);
    v.push(0x65);
    v.push(0x72);
    v.push(0x5f);
    v.push(0x6b);
    v.push(0x65);
    v.push(0x79);
    v.push(0x73);
    proof {
        assert(v@ =~= name_get_server_keys());
    }
    v
}

/// The machine name of the account-registration endpoint.
pub open spec fn name_register_account() -> Seq<u8> {
    seq![0x72, 0x65, 0x67, 0x69, 0x73, 0x74, 0x65, 0x72, 0x5f, 0x61, 0x63, 0x63, 0x6f, 0x75, 0x6e, 0x74]
}

fn name_register_account_exec() -> (r: Vec<u8>)
    ensures
        r@ == name_register_account(),
{
    let mut v: Vec<u8> = Vec::new();
    v.push(0x72);
    v.push(0x65);
    v.push(0x67);
    v.push(0x69);
    v.push(0x73);
    v.push(0x74);
    v.push(0x65);
    v.push(0x72);
    v.push(0x5f);
    v.push(0x61);
    v.push(0x63);
    v.push(0x63);
    v.push(0x6f);
    v.push(0x75);
    v.push(0x6e);
    v.push(0x74);
    proof {
        assert(v@ =~= name_register_account());
    }
    v
}

/// The machine name of the account-information endpoint.
pub open spec fn name_get_account_information() -> Seq<u8> {
    seq![0x67, 0x65, 0x74, 0x5f, 0x61, 0x63, 0x63, 0x6f, 0x75, 0x6e, 0x74, 0x5f, 0x69, 0x6e, 0x66, 0x6f, 0x72, 0x6d, 0x61, 0x74, 0x69, 0x6f, 0x6e]
}

fn name_get_account_information_exec() -> (r: Vec<u8>)
    ensures
        r@ == name_get_account_information(),
{
    let mut v: Vec<u8> = Vec::new();
    v.push(0x67);
    v.push(0x65);
    v.push(0x74);
    v.push(0x5f);
    v.push(0x61);
    v.push(0x63);
    v.push(0x63);
    v.push(0x6f);
    v.push(0x75);
    v.push(0x6e);
    v.push(0x74);
    v.push(0x5f);
    v.push(0x69);
    v.push(0x6e);
    v.push(0x66);
    v.push(0x6f);
    v.push(0x72);
    v.push(0x6d);
    v.push(0x61);
    v.push(0x74);
    v.push(0x69);
    v.push(0x6f);
    v.push(0x6e);
    proof {
        assert(v@ =~= name_get_account_information());
    }
    v
}


/// Copy a text literal into a byte vector.
fn lit(s: &str) -> Vec<u8> {
    crate::marshal::copy_bytes(s.as_bytes())
}

/// Register: validate a declaration pair against its descriptor.  A pair
/// that is resolvable on both sides always registers.
fn register(
    desc: EndpointDescriptor,
    request_decls: Vec<FieldDecl>,
    response_decls: Vec<FieldDecl>,
) -> (r: Result<Endpoint, DefinitionError>)
    ensures
        r is Ok ==> r->Ok_0.wf() && r->Ok_0.desc == desc && r->Ok_0.request_fields@
            == resolved_of(request_decls@) && r->Ok_0.response_fields@ == resolved_of(
            response_decls@,
        ),
        spec_resolvable(desc, request_decls@, true) && spec_resolvable(desc, response_decls@, false)
            ==> r is Ok,
{
    let request_fields = match resolve_placements(&desc, request_decls, true) {
        Ok(f) => f,
        Err(e) => {
            return Err(e);
        },
    };
    let response_fields = match resolve_placements(&desc, response_decls, false) {
        Ok(f) => f,
        Err(e) => {
            return Err(e);
        },
    };
    Ok(Endpoint { desc, request_fields, response_fields })
}

/// The published-signing-keys endpoint: GET at `/_matrix/key/v2/server`, no
/// placeholders, no authentication, an empty request, and a response whose
/// whole body is the queried server key.  Its declaration is fixed and
/// valid, so registration always succeeds.
#[verifier::rlimit(50)]
pub fn get_server_keys_endpoint() -> (r: Result<Endpoint, DefinitionError>)
    ensures
        r is Ok,
        r->Ok_0.wf(),
        r->Ok_0.desc.method == Method::Get,
        r->Ok_0.desc.auth is NoAuth,
        !r->Ok_0.desc.rate_limited,
        !r->Ok_0.desc.token_in_query,
        literal_template(
            r->Ok_0.desc.path@,
            seq![seg_matrix(), seg_key(), seg_v2(), seg_server()],
        ),
        r->Ok_0.desc.name@ == name_get_server_keys(),
        r->Ok_0.request_fields@.len() == 0,
        r->Ok_0.response_fields@.len() == 1,
        field_is(
            r->Ok_0.response_fields@[0],
            name_server_key(),
            Placement::RawBody,
            FieldKind::Text,
        ),
{
    let mut path: Vec<PathSegment> = Vec::new();
    path.push(PathSegment::Lit(seg_matrix_exec()));
    path.push(PathSegment::Lit(seg_key_exec()));
    path.push(PathSegment::Lit(seg_v2_exec()));
    path.push(PathSegment::Lit(seg_server_exec()));
    let desc = EndpointDescriptor {
        method: Method::Get,
        path,
        auth: AuthKind::NoAuth,
        token_in_query: false,
        rate_limited: false,
        name: name_get_server_keys_exec(),
        description: lit("Gets the homeserver's published signing keys."),
    };
    let request_decls: Vec<FieldDecl> = Vec::new();
    let mut response_decls: Vec<FieldDecl> = Vec::new();
    response_decls.push(
        FieldDecl {
            name: name_server_key_exec(),
            tag: Some(Placement::RawBody),
            kind: FieldKind::Text,
        },
    );
    proof {
        lemma_all_literals_clean(desc.path@);
        assert(spec_resolvable(desc, request_decls@, true)) by {
            let rf = resolved_of(request_decls@);
            assert(rf.len() == 0);
        }
        assert(spec_resolvable(desc, response_decls@, false)) by {
            let rf = resolved_of(response_decls@);
            assert(rf.len() == 1);
            assert(rf[0].name@ == name_server_key() && rf[0].placement is RawBody);
            assert(valid_wire_name(name_server_key()));
        }
    }
    register(desc, request_decls, response_decls)
}

/// The account-registration endpoint: POST at
/// `/_matrix/identity/v2/account/register`, no authentication, a request of
/// four body fields and a response of one.  Its declaration is fixed and
/// valid, so registration always succeeds.
#[verifier::rlimit(50)]
pub fn register_account_endpoint() -> (r: Result<Endpoint, DefinitionError>)
    ensures
        r is Ok,
        r->Ok_0.wf(),
        r->Ok_0.desc.method == Method::Post,
        r->Ok_0.desc.auth is NoAuth,
        !r->Ok_0.desc.rate_limited,
        !r->Ok_0.desc.token_in_query,
        literal_template(
            r->Ok_0.desc.path@,
            seq![seg_matrix(), seg_identity(), seg_v2(), seg_account(), seg_register()],
        ),
        r->Ok_0.desc.name@ == name_register_account(),
        r->Ok_0.request_fields@.len() == 4,
        field_is(
            r->Ok_0.request_fields@[0],
            name_access_token(),
            Placement::Body,
            FieldKind::Text,
        ),
        field_is(r->Ok_0.request_fields@[1], name_token_type(), Placement::Body, FieldKind::Text),
        field_is(
            r->Ok_0.request_fields@[2],
            name_matrix_server_name(),
            Placement::Body,
            FieldKind::Identifier,
        ),
        field_is(r->Ok_0.request_fields@[3], name_expires_in(), Placement::Body, FieldKind::Text),
        r->Ok_0.response_fields@.len() == 1,
        field_is(r->Ok_0.response_fields@[0], name_token(), Placement::Body, FieldKind::Text),
{
    let mut path: Vec<PathSegment> = Vec::new();
    path.push(PathSegment::Lit(seg_matrix_exec()));
    path.push(PathSegment::Lit(seg_identity_exec()));
    path.push(PathSegment::Lit(seg_v2_exec()));
    path.push(PathSegment::Lit(seg_account_exec()));
    path.push(PathSegment::Lit(seg_register_exec()));
    let desc = EndpointDescriptor {
        method: Method::Post,
        path,
        auth: AuthKind::NoAuth,
        token_in_query: false,
        rate_limited: false,
        name: name_register_account_exec(),
        description: lit(
            "Exchanges an OpenID token from the homeserver for an access token to access the identity server.",
        ),
    };
    let mut request_decls: Vec<FieldDecl> = Vec::new();
    request_decls.push(
        FieldDecl {
            name: name_access_token_exec(),
            tag: Some(Placement::Body),
            kind: FieldKind::Text,
        },
    );
    request_decls.push(
        FieldDecl { name: name_token_type_exec(), tag: Some(Placement::Body), kind: FieldKind::Text },
    );
    request_decls.push(
        FieldDecl {
            name: name_matrix_server_name_exec(),
            tag: Some(Placement::Body),
            kind: FieldKind::Identifier,
        },
    );
    request_decls.push(
        FieldDecl { name: name_expires_in_exec(), tag: None, kind: FieldKind::Text },
    );
    let mut response_decls: Vec<FieldDecl> = Vec::new();
    response_decls.push(
        FieldDecl { name: name_token_exec(), tag: Some(Placement::Body), kind: FieldKind::Text },
    );
    proof {
        lemma_all_literals_clean(desc.path@);
        assert(spec_resolvable(desc, request_decls@, true)) by {
            let rf = resolved_of(request_decls@);
            assert(rf.len() == 4);
            assert(rf[0].name@ == name_access_token() && rf[0].placement is Body);
            assert(rf[1].name@ == name_token_type() && rf[1].placement is Body);
            assert(rf[2].name@ == name_matrix_server_name() && rf[2].placement is Body);
            assert(rf[3].name@ == name_expires_in() && rf[3].placement is Body);
            assert(valid_wire_name(name_access_token()));
            assert(valid_wire_name(name_token_type()));
            assert(valid_wire_name(name_matrix_server_name()));
            assert(valid_wire_name(name_expires_in()));
            assert(name_token_type() != name_expires_in()) by {
                assert(name_token_type()[0] != name_expires_in()[0]);
            }
            assert(crate::placement::names_ok(rf));
        }
        assert(spec_resolvable(desc, response_decls@, false)) by {
            let rf = resolved_of(response_decls@);
            assert(rf.len() == 1);
            assert(rf[0].name@ == name_token() && rf[0].placement is Body);
            assert(valid_wire_name(name_token()));
        }
    }
    register(desc, request_decls, response_decls)
}

/// The account-information endpoint: POST at `/_matrix/identity/v2/account`,
/// authenticated by an access token carried in a header, an empty request,
/// and a response naming the user that owns the token.  Its declaration is
/// fixed and valid, so registration always succeeds.
#[verifier::rlimit(50)]
pub fn get_account_information_endpoint() -> (r: Result<Endpoint, DefinitionError>)
    ensures
        r is Ok,
        r->Ok_0.wf(),
        r->Ok_0.desc.method == Method::Post,
        r->Ok_0.desc.auth is AccessToken,
        !r->Ok_0.desc.token_in_query,
        !r->Ok_0.desc.rate_limited,
        literal_template(
            r->Ok_0.desc.path@,
            seq![seg_matrix(), seg_identity(), seg_v2(), seg_account()],
        ),
        r->Ok_0.desc.name@ == name_get_account_information(),
        r->Ok_0.request_fields@.len() == 0,
        r->Ok_0.response_fields@.len() == 1,
        field_is(
            r->Ok_0.response_fields@[0],
            name_user_id(),
            Placement::Body,
            FieldKind::Identifier,
        ),
{
    let mut path: Vec<PathSegment> = Vec::new();
    path.push(PathSegment::Lit(seg_matrix_exec()));
    path.push(PathSegment::Lit(seg_identity_exec()));
    path.push(PathSegment::Lit(seg_v2_exec()));
    path.push(PathSegment::Lit(seg_account_exec()));
    let desc = EndpointDescriptor {
        method: Method::Post,
        path,
        auth: AuthKind::AccessToken,
        token_in_query: false,
        rate_limited: false,
        name: name_get_account_information_exec(),
        description: lit("Gets information about what user owns the access token used in the request."),
    };
    let request_decls: Vec<FieldDecl> = Vec::new();
    let mut response_decls: Vec<FieldDecl> = Vec::new();
    response_decls.push(
        FieldDecl { name: name_user_id_exec(), tag: None, kind: FieldKind::Identifier },
    );
    proof {
        lemma_all_literals_clean(desc.path@);
        assert(spec_resolvable(desc, request_decls@, true)) by {
            let rf = resolved_of(request_decls@);
            assert(rf.len() == 0);
        }
        assert(spec_resolvable(desc, response_decls@, false)) by {
            let rf = resolved_of(response_decls@);
            assert(rf.len() == 1);
            assert(rf[0].name@ == name_user_id() && rf[0].placement is Body);
            assert(valid_wire_name(name_user_id()));
        }
    }
    register(desc, request_decls, response_decls)
}

/// A template of literal segments that each avoid the path separator is
/// hygienic, claims nothing, and matches an empty request shape.
proof fn lemma_all_literals_clean(template: Seq<PathSegment>)
    requires
        forall|k: int| 0 <= k < template.len() ==> (#[trigger] template[k]) is Lit,
        forall|k: int, j: int|
            0 <= k < template.len() && 0 <= j < template[k]->Lit_0@.len() ==> (
            #[trigger] template[k]->Lit_0@[j]) != 0x2f,
    ensures
        crate::placement::template_ok(template),
        forall|fields: Seq<ResolvedField>|
            (forall|i: int|
                0 <= i < fields.len() ==> !((#[trigger] fields[i].placement) is Path))
                ==> #[trigger] crate::placement::path_claims_ok(template, fields),
{
    assert forall|fields: Seq<ResolvedField>|
        (forall|i: int|
            0 <= i < fields.len() ==> !((#[trigger] fields[i].placement)
                is Path)) implies #[trigger] crate::placement::path_claims_ok(
        template,
        fields,
    ) by {
        assert(forall|k: int| 0 <= k < template.len() ==> !((#[trigger] template[k]) is Param));
    }
}

/// A homeserver's published signing key, as the plain values this layer
/// reads: the server's name and its verification key material.
pub struct ServerSigningKey {
    pub server_name: Vec<u8>,
    pub verify_key: Vec<u8>,
}

/// The name of the key's first record: `server_name`.
pub open spec fn sn_name() -> Seq<u8> {
    seq![0x73, 0x65, 0x72, 0x76, 0x65, 0x72, 0x5f, 0x6e, 0x61, 0x6d, 0x65]
}

/// The name of the key's second record: `verify_key`.
pub open spec fn vk_name() -> Seq<u8> {
    seq![0x76, 0x65, 0x72, 0x69, 0x66, 0x79, 0x5f, 0x6b, 0x65, 0x79]
}

/// The records of a key's structured encoding.
pub open spec fn key_pairs(k: ServerSigningKey) -> Seq<(Seq<u8>, Seq<u8>)> {
    seq![(sn_name(), k.server_name@), (vk_name(), k.verify_key@)]
}

/// A key's structured encoding: its records rendered as a pair list.
pub open spec fn key_encoding(k: ServerSigningKey) -> Seq<u8> {
    render_pairs(key_pairs(k))
}

fn sn_name_exec() -> (r: Vec<u8>)
    ensures
        r@ == sn_name(),
{
    let mut v: Vec<u8> = Vec::new();
    v.push(0x73);
    v.push(0x65);
    v.push(0x72);
    v.push(0x76);
    v.push(0x65);
    v.push(0x72);
    v.push(0x5f);
    v.push(0x6e);
    v.push(0x61);
    v.push(0x6d);
    v.push(0x65);
    proof {
        assert(v@ =~= sn_name());
    }
    v
}

fn vk_name_exec() -> (r: Vec<u8>)
    ensures
        r@ == vk_name(),
{
    let mut v: Vec<u8> = Vec::new();
    v.push(0x76);
    v.push(0x65);
    v.push(0x72);
    v.push(0x69);
    v.push(0x66);
    v.push(0x79);
    v.push(0x5f);
    v.push(0x6b);
    v.push(0x65);
    v.push(0x79);
    proof {
        assert(v@ =~= vk_name());
    }
    v
}

/// Encode a key into its structured body payload.
pub fn encode_key(k: &ServerSigningKey) -> (r: Vec<u8>)
    ensures
        r@ == key_encoding(*k),
{
    let mut ps: Vec<(Vec<u8>, Vec<u8>)> = Vec::new();
    ps.push((sn_name_exec(), crate::marshal::copy_bytes(k.server_name.as_slice())));
    ps.push((vk_name_exec(), crate::marshal::copy_bytes(k.verify_key.as_slice())));
    proof {
        assert(pairs_view(ps@) =~= key_pairs(*k));
    }
    render_pairs_exec(&ps)
}

/// Decode a structured body payload into a key.
///
/// Succeeds exactly when the payload is a well-formed pair list holding both
/// records; the key's fields are the records' values.
pub fn decode_key(bytes: &[u8]) -> (r: Option<ServerSigningKey>)
    ensures
        match r {
            Some(k) => parse_pairs(bytes@) is Some && pairs_lookup(
                parse_pairs(bytes@)->Some_0,
                sn_name(),
            ) == Some(k.server_name@) && pairs_lookup(parse_pairs(bytes@)->Some_0, vk_name())
                == Some(k.verify_key@),
            None => parse_pairs(bytes@) is None || pairs_lookup(
                parse_pairs(bytes@)->Some_0,
                sn_name(),
            ) is None || pairs_lookup(parse_pairs(bytes@)->Some_0, vk_name()) is None,
        },
{
    let ps = match crate::wire::parse_pairs_exec(bytes) {
        Some(ps) => ps,
        None => {
            return None;
        },
    };
    let snn = sn_name_exec();
    let vkn = vk_name_exec();
    let server_name = match crate::marshal::pairs_lookup_exec(&ps, snn.as_slice()) {
        Some(v) => v,
        None => {
            return None;
        },
    };
    let verify_key = match crate::marshal::pairs_lookup_exec(&ps, vkn.as_slice()) {
        Some(v) => v,
        None => {
            return None;
        },
    };
    Some(ServerSigningKey { server_name, verify_key })
}

/// Decoding a key's structured encoding recovers the key's records exactly.
pub proof fn lemma_key_round_trip(k: ServerSigningKey)
    ensures
        parse_pairs(key_encoding(k)) == Some(key_pairs(k)),
        pairs_lookup(key_pairs(k), sn_name()) == Some(k.server_name@),
        pairs_lookup(key_pairs(k), vk_name()) == Some(k.verify_key@),
{
    assert(valid_wire_name(sn_name()));
    assert(valid_wire_name(vk_name()));
    assert forall|i: int| 0 <= i < key_pairs(k).len() implies valid_wire_name(
        (#[trigger] key_pairs(k)[i]).0,
    ) by {
        if i == 0 {
            assert(key_pairs(k)[0].0 == sn_name());
        } else {
            assert(key_pairs(k)[1].0 == vk_name());
        }
    }
    crate::wire::lemma_parse_render_pairs(key_pairs(k));
    assert(key_pairs(k)[0] == (sn_name(), k.server_name@));
    assert(sn_name().len() != vk_name().len());
    assert(sn_name() != vk_name());
    assert(key_pairs(k).skip(1) =~= seq![(vk_name(), k.verify_key@)]);
    assert(key_pairs(k).skip(1)[0] == (vk_name(), k.verify_key@));
    assert(pairs_lookup(seq![(vk_name(), k.verify_key@)], vk_name()) == Some(k.verify_key@));
    assert(pairs_lookup(key_pairs(k).skip(1), vk_name()) == Some(k.verify_key@));
    assert(pairs_lookup(key_pairs(k), vk_name()) == pairs_lookup(key_pairs(k).skip(1), vk_name()));
}

/// The empty request of the published-signing-keys endpoint.
#[derive(PartialEq, Eq, Structural, Debug)]
pub struct Request {}

impl Request {
    /// Creates an empty request.
    pub fn new() -> (r: Request)
        ensures
            r == (Request {  }),
    {
        Request {  }
    }
}

impl Default for Request {
    /// The default request is the empty request, the same value `new` makes.
    fn default() -> (r: Request)
        ensures
            r == (Request {  }),
    {
        Request {  }
    }
}

/// The response of the published-signing-keys endpoint: the queried server
/// key, signed by the notary server, carried as the whole body.
pub struct Response {
    pub server_key: ServerSigningKey,
}

impl Response {
    /// Creates a new response with the given server key.
    pub fn new(server_key: ServerSigningKey) -> (r: Response)
        ensures
            r.server_key == server_key,
    {
        Response { server_key }
    }

    /// The response's field values for the marshaller: the key's encoding,
    /// as the whole-payload body field.
    pub fn to_values(&self) -> (r: Vec<Vec<u8>>)
        ensures
            r@.len() == 1,
            r@[0]@ == key_encoding(self.server_key),
    {
        let mut vs: Vec<Vec<u8>> = Vec::new();
        vs.push(encode_key(&self.server_key));
        vs
    }
}

impl From<ServerSigningKey> for Response {
    fn from(server_key: ServerSigningKey) -> (r: Response) {
        Response::new(server_key)
    }
}

impl vstd::std_specs::convert::FromSpecImpl<ServerSigningKey> for Response {
    open spec fn obeys_from_spec() -> bool {
        true
    }

    open spec fn from_spec(server_key: ServerSigningKey) -> Response {
        Response { server_key }
    }
}

} // verus!
