//! Field placement: where each declared field of a request or response shape
//! travels on the wire, and the definition-time resolver that validates a
//! shape against its descriptor.
//!
//! Resolution runs once, at registration time.  A shape that fails any check
//! is rejected with a `DefinitionError` and never registers, so no placement
//! inconsistency can surface during live traffic.

use vstd::prelude::*;
use crate::descriptor::{EndpointDescriptor, Method, AuthKind, PathSegment};
use crate::descriptor::{auth_header_name, token_param_name};
use crate::wire::valid_wire_name;
use crate::ident::bytes_eq;

verus! {

/// The wire location of one field.
#[derive(Clone, Copy, PartialEq, Eq, Structural, Debug)]
pub enum Placement {
    /// Substituted into a path placeholder of the same name.
    Path,
    /// A `name=value` query parameter.
    Query,
    /// A `name: value` header.
    Header,
    /// Part of the structured body payload.
    Body,
    /// The whole body, verbatim; excludes every other body field.
    RawBody,
}

/// How a field's text is validated when it is parsed back.
#[derive(Clone, Copy, PartialEq, Eq, Structural, Debug)]
pub enum FieldKind {
    /// Any byte string.
    Text,
    /// An opaque identifier; its text must pass identifier validation.
    Identifier,
}

/// One declared field of a request or response shape, before resolution.
pub struct FieldDecl {
    pub name: Vec<u8>,
    /// The explicit placement tag, if the declaration carries one.
    pub tag: Option<Placement>,
    pub kind: FieldKind,
}

/// One field after resolution: its placement is settled.
pub struct ResolvedField {
    pub name: Vec<u8>,
    pub placement: Placement,
    pub kind: FieldKind,
}

/// Why a shape failed to register.
#[derive(PartialEq, Eq, Debug)]
pub enum DefinitionError {
    /// A request field of a bodyless-method endpoint carries no tag.
    UnclassifiedField { name: Vec<u8> },
    /// A field name is not fit for the wire.
    InvalidFieldName { name: Vec<u8> },
    /// Two fields share a name.
    DuplicateFieldName { name: Vec<u8> },
    /// A literal template segment contains a separator.
    InvalidLiteralSegment,
    /// Two placeholders share a name.
    DuplicatePlaceholder { name: Vec<u8> },
    /// A placeholder that no Path field claims.
    UnresolvedPlaceholder { name: Vec<u8> },
    /// A Path field with no placeholder of its name.
    UnclaimedPathField { name: Vec<u8> },
    /// More than one whole-payload body field.
    MultipleRawBody,
    /// A whole-payload body field beside a structured body field.
    RawBodyConflict,
    /// A field name collides with the credential carrier.
    ReservedName { name: Vec<u8> },
    /// A response field claims a request-only placement.
    PlacementNotAllowed { name: Vec<u8> },
}

/// The placement a declaration resolves to: its tag, or the body default.
pub open spec fn default_of(tag: Option<Placement>) -> Placement {
    match tag {
        Some(p) => p,
        None => Placement::Body,
    }
}

/// The resolved form of a declaration list.
pub open spec fn resolved_of(decls: Seq<FieldDecl>) -> Seq<ResolvedField> {
    decls.map_values(
        |d: FieldDecl| ResolvedField { name: d.name, placement: default_of(d.tag), kind: d.kind },
    )
}

/// Every request field of a bodyless-method endpoint carries a tag.
pub open spec fn classifiable(method: Method, decls: Seq<FieldDecl>, is_request: bool) -> bool {
    forall|i: int|
        0 <= i < decls.len() ==> (#[trigger] decls[i].tag) is Some || !is_request
            || !(method is Get)
}

/// Field names are fit for the wire and pairwise distinct.
pub open spec fn names_ok(fields: Seq<ResolvedField>) -> bool {
    &&& forall|i: int| 0 <= i < fields.len() ==> valid_wire_name(#[trigger] fields[i].name@)
    &&& forall|i: int, j: int|
        0 <= i < j < fields.len() ==> (#[trigger] fields[i].name@) != (#[trigger] fields[j].name@)
}

/// Literal segments carry no separator; placeholder names are distinct.
pub open spec fn template_ok(template: Seq<PathSegment>) -> bool {
    &&& forall|k: int, j: int|
        0 <= k < template.len() && template[k] is Lit && 0 <= j < template[k]->Lit_0@.len()
            ==> (#[trigger] template[k]->Lit_0@[j]) != 0x2f
    &&& forall|k: int, l: int|
        0 <= k < l < template.len() && template[k] is Param && template[l] is Param ==> (
        #[trigger] template[k]->Param_0@) != (#[trigger] template[l]->Param_0@)
}

/// Every placeholder is claimed by a Path field and every Path field claims
/// a placeholder.
pub open spec fn path_claims_ok(template: Seq<PathSegment>, fields: Seq<ResolvedField>) -> bool {
    &&& forall|k: int|
        0 <= k < template.len() && (#[trigger] template[k]) is Param ==> exists|i: int|
            0 <= i < fields.len() && (#[trigger] fields[i].placement) is Path && fields[i].name@
                == template[k]->Param_0@
    &&& forall|i: int|
        0 <= i < fields.len() && (#[trigger] fields[i].placement) is Path ==> exists|k: int|
            0 <= k < template.len() && (#[trigger] template[k]) is Param && template[k]->Param_0@
                == fields[i].name@
}

/// At most one whole-payload body field, and none beside structured body
/// fields.
pub open spec fn body_ok(fields: Seq<ResolvedField>) -> bool {
    &&& forall|i: int, j: int|
        0 <= i < fields.len() && 0 <= j < fields.len() && i != j ==> !((
        #[trigger] fields[i].placement) is RawBody && (#[trigger] fields[j].placement) is RawBody)
    &&& forall|i: int, j: int|
        0 <= i < fields.len() && 0 <= j < fields.len() ==> !((#[trigger] fields[i].placement)
            is RawBody && (#[trigger] fields[j].placement) is Body)
}

/// No field name collides with the slot the credential travels in.
pub open spec fn auth_names_ok(desc: EndpointDescriptor, fields: Seq<ResolvedField>) -> bool {
    &&& (desc.auth is AccessToken && desc.token_in_query) ==> forall|i: int|
        0 <= i < fields.len() && (#[trigger] fields[i].placement) is Query ==> fields[i].name@
            != token_param_name()
    &&& (desc.auth is AccessToken && !desc.token_in_query || desc.auth is ServerSignature)
        ==> forall|i: int|
        0 <= i < fields.len() && (#[trigger] fields[i].placement) is Header ==> fields[i].name@
            != auth_header_name()
}

/// A valid resolved request shape.
pub open spec fn request_fields_ok(desc: EndpointDescriptor, fields: Seq<ResolvedField>) -> bool {
    &&& names_ok(fields)
    &&& template_ok(desc.path@)
    &&& path_claims_ok(desc.path@, fields)
    &&& body_ok(fields)
    &&& auth_names_ok(desc, fields)
}

/// A valid resolved response shape: headers and body only.
pub open spec fn response_fields_ok(fields: Seq<ResolvedField>) -> bool {
    &&& names_ok(fields)
    &&& body_ok(fields)
    &&& forall|i: int|
        0 <= i < fields.len() ==> !((#[trigger] fields[i].placement) is Path
            || fields[i].placement is Query)
}

/// Whether resolution succeeds, as a function of the declaration alone.
pub open spec fn spec_resolvable(
    desc: EndpointDescriptor,
    decls: Seq<FieldDecl>,
    is_request: bool,
) -> bool {
    &&& classifiable(desc.method, decls, is_request)
    &&& if is_request {
        request_fields_ok(desc, resolved_of(decls))
    } else {
        response_fields_ok(resolved_of(decls))
    }
}

/// Whether a byte string is fit to be a wire field name.
pub fn valid_wire_name_exec(n: &[u8]) -> (r: bool)
    ensures
        r == valid_wire_name(n@),
{
    if n.len() == 0 {
        return false;
    }
    let mut i: usize = 0;
    while i < n.len()
        invariant
            0 <= i <= n@.len(),
            forall|j: int|
                0 <= j < i ==> crate::wire::is_unreserved(#[trigger] n@[j]) && !(0x41 <= n@[j]
                    && n@[j] <= 0x5a),
        decreases n@.len() - i,
    {
        let b = n[i];
        let unres = (0x61 <= b && b <= 0x7a) || (0x30 <= b && b <= 0x39) || b == 0x2d || b == 0x2e
            || b == 0x5f || b == 0x7e;
        if !unres {
            return false;
        }
        i = i + 1;
    }
    true
}

/// Whether any Path field of the shape carries this name.
fn has_path_field(fields: &Vec<ResolvedField>, name: &[u8]) -> (r: bool)
    ensures
        r == exists|i: int|
            0 <= i < fields@.len() && (#[trigger] fields@[i].placement) is Path
                && fields@[i].name@ == name@,
{
    let mut i: usize = 0;
    while i < fields.len()
        invariant
            0 <= i <= fields@.len(),
            forall|j: int|
                0 <= j < i ==> !((#[trigger] fields@[j].placement) is Path && fields@[j].name@
                    == name@),
        decreases fields@.len() - i,
    {
        if matches!(fields[i].placement, Placement::Path) && bytes_eq(
            fields[i].name.as_slice(),
            name,
        ) {
            return true;
        }
        i = i + 1;
    }
    false
}

/// Whether any placeholder of the template carries this name.
fn has_param(template: &Vec<PathSegment>, name: &[u8]) -> (r: bool)
    ensures
        r == exists|k: int|
            0 <= k < template@.len() && (#[trigger] template@[k]) is Param
                && template@[k]->Param_0@ == name@,
{
    let mut k: usize = 0;
    while k < template.len()
        invariant
            0 <= k <= template@.len(),
            forall|l: int|
                0 <= l < k ==> !((#[trigger] template@[l]) is Param && template@[l]->Param_0@
                    == name@),
        decreases template@.len() - k,
    {
        match &template[k] {
            PathSegment::Param(n) => {
                if bytes_eq(n.as_slice(), name) {
                    return true;
                }
            },
            PathSegment::Lit(_) => {},
        }
        k = k + 1;
    }
    false
}

/// Resolve a declared shape against its descriptor.
///
/// Succeeds exactly when the declaration is classifiable and the resolved
/// fields satisfy every definition-time rule; the resolved fields are the
/// declarations with the body default applied.  Any violation is reported as
/// a `DefinitionError` and nothing registers.
#[verifier::loop_isolation(false)]
#[verifier::rlimit(80)]
pub fn resolve_placements(
    desc: &EndpointDescriptor,
    decls: Vec<FieldDecl>,
    is_request: bool,
) -> (r: Result<Vec<ResolvedField>, DefinitionError>)
    ensures
        r is Ok <==> spec_resolvable(*desc, decls@, is_request),
        r is Ok ==> r->Ok_0@ == resolved_of(decls@),
{
    let mut fields: Vec<ResolvedField> = Vec::new();
    let mut rest = decls;
    let ghost all = rest@;
    let mut i: usize = 0;
    // Apply the body default, rejecting untagged fields where no default is
    // allowed.
    while rest.len() > 0
        invariant
            all.len() == fields@.len() + rest@.len(),
            i == fields@.len(),
            rest@ == all.skip(i as int),
            fields@ == resolved_of(all.take(i as int)),
            forall|j: int|
                0 <= j < i ==> (#[trigger] all[j].tag) is Some || !is_request || !(desc.method
                    is Get),
        decreases rest@.len(),
    {
        let d = rest.remove(0);
        if matches!(d.tag, None) && is_request && matches!(desc.method, Method::Get) {
            proof {
                assert(all.skip(i as int)[0] == all[i as int]);
                assert(!((all[i as int].tag) is Some));
                assert(!classifiable(desc.method, all, is_request));
            }
            return Err(DefinitionError::UnclassifiedField { name: d.name });
        }
        let placement = match d.tag {
            Some(p) => p,
            None => Placement::Body,
        };
        fields.push(ResolvedField { name: d.name, placement, kind: d.kind });
        proof {
            assert(all.skip(i as int)[0] == all[i as int]);
            assert(rest@ =~= all.skip(i + 1));
            assert(fields@ =~= resolved_of(all.take(i + 1)));
        }
        i = fields.len();
    }
    proof {
        assert(all.take(all.len() as int) =~= all);
    }
    let ghost rf = resolved_of(all);
    // Field names: wire-fit and distinct.
    let mut a: usize = 0;
    while a < fields.len()
        invariant
            fields@ == rf,
            0 <= a <= fields@.len(),
            forall|i2: int| 0 <= i2 < a ==> valid_wire_name(#[trigger] rf[i2].name@),
            forall|i2: int, j2: int|
                0 <= i2 < j2 < a ==> (#[trigger] rf[i2].name@) != (#[trigger] rf[j2].name@),
        decreases fields@.len() - a,
    {
        if !valid_wire_name_exec(fields[a].name.as_slice()) {
            proof {
                assert(!valid_wire_name(rf[a as int].name@));
                assert(!names_ok(rf));
            }
            let nm = fields.remove(a).name;
            return Err(DefinitionError::InvalidFieldName { name: nm });
        }
        let mut b: usize = 0;
        while b < a
            invariant
                fields@ == rf,
                0 <= b <= a < fields@.len(),
                forall|j2: int| 0 <= j2 < b ==> (#[trigger] rf[j2].name@) != rf[a as int].name@,
            decreases a - b,
        {
            if bytes_eq(fields[b].name.as_slice(), fields[a].name.as_slice()) {
                proof {
                    assert(rf[b as int].name@ == rf[a as int].name@);
                    assert(!names_ok(rf));
                }
                let nm = fields.remove(a).name;
                return Err(DefinitionError::DuplicateFieldName { name: nm });
            }
            b = b + 1;
        }
        a = a + 1;
    }
    assert(names_ok(rf));
    // Whole-payload body exclusivity.
    let mut raw_count: usize = 0;
    let mut body_count: usize = 0;
    let mut a2: usize = 0;
    while a2 < fields.len()
        invariant
            fields@ == rf,
            0 <= a2 <= fields@.len(),
            raw_count <= a2,
            body_count <= a2,
            (raw_count == 0) <==> (forall|i2: int|
                0 <= i2 < a2 ==> !((#[trigger] rf[i2].placement) is RawBody)),
            (body_count == 0) <==> (forall|i2: int|
                0 <= i2 < a2 ==> !((#[trigger] rf[i2].placement) is Body)),
            forall|i2: int, j2: int|
                0 <= i2 < j2 < a2 ==> !((#[trigger] rf[i2].placement) is RawBody && (
                #[trigger] rf[j2].placement) is RawBody),
        decreases fields@.len() - a2,
    {
        if matches!(fields[a2].placement, Placement::RawBody) {
            if raw_count >= 1 {
                proof {
                    assert(exists|i2: int|
                        0 <= i2 < a2 && (#[trigger] rf[i2].placement) is RawBody);
                    let w = choose|i2: int|
                        0 <= i2 < a2 && (#[trigger] rf[i2].placement) is RawBody;
                    assert(rf[a2 as int].placement is RawBody);
                    assert(!body_ok(rf));
                }
                return Err(DefinitionError::MultipleRawBody);
            }
            raw_count = raw_count + 1;
        }
        if matches!(fields[a2].placement, Placement::Body) {
            body_count = body_count + 1;
        }
        a2 = a2 + 1;
    }
    if raw_count >= 1 && body_count >= 1 {
        proof {
            assert(exists|i2: int| 0 <= i2 < rf.len() && (#[trigger] rf[i2].placement) is RawBody);
            assert(exists|j2: int| 0 <= j2 < rf.len() && (#[trigger] rf[j2].placement) is Body);
            let w = choose|i2: int|
                0 <= i2 < rf.len() && (#[trigger] rf[i2].placement) is RawBody;
            let v = choose|j2: int| 0 <= j2 < rf.len() && (#[trigger] rf[j2].placement) is Body;
            assert(!body_ok(rf));
        }
        return Err(DefinitionError::RawBodyConflict);
    }
    assert(body_ok(rf));
    if is_request {
        // Template hygiene and the placeholder bijection.
        let mut k: usize = 0;
        while k < desc.path.len()
            invariant
                fields@ == rf,
                0 <= k <= desc.path@.len(),
                forall|k2: int, j2: int|
                    0 <= k2 < k && desc.path@[k2] is Lit && 0 <= j2 < desc.path@[k2]->Lit_0@.len()
                        ==> (#[trigger] desc.path@[k2]->Lit_0@[j2]) != 0x2f,
                forall|k2: int, l2: int|
                    0 <= k2 < k && k2 < l2 < desc.path@.len() && desc.path@[k2] is Param
                        && desc.path@[l2] is Param ==> (#[trigger] desc.path@[k2]->Param_0@) != (
                    #[trigger] desc.path@[l2]->Param_0@),
                forall|k2: int|
                    0 <= k2 < k && (#[trigger] desc.path@[k2]) is Param ==> exists|i2: int|
                        0 <= i2 < rf.len() && (#[trigger] rf[i2].placement) is Path
                            && rf[i2].name@ == desc.path@[k2]->Param_0@,
            decreases desc.path@.len() - k,
        {
            match &desc.path[k] {
                PathSegment::Lit(l) => {
                    let sl = l.as_slice();
                    let pos = crate::wire::find_byte(sl, 0, sl.len(), 0x2f);
                    if pos < sl.len() {
                        proof {
                            assert(desc.path@[k as int]->Lit_0@[pos as int] == 0x2f);
                            assert(!template_ok(desc.path@));
                        }
                        return Err(DefinitionError::InvalidLiteralSegment);
                    }
                },
                PathSegment::Param(n) => {
                    let mut l: usize = k + 1;
                    while l < desc.path.len()
                        invariant
                            0 <= k < l <= desc.path@.len(),
                            desc.path@[k as int] is Param,
                            desc.path@[k as int]->Param_0@ == n@,
                            forall|l2: int|
                                k < l2 < l && desc.path@[l2] is Param ==> (
                                #[trigger] desc.path@[l2]->Param_0@) != n@,
                        decreases desc.path@.len() - l,
                    {
                        match &desc.path[l] {
                            PathSegment::Param(n2) => {
                                if bytes_eq(n.as_slice(), n2.as_slice()) {
                                    proof {
                                        let dp = desc.path@;
                                        assert(dp[l as int] is Param);
                                        assert(dp[l as int]->Param_0@ == dp[k as int]->Param_0@);
                                        assert(!template_ok(desc.path@));
                                    }
                                    let nm = crate::wire::copy_range(n.as_slice(), 0, n.len());
                                    return Err(DefinitionError::DuplicatePlaceholder { name: nm });
                                }
                            },
                            PathSegment::Lit(_) => {},
                        }
                        l = l + 1;
                    }
                    if !has_path_field(&fields, n.as_slice()) {
                        proof {
                            assert(desc.path@[k as int] is Param && desc.path@[k as int]->Param_0@
                                == n@);
                            assert(!path_claims_ok(desc.path@, rf));
                        }
                        let nm = crate::wire::copy_range(n.as_slice(), 0, n.len());
                        return Err(DefinitionError::UnresolvedPlaceholder { name: nm });
                    }
                },
            }
            proof {
                assert forall|k2: int, l2: int|
                    0 <= k2 < k + 1 && k2 < l2 < desc.path@.len() && desc.path@[k2] is Param
                        && desc.path@[l2] is Param implies (#[trigger] desc.path@[k2]->Param_0@)
                    != (#[trigger] desc.path@[l2]->Param_0@) by {
                }
            }
            k = k + 1;
        }
        assert(template_ok(desc.path@));
        // Every Path field claims a placeholder; reserved names stay free.
        let mut a3: usize = 0;
        while a3 < fields.len()
            invariant
                fields@ == rf,
                0 <= a3 <= fields@.len(),
                template_ok(desc.path@),
                forall|i2: int|
                    0 <= i2 < a3 && (#[trigger] rf[i2].placement) is Path ==> exists|k2: int|
                        0 <= k2 < desc.path@.len() && (#[trigger] desc.path@[k2]) is Param
                            && desc.path@[k2]->Param_0@ == rf[i2].name@,
                forall|i2: int|
                    0 <= i2 < a3 && desc.auth is AccessToken && desc.token_in_query && (
                    #[trigger] rf[i2].placement) is Query ==> rf[i2].name@ != token_param_name(),
                forall|i2: int|
                    0 <= i2 < a3 && (desc.auth is AccessToken && !desc.token_in_query
                        || desc.auth is ServerSignature) && (#[trigger] rf[i2].placement)
                        is Header ==> rf[i2].name@ != auth_header_name(),
            decreases fields@.len() - a3,
        {
            if matches!(fields[a3].placement, Placement::Path) {
                if !has_param(&desc.path, fields[a3].name.as_slice()) {
                    proof {
                        assert(rf[a3 as int].placement is Path);
                        assert(!path_claims_ok(desc.path@, rf));
                    }
                    let nm = fields.remove(a3).name;
                    return Err(DefinitionError::UnclaimedPathField { name: nm });
                }
            }
            if matches!(desc.auth, AuthKind::AccessToken) && desc.token_in_query && matches!(
                fields[a3].placement,
                Placement::Query,
            ) {
                let tp = crate::descriptor::token_param_name_exec();
                if bytes_eq(fields[a3].name.as_slice(), tp.as_slice()) {
                    proof {
                        assert(rf[a3 as int].placement is Query && rf[a3 as int].name@
                            == token_param_name());
                        assert(!auth_names_ok(*desc, rf));
                    }
                    let nm = fields.remove(a3).name;
                    return Err(DefinitionError::ReservedName { name: nm });
                }
            }
            if (matches!(desc.auth, AuthKind::AccessToken) && !desc.token_in_query || matches!(
                desc.auth,
                AuthKind::ServerSignature,
            )) && matches!(fields[a3].placement, Placement::Header) {
                let ah = crate::descriptor::auth_header_name_exec();
                if bytes_eq(fields[a3].name.as_slice(), ah.as_slice()) {
                    proof {
                        assert(rf[a3 as int].placement is Header && rf[a3 as int].name@
                            == auth_header_name());
                        assert(!auth_names_ok(*desc, rf));
                    }
                    let nm = fields.remove(a3).name;
                    return Err(DefinitionError::ReservedName { name: nm });
                }
            }
            a3 = a3 + 1;
        }
        assert(request_fields_ok(*desc, rf));
    } else {
        // Responses carry no path and no query parameters.
        let mut a4: usize = 0;
        while a4 < fields.len()
            invariant
                fields@ == rf,
                0 <= a4 <= fields@.len(),
                forall|i2: int|
                    0 <= i2 < a4 ==> !((#[trigger] rf[i2].placement) is Path || rf[i2].placement
                        is Query),
            decreases fields@.len() - a4,
        {
            if matches!(fields[a4].placement, Placement::Path) || matches!(
                fields[a4].placement,
                Placement::Query,
            ) {
                proof {
                    assert(rf[a4 as int].placement is Path || rf[a4 as int].placement is Query);
                    assert(!response_fields_ok(rf));
                }
                let nm = fields.remove(a4).name;
                return Err(DefinitionError::PlacementNotAllowed { name: nm });
            }
            a4 = a4 + 1;
        }
        assert(response_fields_ok(rf));
    }
    Ok(fields)
}

} // verus!
