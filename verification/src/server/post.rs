//! Re-encoding of decoded multipart parts into the outbound relay payload:
//! a `POST` to a fixed webhook endpoint carrying the non-empty parts of a
//! decoded request as a fresh multipart body.

use vstd::prelude::*;

use crate::server::http::model::{
    encoded, spec_crlf, spec_dec, SpecDataPart, SpecField, SpecFieldSimple,
};
use crate::server::http::{text, ContentType, Request, RequestField};
use crate::server::{Error, SmolServer, SpecServerError};
use vstd::utf8::encode_utf8;

verus! {

/// The boundary the relay declares for its outbound multipart body.
pub open spec fn boundary_chars() -> Seq<char> {
    "-----------------------------MYCOOLBOUNDARY8888"@
}

/// `--boundary` and a line break: the line that opens each outbound part.
pub open spec fn boundary_line_bytes() -> Seq<u8> {
    encode_utf8("--"@ + boundary_chars() + "\r\n"@)
}

/// `--boundary--` and a line break: the line that closes the outbound body.
pub open spec fn closing_line_bytes() -> Seq<u8> {
    encode_utf8("--"@ + boundary_chars() + "--\r\n"@)
}

/// The views of a vector of fields.
pub open spec fn fields_of(v: Seq<RequestField>) -> Seq<SpecField> {
    v.map(|i: int, f: RequestField| f@)
}

/// The first field of the given name, if any.
pub open spec fn find_field(fields: Seq<SpecField>, name: Seq<char>) -> Option<SpecField>
    decreases fields.len(),
{
    if fields.len() == 0 {
        None
    } else if fields[0].this.name == name {
        Some(fields[0])
    } else {
        find_field(fields.drop_first(), name)
    }
}

/// The first attribute of the given name, if any.
pub open spec fn find_child(children: Seq<SpecFieldSimple>, name: Seq<char>) -> Option<
    SpecFieldSimple,
>
    decreases children.len(),
{
    if children.len() == 0 {
        None
    } else if children[0].name == name {
        Some(children[0])
    } else {
        find_child(children.drop_first(), name)
    }
}

pub proof fn lemma_find_field_at(fields: Seq<SpecField>, name: Seq<char>, i: int)
    requires
        0 <= i < fields.len(),
        fields[i].this.name == name,
        forall|j: int| 0 <= j < i ==> fields[j].this.name != name,
    ensures
        find_field(fields, name) == Some(fields[i]),
    decreases i,
{
    if i > 0 {
        assert(fields.drop_first()[i - 1] == fields[i]);
        assert forall|j: int| 0 <= j < i - 1 implies fields.drop_first()[j].this.name != name by {
            assert(fields.drop_first()[j] == fields[j + 1]);
        }
        lemma_find_field_at(fields.drop_first(), name, i - 1);
    }
}

pub proof fn lemma_find_field_none(fields: Seq<SpecField>, name: Seq<char>)
    requires
        forall|j: int| 0 <= j < fields.len() ==> fields[j].this.name != name,
    ensures
        find_field(fields, name) is None,
    decreases fields.len(),
{
    if fields.len() > 0 {
        assert forall|j: int|
            0 <= j < fields.drop_first().len() implies fields.drop_first()[j].this.name
            != name by {
            assert(fields.drop_first()[j] == fields[j + 1]);
        }
        lemma_find_field_none(fields.drop_first(), name);
    }
}

pub proof fn lemma_find_child_at(children: Seq<SpecFieldSimple>, name: Seq<char>, i: int)
    requires
        0 <= i < children.len(),
        children[i].name == name,
        forall|j: int| 0 <= j < i ==> children[j].name != name,
    ensures
        find_child(children, name) == Some(children[i]),
    decreases i,
{
    if i > 0 {
        assert(children.drop_first()[i - 1] == children[i]);
        assert forall|j: int| 0 <= j < i - 1 implies children.drop_first()[j].name != name by {
            assert(children.drop_first()[j] == children[j + 1]);
        }
        lemma_find_child_at(children.drop_first(), name, i - 1);
    }
}

pub proof fn lemma_find_child_none(children: Seq<SpecFieldSimple>, name: Seq<char>)
    requires
        forall|j: int| 0 <= j < children.len() ==> children[j].name != name,
    ensures
        find_child(children, name) is None,
    decreases children.len(),
{
    if children.len() > 0 {
        assert forall|j: int|
            0 <= j < children.drop_first().len() implies children.drop_first()[j].name != name by {
            assert(children.drop_first()[j] == children[j + 1]);
        }
        lemma_find_child_none(children.drop_first(), name);
    }
}

/// What one outbound part needs of its mini-header: a `Content-Disposition`
/// field with a `name` attribute, and, unless the part is the text message,
/// a `filename` attribute.
pub open spec fn encode_data_ready(fields: Seq<SpecField>) -> bool {
    match find_field(fields, "Content-Disposition"@) {
        None => false,
        Some(cd) => match find_child(cd.children, "name"@) {
            None => false,
            Some(nm) => nm.body == "text_message"@ || find_child(cd.children, "filename"@)
                is Some,
        },
    }
}

/// The bytes of one re-encoded part, without its leading boundary line: the
/// rewritten `Content-Disposition`, for a file its content type, a blank
/// line, the payload, and a line break.
pub open spec fn spec_encode_data(fields: Seq<SpecField>, data: Seq<u8>) -> Result<
    Seq<u8>,
    SpecServerError,
>
    recommends
        encode_data_ready(fields),
{
    let cd = find_field(fields, "Content-Disposition"@)->Some_0;
    let name = find_child(cd.children, "name"@)->Some_0.body;
    if name == "text_message"@ {
        Ok(
            encoded("Content-Disposition: form-data; name=\"content\""@) + spec_crlf()
                + spec_crlf() + data + spec_crlf(),
        )
    } else {
        let filename = find_child(cd.children, "filename"@)->Some_0.body;
        match crate::server::spec_extension_content_type(filename) {
            Err(e) => Err(e),
            Ok(ct) => Ok(
                encoded("Content-Disposition: form-data; name=\"files[0]\"; filename=\""@)
                    + encode_utf8(filename) + encoded("\""@) + spec_crlf() + encoded(
                    crate::server::http::model::content_type_text(ct),
                ) + spec_crlf() + spec_crlf() + data + spec_crlf(),
            ),
        }
    }
}

/// The middle of the outbound body: each part with a non-empty payload,
/// opened by a boundary line; empty parts are skipped.
pub open spec fn spec_parts_content(parts: Seq<SpecDataPart>) -> Result<Seq<u8>, SpecServerError>
    decreases parts.len(),
{
    if parts.len() == 0 {
        Ok(Seq::empty())
    } else {
        let rest = spec_parts_content(parts.drop_first());
        if parts[0].data.len() == 0 {
            rest
        } else {
            match spec_encode_data(parts[0].fields, parts[0].data) {
                Err(e) => Err(e),
                Ok(b) => match rest {
                    Err(e) => Err(e),
                    Ok(r) => Ok(boundary_line_bytes() + b + r),
                },
            }
        }
    }
}

pub proof fn lemma_parts_content_concat(a: Seq<SpecDataPart>, b: Seq<SpecDataPart>)
    ensures
        spec_parts_content(a + b) == (match spec_parts_content(a) {
            Err(e) => Err::<Seq<u8>, SpecServerError>(e),
            Ok(ra) => match spec_parts_content(b) {
                Err(e) => Err(e),
                Ok(rb) => Ok(ra + rb),
            },
        }),
    decreases a.len(),
{
    if a.len() == 0 {
        assert(a + b =~= b);
        match spec_parts_content(b) {
            Err(e) => {},
            Ok(rb) => {
                assert(Seq::<u8>::empty() + rb =~= rb);
            },
        }
    } else {
        assert((a + b)[0] == a[0]);
        assert((a + b).drop_first() =~= a.drop_first() + b);
        lemma_parts_content_concat(a.drop_first(), b);
        match spec_parts_content(a.drop_first()) {
            Err(e) => {},
            Ok(ra1) => {
                match spec_parts_content(b) {
                    Err(e) => {},
                    Ok(rb) => {
                        if a[0].data.len() != 0 {
                            match spec_encode_data(a[0].fields, a[0].data) {
                                Err(e) => {},
                                Ok(hb) => {
                                    assert((boundary_line_bytes() + hb + ra1) + rb
                                        =~= boundary_line_bytes() + hb + (ra1 + rb));
                                },
                            }
                        }
                    },
                }
            },
        }
    }
}

/// Every non-empty part of the request can be re-encoded.
pub open spec fn relay_ready(parts: Seq<SpecDataPart>) -> bool {
    forall|i: int|
        0 <= i < parts.len() && parts[i].data.len() > 0 ==> encode_data_ready(
            #[trigger] parts[i].fields,
        )
}

/// The whole outbound message: the `POST` line for the webhook path, the
/// host and content headers, the length of the body, and the body itself —
/// a lone boundary line, the re-encoded parts, and the closing line.
pub open spec fn spec_build_relay_payload(webhook: Seq<char>, req: crate::server::http::model::SpecRequest) -> Result<
    Seq<u8>,
    SpecServerError,
>
    recommends
        relay_ready(req.data),
{
    match spec_parts_content(req.data) {
        Err(e) => Err(e),
        Ok(mid) => {
            let content = boundary_line_bytes() + mid + closing_line_bytes();
            Ok(
                encode_utf8(
                    "POST "@ + webhook
                        + " HTTP/1.1\r\nHost: discord.com\r\nContent-Type: multipart/form-data; boundary=\""@
                        + boundary_chars() + "\"\r\nContent-Length: "@,
                ) + encoded(spec_dec(content.len())) + spec_crlf() + spec_crlf() + content,
            )
        },
    }
}

/// The first field named `name`, by index.
fn find_field_named(fields: &Vec<RequestField>, name: &str) -> (r: Option<usize>)
    ensures
        match r {
            Some(i) => i < fields@.len() && find_field(fields_of(fields@), name@) == Some(
                fields@[i as int]@,
            ),
            None => find_field(fields_of(fields@), name@) is None,
        },
{
    let ghost fs = fields_of(fields@);
    let mut i: usize = 0;
    while i < fields.len()
        invariant
            i <= fields@.len(),
            fs == fields_of(fields@),
            forall|j: int| 0 <= j < i ==> #[trigger] fs[j].this.name != name@,
        decreases fields@.len() - i,
    {
        if text::str_eq(fields[i].this.name.as_str(), name) {
            proof {
                assert(fs[i as int] == fields@[i as int]@);
                lemma_find_field_at(fs, name@, i as int);
            }
            return Some(i);
        }
        proof {
            assert(fs[i as int] == fields@[i as int]@);
        }
        i += 1;
    }
    proof {
        lemma_find_field_none(fs, name@);
    }
    None
}

/// The first attribute named `name`, by index.
fn find_child_named(children: &Vec<crate::server::http::RequestFieldSimple>, name: &str) -> (r:
    Option<usize>)
    ensures
        match r {
            Some(i) => i < children@.len() && find_child(
                children@.map(|k: int, c: crate::server::http::RequestFieldSimple| c@),
                name@,
            ) == Some(children@[i as int]@),
            None => find_child(
                children@.map(|k: int, c: crate::server::http::RequestFieldSimple| c@),
                name@,
            ) is None,
        },
{
    let ghost cs = children@.map(|k: int, c: crate::server::http::RequestFieldSimple| c@);
    let mut i: usize = 0;
    while i < children.len()
        invariant
            i <= children@.len(),
            cs == children@.map(|k: int, c: crate::server::http::RequestFieldSimple| c@),
            forall|j: int| 0 <= j < i ==> #[trigger] cs[j].name != name@,
        decreases children@.len() - i,
    {
        if text::str_eq(children[i].name.as_str(), name) {
            proof {
                assert(cs[i as int] == children@[i as int]@);
                lemma_find_child_at(cs, name@, i as int);
            }
            return Some(i);
        }
        proof {
            assert(cs[i as int] == children@[i as int]@);
        }
        i += 1;
    }
    proof {
        lemma_find_child_none(cs, name@);
    }
    None
}

/// Can this mini-header be re-encoded for the relay?
pub fn part_encodable(fields: &Vec<RequestField>) -> (r: bool)
    ensures
        r == encode_data_ready(fields_of(fields@)),
{
    let cd_idx = match find_field_named(fields, "Content-Disposition") {
        Some(i) => i,
        None => {
            return false;
        },
    };
    let cd = &fields[cd_idx];
    let nm_idx = match find_child_named(&cd.children, "name") {
        Some(i) => i,
        None => {
            return false;
        },
    };
    if text::str_eq(cd.children[nm_idx].body.as_str(), "text_message") {
        true
    } else {
        match find_child_named(&cd.children, "filename") {
            Some(_) => true,
            None => false,
        }
    }
}

/// Re-encode one decoded part for the relay: its `Content-Disposition` is
/// rewritten (`content` for the text message, `files[0]` plus the original
/// file name otherwise), a file part carries its content type, and the
/// payload follows a blank line.
pub fn encode_data(fields: &Vec<RequestField>, data: &[u8]) -> (r: Result<Vec<u8>, Error>)
    requires
        encode_data_ready(fields_of(fields@)),
    ensures
        match spec_encode_data(fields_of(fields@), data@) {
            Ok(b) => r is Ok && r->Ok_0@ == b,
            Err(e) => r is Err && r->Err_0@ == e,
        },
{
    let cd_idx = match find_field_named(fields, "Content-Disposition") {
        Some(i) => i,
        None => {
            proof {
                assert(false);
            }
            return Err(Error::Unimplemented);
        },
    };
    let cd = &fields[cd_idx];
    let nm_idx = match find_child_named(&cd.children, "name") {
        Some(i) => i,
        None => {
            proof {
                assert(false);
            }
            return Err(Error::Unimplemented);
        },
    };
    if text::str_eq(cd.children[nm_idx].body.as_str(), "text_message") {
        let lead = "Content-Disposition: form-data; name=\"content\"";
        proof {
            reveal_strlit("Content-Disposition: form-data; name=\"content\"");
            assert(lead.is_ascii());
        }
        let mut out = text::ascii_bytes(lead);
        out.push(13);
        out.push(10);
        out.push(13);
        out.push(10);
        let mut d = vstd::slice::slice_to_vec(data);
        out.append(&mut d);
        out.push(13);
        out.push(10);
        proof {
            assert(out@ =~= spec_encode_data(fields_of(fields@), data@)->Ok_0);
        }
        Ok(out)
    } else {
        let fn_idx = match find_child_named(&cd.children, "filename") {
            Some(i) => i,
            None => {
                proof {
                    assert(false);
                }
                return Err(Error::Unimplemented);
            },
        };
        let filename = &cd.children[fn_idx].body;
        let content_type = match SmolServer::extension_content_type(filename.as_str()) {
            Ok(ct) => ct,
            Err(e) => {
                return Err(e);
            },
        };
        let lead = "Content-Disposition: form-data; name=\"files[0]\"; filename=\"";
        proof {
            reveal_strlit("Content-Disposition: form-data; name=\"files[0]\"; filename=\"");
            assert(lead.is_ascii());
        }
        let mut out = text::ascii_bytes(lead);
        let mut fb = vstd::slice::slice_to_vec(filename.as_str().as_bytes());
        out.append(&mut fb);
        out.push(34);
        out.push(13);
        out.push(10);
        let mut ctb = content_type.as_bytes();
        out.append(&mut ctb);
        out.push(13);
        out.push(10);
        out.push(13);
        out.push(10);
        let mut d = vstd::slice::slice_to_vec(data);
        out.append(&mut d);
        out.push(13);
        out.push(10);
        proof {
            reveal_strlit("\"");
            assert(encoded("\""@) =~= seq![34u8]);
            assert(out@ =~= spec_encode_data(fields_of(fields@), data@)->Ok_0);
        }
        Ok(out)
    }
}

/// Build the whole outbound `POST` for the webhook from a decoded request.
#[verifier::loop_isolation(false)]
#[verifier::rlimit(60)]
pub fn build_relay_payload(webhook_url: &str, request: &Request) -> (r: Result<Vec<u8>, Error>)
    requires
        relay_ready(request@.data),
    ensures
        match spec_build_relay_payload(webhook_url@, request@) {
            Ok(b) => r is Ok && r->Ok_0@ == b,
            Err(e) => r is Err && r->Err_0@ == e,
        },
{
    let boundary = "-----------------------------MYCOOLBOUNDARY8888";
    let mut bl_string = String::from_str("--");
    bl_string.append(boundary);
    bl_string.append("\r\n");
    let bl = vstd::slice::slice_to_vec(bl_string.as_str().as_bytes());
    proof {
        assert(bl@ == boundary_line_bytes());
    }
    let mut content = vstd::slice::slice_to_vec(bl_string.as_str().as_bytes());
    let ghost parts = request@.data;
    let mut i: usize = 0;
    while i < request.data.len()
        invariant
            i <= request.data@.len(),
            parts == request@.data,
            bl@ == boundary_line_bytes(),
            spec_parts_content(parts.take(i as int)) is Ok,
            content@ == boundary_line_bytes() + spec_parts_content(parts.take(i as int))->Ok_0,
        decreases request.data@.len() - i,
    {
        let part = &request.data[i];
        proof {
            assert(part@ == parts[i as int]);
            lemma_parts_content_concat(parts.take(i as int), seq![parts[i as int]]);
            assert(parts.take(i as int) + seq![parts[i as int]] =~= parts.take(i + 1));
            assert(seq![parts[i as int]].drop_first() =~= Seq::<SpecDataPart>::empty());
        }
        if part.data.len() > 0 {
            proof {
                assert(encode_data_ready(parts[i as int].fields));
                assert(fields_of(part.fields@) =~= parts[i as int].fields);
            }
            let encoded_part = match encode_data(&part.fields, part.data.as_slice()) {
                Ok(b) => b,
                Err(e) => {
                    proof {
                        let tail = parts.skip(i as int);
                        lemma_parts_content_concat(parts.take(i as int), tail);
                        assert(parts.take(i as int) + tail =~= parts);
                        assert(tail[0] == parts[i as int]);
                        assert(spec_encode_data(tail[0].fields, tail[0].data) == spec_encode_data(
                            fields_of(part.fields@),
                            part.data@,
                        ));
                        assert(spec_parts_content(tail) == Err::<Seq<u8>, SpecServerError>(e@));
                    }
                    return Err(e);
                },
            };
            let ghost one = seq![parts[i as int]];
            proof {
                assert(one[0] == parts[i as int]);
                assert(one.drop_first() =~= Seq::<SpecDataPart>::empty());
                assert(spec_parts_content(Seq::<SpecDataPart>::empty()) == Ok::<
                    Seq<u8>,
                    SpecServerError,
                >(Seq::empty()));
                assert(spec_encode_data(parts[i as int].fields, parts[i as int].data)
                    == spec_encode_data(fields_of(part.fields@), part.data@));
                assert(spec_parts_content(one) == Ok::<Seq<u8>, SpecServerError>(
                    boundary_line_bytes() + spec_encode_data(
                        parts[i as int].fields,
                        parts[i as int].data,
                    )->Ok_0 + Seq::<u8>::empty(),
                ));
            }
            let mut blc = vstd::slice::slice_to_vec(bl.as_slice());
            content.append(&mut blc);
            let mut ep = encoded_part;
            content.append(&mut ep);
            proof {
                assert(content@ =~= boundary_line_bytes() + spec_parts_content(
                    parts.take(i + 1),
                )->Ok_0);
            }
        } else {
            proof {
                assert(spec_parts_content(parts.take(i + 1)) == spec_parts_content(
                    parts.take(i as int),
                ));
            }
        }
        i += 1;
    }
    proof {
        assert(parts.take(parts.len() as int) =~= parts);
    }
    let mut closing_string = String::from_str("--");
    closing_string.append(boundary);
    closing_string.append("--\r\n");
    let mut closing = vstd::slice::slice_to_vec(closing_string.as_str().as_bytes());
    proof {
        assert(closing@ == closing_line_bytes());
    }
    content.append(&mut closing);
    let ghost content_spec = boundary_line_bytes() + spec_parts_content(parts)->Ok_0
        + closing_line_bytes();
    proof {
        assert(content@ =~= content_spec);
    }
    let mut head = String::from_str("POST ");
    head.append(webhook_url);
    head.append(" HTTP/1.1\r\nHost: discord.com\r\nContent-Type: multipart/form-data; boundary=\"");
    head.append(boundary);
    head.append("\"\r\nContent-Length: ");
    let mut out = vstd::slice::slice_to_vec(head.as_str().as_bytes());
    let mut digits = text::dec_bytes(content.len());
    out.append(&mut digits);
    out.push(13);
    out.push(10);
    out.push(13);
    out.push(10);
    out.append(&mut content);
    proof {
        assert(out@ =~= spec_build_relay_payload(webhook_url@, request@)->Ok_0);
    }
    Ok(out)
}

} // verus!
