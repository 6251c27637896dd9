//! HTTP/1.1 request decoding and response framing.
//!
//! The decoder is resumable: [`PartialRequest::parse`] consumes an optional
//! in-progress request, a mutable parse state and one new chunk of bytes, and
//! yields either a completed [`Request`] or a partial one to be carried into
//! the next chunk.  Its behaviour is specified exactly by the functions in
//! [`model`].

pub mod laws;
pub mod model;
pub mod text;

use vstd::prelude::*;

use crate::server::http::model::{
    SpecDataPart, SpecField, SpecFieldSimple, SpecHeader, SpecRequest, SpecRequestError,
    SpecRequestState,
};

verus! {

/// The one error this module reports: a protocol error from the decoder.
#[derive(Debug)]
pub enum Error {
    Request(RequestError),
}

impl View for Error {
    type V = SpecRequestError;

    open spec fn view(&self) -> SpecRequestError {
        match self {
            Error::Request(e) => e@,
        }
    }
}

/// The description of each protocol error.
pub open spec fn spec_error_message(e: SpecRequestError) -> Seq<char> {
    match e {
        SpecRequestError::HeaderMissing => "no header line"@,
        SpecRequestError::RequestTypeMissing => "request type missing"@,
        SpecRequestError::UnknownRequestType(x) => "unknown request type ("@ + x + ")"@,
        SpecRequestError::BodyMissing => "request header is missing body"@,
        SpecRequestError::VersionMissing => "request header missing version"@,
        SpecRequestError::MalformedVersion => "request header version is malformed"@,
        SpecRequestError::InvalidMajor => "major version number is malformed"@,
        SpecRequestError::UnsupportedMajor => "major version must be 1"@,
        SpecRequestError::InvalidMinor => "minor version number is malformed"@,
        SpecRequestError::FieldError(x) => "error parsing field ("@ + x + ")"@,
        SpecRequestError::MultipartNoBoundary => "multipart request doesnt have a boundary"@,
    }
}

impl Error {
    /// The human-readable description of this error.
    pub fn message(&self) -> (r: String)
        ensures
            r@ == spec_error_message(self@),
    {
        match self {
            Error::Request(e) => e.message(),
        }
    }
}

/// Everything that can go wrong while decoding a request.
#[derive(Debug)]
pub enum RequestError {
    HeaderMissing,
    RequestTypeMissing,
    UnknownRequestType(String),
    BodyMissing,
    VersionMissing,
    MalformedVersion,
    InvalidMajor,
    UnsupportedMajor,
    InvalidMinor,
    FieldError(String),
    MultipartNoBoundary,
}

impl View for RequestError {
    type V = SpecRequestError;

    open spec fn view(&self) -> SpecRequestError {
        match self {
            RequestError::HeaderMissing => SpecRequestError::HeaderMissing,
            RequestError::RequestTypeMissing => SpecRequestError::RequestTypeMissing,
            RequestError::UnknownRequestType(t) => SpecRequestError::UnknownRequestType(t@),
            RequestError::BodyMissing => SpecRequestError::BodyMissing,
            RequestError::VersionMissing => SpecRequestError::VersionMissing,
            RequestError::MalformedVersion => SpecRequestError::MalformedVersion,
            RequestError::InvalidMajor => SpecRequestError::InvalidMajor,
            RequestError::UnsupportedMajor => SpecRequestError::UnsupportedMajor,
            RequestError::InvalidMinor => SpecRequestError::InvalidMinor,
            RequestError::FieldError(t) => SpecRequestError::FieldError(t@),
            RequestError::MultipartNoBoundary => SpecRequestError::MultipartNoBoundary,
        }
    }
}

impl RequestError {
    /// The human-readable description of this error.
    pub fn message(&self) -> (r: String)
        ensures
            r@ == spec_error_message(self@),
    {
        match self {
            RequestError::HeaderMissing => String::from_str("no header line"),
            RequestError::RequestTypeMissing => String::from_str("request type missing"),
            RequestError::UnknownRequestType(x) => {
                let mut s = String::from_str("unknown request type (");
                s.append(x.as_str());
                s.append(")");
                s
            },
            RequestError::BodyMissing => String::from_str("request header is missing body"),
            RequestError::VersionMissing => String::from_str("request header missing version"),
            RequestError::MalformedVersion => String::from_str(
                "request header version is malformed",
            ),
            RequestError::InvalidMajor => String::from_str("major version number is malformed"),
            RequestError::UnsupportedMajor => String::from_str("major version must be 1"),
            RequestError::InvalidMinor => String::from_str("minor version number is malformed"),
            RequestError::FieldError(x) => {
                let mut s = String::from_str("error parsing field (");
                s.append(x.as_str());
                s.append(")");
                s
            },
            RequestError::MultipartNoBoundary => String::from_str(
                "multipart request doesnt have a boundary",
            ),
        }
    }
}

/// HTTP method of a request line; any other verb is a hard parse error.
#[derive(Debug, Clone, Copy, PartialEq, Eq, Structural)]
pub enum RequestType {
    Post,
    Get,
}

/// A parsed request line: method, raw target path, version digits.
#[derive(Debug)]
pub struct RequestHeader {
    pub request: RequestType,
    pub body: String,
    pub version_major: u8,
    pub version_minor: u8,
}

impl View for RequestHeader {
    type V = SpecHeader;

    open spec fn view(&self) -> SpecHeader {
        SpecHeader {
            request: self.request,
            body: self.body@,
            version_major: self.version_major,
            version_minor: self.version_minor,
        }
    }
}

/// A bare `name`/`value` pair.
#[derive(Debug, Clone)]
pub struct RequestFieldSimple {
    pub name: String,
    pub body: String,
}

impl View for RequestFieldSimple {
    type V = SpecFieldSimple;

    open spec fn view(&self) -> SpecFieldSimple {
        SpecFieldSimple { name: self.name@, body: self.body@ }
    }
}

/// A header field together with its `;`-separated attributes.
#[derive(Debug, Clone)]
pub struct RequestField {
    pub this: RequestFieldSimple,
    pub children: Vec<RequestFieldSimple>,
}

impl View for RequestField {
    type V = SpecField;

    open spec fn view(&self) -> SpecField {
        SpecField {
            this: self.this@,
            children: self.children@.map(|i: int, c: RequestFieldSimple| c@),
        }
    }
}

/// One multipart body segment: its mini-header fields and raw payload.
#[derive(Debug)]
pub struct DataPart {
    pub fields: Vec<RequestField>,
    pub data: Vec<u8>,
}

impl View for DataPart {
    type V = SpecDataPart;

    open spec fn view(&self) -> SpecDataPart {
        SpecDataPart {
            fields: self.fields@.map(|i: int, f: RequestField| f@),
            data: self.data@,
        }
    }
}

impl DataPart {
    /// A fresh, empty part.
    pub fn new() -> (r: Self)
        ensures
            r@ == (SpecDataPart { fields: Seq::empty(), data: Seq::empty() }),
    {
        let r = Self { fields: Vec::new(), data: Vec::new() };
        proof {
            assert(r@ =~~= (SpecDataPart { fields: Seq::empty(), data: Seq::empty() }));
        }
        r
    }
}

/// The carry state of an unfinished multipart decode.
#[derive(Debug)]
pub struct RequestState {
    boundary: Option<String>,
    is_data_part: bool,
    is_data_part_header: bool,
    data: Vec<DataPart>,
}

impl View for RequestState {
    type V = SpecRequestState;

    closed spec fn view(&self) -> SpecRequestState {
        SpecRequestState {
            boundary: match self.boundary {
                Some(b) => Some(b@),
                None => None,
            },
            is_data_part: self.is_data_part,
            is_data_part_header: self.is_data_part_header,
            data: self.data@.map(|i: int, p: DataPart| p@),
        }
    }
}

impl Default for RequestState {
    /// The state a fresh request starts from.
    fn default() -> (r: Self)
        ensures
            r@ == model::spec_state_default(),
    {
        let r = RequestState {
            boundary: None,
            is_data_part: false,
            is_data_part_header: false,
            data: Vec::new(),
        };
        proof {
            assert(r@.data =~= model::spec_state_default().data);
            assert(r@ =~= model::spec_state_default());
        }
        r
    }
}

/// A decoded request: the request line, the top-level header fields, and the
/// multipart body parts (empty unless the request was multipart).
#[derive(Debug)]
pub struct Request {
    pub header: RequestHeader,
    pub fields: Vec<RequestField>,
    pub data: Vec<DataPart>,
}

impl View for Request {
    type V = SpecRequest;

    open spec fn view(&self) -> SpecRequest {
        SpecRequest {
            header: self.header@,
            fields: self.fields@.map(|i: int, f: RequestField| f@),
            data: self.data@.map(|i: int, p: DataPart| p@),
        }
    }
}

/// The result of decoding one chunk: the accumulated request, and whether
/// more chunks are needed to finish it.
#[derive(Debug)]
pub struct PartialRequest {
    pub is_partial: bool,
    pub request: Request,
}

/// The view of an optional carried request.
pub open spec fn carried_view(r: Option<Request>) -> Option<SpecRequest> {
    match r {
        Some(x) => Some(x@),
        None => None,
    }
}

impl Request {
    /// Split `text` at the first `:` (or, failing that, the first `=`) into a
    /// name and a trimmed, unquoted value.
    pub fn parse_arg(text: &str) -> (r: Result<RequestFieldSimple, RequestError>)
        ensures
            match model::spec_parse_arg(text@) {
                Some(f) => r is Ok && r->Ok_0@ == f,
                None => r is Err && r->Err_0@ == SpecRequestError::FieldError(text@),
            },
    {
        let delim = match text::find_char(text, ':') {
            Some(i) => Some(i),
            None => text::find_char(text, '='),
        };
        match delim {
            None => Err(RequestError::FieldError(String::from_str(text))),
            Some(i) => {
                proof {
                    model::lemma_spec_find(text@, ':');
                    model::lemma_spec_find(text@, '=');
                }
                let n = text.unicode_len();
                let name = String::from_str(text.substring_char(0, i));
                let trimmed = text::trim_str(text.substring_char(i + 1, n));
                let tl = trimmed.unicode_len();
                let body_str = if tl >= 2 && trimmed.get_char(0) == '"' && trimmed.get_char(
                    tl - 1,
                ) == '"' {
                    trimmed.substring_char(1, tl - 1)
                } else {
                    trimmed
                };
                Ok(RequestFieldSimple { name, body: String::from_str(body_str) })
            },
        }
    }

    /// Does `line` read `--` followed by exactly the current boundary?
    #[verifier::loop_isolation(false)]
    fn boundary_matches(state: &RequestState, line: &[u8]) -> (r: bool)
        ensures
            r == model::is_boundary_line(state@, line@),
    {
        match &state.boundary {
            None => false,
            Some(b) => {
                let blen = b.as_str().unicode_len();
                let ll = line.len();
                if ll < 2 {
                    return false;
                }
                if *vstd::slice::slice_index_get(line, 0) != 45 || *vstd::slice::slice_index_get(
                    line,
                    1,
                ) != 45 {
                    return false;
                }
                if ll - 2 < blen {
                    return false;
                }
                let ghost sub = line@.subrange(2, 2 + b@.len() as int);
                proof {
                    assert(model::decoded(sub).len() == sub.len());
                }
                let mut j: usize = 0;
                while j < blen
                    invariant
                        j <= blen,
                        blen == b@.len(),
                        ll == line@.len(),
                        ll - 2 >= blen,
                        forall|k: int| 0 <= k < j ==> (line@[2 + k] as char) == b@[k],
                    decreases blen - j,
                {
                    let c = *vstd::slice::slice_index_get(line, 2 + j);
                    if (c as char) != b.as_str().get_char(j) {
                        proof {
                            assert(sub[j as int] == line@[2 + j]);
                            assert(model::decoded(sub)[j as int] == (sub[j as int] as char));
                            assert(model::decoded(sub) != b@);
                        }
                        return false;
                    }
                    j += 1;
                }
                proof {
                    assert forall|k: int| 0 <= k < sub.len() implies model::decoded(sub)[k]
                        == b@[k] by {
                        assert(sub[k] == line@[2 + k]);
                        assert(model::decoded(sub)[k] == (sub[k] as char));
                    }
                    assert(model::decoded(sub) =~= b@);
                }
                true
            },
        }
    }

    /// Feed one line to the classifier.  `None` means the line was consumed
    /// internally (a boundary, a part's mini-header or payload, or a blank
    /// separator); `Some(Ok(..))` is a top-level field; `Some(Err(..))` is a
    /// fatal protocol error.
    #[verifier::loop_isolation(false)]
    pub fn parse_single(state: &mut RequestState, line: &[u8]) -> (r: Option<
        Result<RequestField, RequestError>,
    >)
        ensures
            match model::spec_parse_single(old(state)@, line@) {
                Ok((fo, st)) => {
                    &&& final(state)@ == st
                    &&& match fo {
                        Some(f) => r is Some && r->Some_0 is Ok && r->Some_0->Ok_0@ == f,
                        None => r is None,
                    }
                },
                Err(e) => {
                    &&& r is Some
                    &&& r->Some_0 is Err
                    &&& r->Some_0->Err_0@ == e
                    &&& final(state)@ == old(state)@
                },
            },
    {
        let ghost st0 = state@;
        if Self::boundary_matches(state, line) {
            let blen = match &state.boundary {
                Some(b) => b.as_str().unicode_len(),
                None => 0,
            };
            let ll = line.len();
            let ghost rest = line@.subrange(2 + st0.boundary->Some_0.len() as int, ll as int);
            let closing = ll - 2 - blen >= 2 && *vstd::slice::slice_index_get(line, 2 + blen)
                == 45 && *vstd::slice::slice_index_get(line, 2 + blen + 1) == 45;
            proof {
                assert(rest.len() == ll - 2 - blen);
                if rest.len() >= 2 {
                    assert(rest[0] == line@[2 + blen]);
                    assert(rest[1] == line@[2 + blen + 1]);
                }
            }
            if state.data.len() > 0 {
                match state.data.pop() {
                    Some(mut part) => {
                        let ghost part0 = part@;
                        let pl = part.data.len();
                        let trim = pl >= 2 && *vstd::slice::slice_index_get(
                            part.data.as_slice(),
                            pl - 2,
                        ) == 13 && *vstd::slice::slice_index_get(part.data.as_slice(), pl - 1)
                            == 10;
                        proof {
                            if model::ends_with(part0.data, model::spec_crlf()) {
                                assert(part0.data.subrange(
                                    part0.data.len() - 2,
                                    part0.data.len() as int,
                                )[0] == part0.data[part0.data.len() - 2]);
                                assert(part0.data.subrange(
                                    part0.data.len() - 2,
                                    part0.data.len() as int,
                                )[1] == part0.data[part0.data.len() - 1]);
                            }
                            if pl >= 2 && part0.data[pl - 2] == 13 && part0.data[pl - 1] == 10 {
                                assert(part0.data.subrange(pl - 2, pl as int) =~= model::spec_crlf());
                            }
                        }
                        if trim {
                            part.data.truncate(pl - 2);
                        }
                        proof {
                            assert(part@ =~~= model::trim_part_crlf(part0));
                        }
                        state.data.push(part);
                        proof {
                            assert(state@.data =~~= model::trim_last_crlf(st0).data);
                        }
                    },
                    None => {},
                }
            }
            proof {
                assert(state@ =~~= model::trim_last_crlf(st0));
            }
            let ghost st1 = model::trim_last_crlf(st0);
            if !closing {
                state.data.push(DataPart::new());
                state.is_data_part_header = true;
            } else {
                state.is_data_part_header = false;
            }
            state.is_data_part = !closing;
            proof {
                if !closing {
                    assert(state@.data =~~= st1.data.push(
                        SpecDataPart { fields: Seq::empty(), data: Seq::empty() },
                    ));
                }
                assert(state@ =~~= model::spec_parse_single(st0, line@)->Ok_0.1);
            }
            return None;
        }
        if state.is_data_part {
            if state.is_data_part_header {
                let ll = line.len();
                if ll == 2 && *vstd::slice::slice_index_get(line, 0) == 13
                    && *vstd::slice::slice_index_get(line, 1) == 10 {
                    state.is_data_part_header = false;
                    proof {
                        assert(line@ =~= model::spec_crlf());
                        assert(state@ =~~= model::spec_parse_single(st0, line@)->Ok_0.1);
                    }
                    return None;
                }
                proof {
                    assert(line@ != model::spec_crlf());
                }
                let parsed = match Self::parse_normal(state, line) {
                    Ok(x) => x,
                    Err(e) => {
                        return Some(Err(e));
                    },
                };
                let ghost st1 = state@;
                if state.data.len() > 0 {
                    match state.data.pop() {
                        Some(mut part) => {
                            part.fields.push(parsed);
                            state.data.push(part);
                        },
                        None => {},
                    }
                }
                proof {
                    assert(state@.data =~~= model::push_field_to_last(st1, parsed@).data);
                    assert(state@ =~~= model::spec_parse_single(st0, line@)->Ok_0.1);
                }
                return None;
            }
            let ghost st1 = state@;
            if state.data.len() > 0 {
                match state.data.pop() {
                    Some(mut part) => {
                        let mut tail = vstd::slice::slice_to_vec(line);
                        part.data.append(&mut tail);
                        state.data.push(part);
                    },
                    None => {},
                }
            }
            proof {
                assert(state@.data =~~= model::append_to_last(st1, line@).data);
                assert(state@ =~~= model::spec_parse_single(st0, line@)->Ok_0.1);
            }
            return None;
        }
        let ll = line.len();
        let has_crlf = ll >= 2 && *vstd::slice::slice_index_get(line, ll - 2) == 13
            && *vstd::slice::slice_index_get(line, ll - 1) == 10;
        proof {
            if model::ends_with(line@, model::spec_crlf()) {
                assert(line@.subrange(ll - 2, ll as int)[0] == line@[ll - 2]);
                assert(line@.subrange(ll - 2, ll as int)[1] == line@[ll - 1]);
            }
            if has_crlf {
                assert(line@.subrange(ll - 2, ll as int) =~= model::spec_crlf());
            }
        }
        let stripped: &[u8] = if has_crlf {
            vstd::slice::slice_subrange(line, 0, ll - 2)
        } else {
            line
        };
        if stripped.len() == 0 {
            return None;
        }
        match Self::parse_normal(state, stripped) {
            Ok(f) => Some(Ok(f)),
            Err(e) => Some(Err(e)),
        }
    }

    /// Parse one whole header line: the pair itself, then the value split
    /// into `;`-separated attributes (never for `User-Agent`).  A
    /// `Content-Type` whose value starts with `multipart` installs its first
    /// attribute as the multipart boundary.
    #[verifier::loop_isolation(false)]
    pub fn parse_normal(state: &mut RequestState, line: &[u8]) -> (r: Result<
        RequestField,
        RequestError,
    >)
        ensures
            match model::spec_parse_normal(old(state)@, line@) {
                Ok((f, st)) => r is Ok && r->Ok_0@ == f && final(state)@ == st,
                Err(e) => r is Err && r->Err_0@ == e && final(state)@ == old(state)@,
            },
    {
        let line_string = text::decode_latin1(line);
        let simple = match Self::parse_arg(line_string.as_str()) {
            Ok(x) => x,
            Err(e) => {
                return Err(e);
            },
        };
        if text::str_eq(simple.name.as_str(), "User-Agent") {
            let field = RequestField { this: simple, children: Vec::new() };
            proof {
                assert(field@.children =~= Seq::<SpecFieldSimple>::empty());
            }
            return Ok(field);
        }
        let ghost segs_spec = model::trimmed_segments(simple.body@);
        let segs: Vec<String> = text::split_trim(simple.body.as_str(), ';');
        proof {
            model::lemma_split_len(simple.body@, ';');
            assert forall|i: int| 0 <= i < segs@.len() implies segs@[i]@ == segs_spec[i] by {
                assert(segs@[i]@ == model::spec_trim(model::spec_split(simple.body@, ';')[i]));
            }
        }
        let body = segs[0].clone();
        let mut children: Vec<RequestFieldSimple> = Vec::new();
        let mut idx: usize = 1;
        proof {
            assert(segs_spec.subrange(1, 1) =~= Seq::<Seq<char>>::empty());
            assert(children@.map(|i: int, c: RequestFieldSimple| c@) =~= Seq::<
                SpecFieldSimple,
            >::empty());
        }
        while idx < segs.len()
            invariant
                1 <= idx <= segs@.len(),
                segs@.len() == segs_spec.len(),
                forall|i: int| 0 <= i < segs@.len() ==> segs@[i]@ == segs_spec[i],
                model::spec_parse_children(segs_spec.subrange(1, idx as int)) == Ok::<
                    _,
                    SpecRequestError,
                >(children@.map(|i: int, c: RequestFieldSimple| c@)),
            decreases segs@.len() - idx,
        {
            let seg = &segs[idx];
            let ghost prefix = segs_spec.subrange(1, idx as int);
            let ghost old_children = children@.map(|i: int, c: RequestFieldSimple| c@);
            match Self::parse_arg(seg.as_str()) {
                Ok(f) => {
                    children.push(f);
                    proof {
                        assert(segs@[idx as int]@ == segs_spec[idx as int]);
                        let one = seq![segs_spec[idx as int]];
                        model::lemma_parse_children_concat(prefix, one);
                        assert(one[0] == segs_spec[idx as int]);
                        assert(model::spec_parse_arg(one[0]) == Some(f@));
                        assert(one.drop_first() =~= Seq::<Seq<char>>::empty());
                        assert(model::spec_parse_children(one.drop_first()) == Ok::<
                            _,
                            SpecRequestError,
                        >(Seq::<SpecFieldSimple>::empty()));
                        assert(model::spec_parse_children(one) == Ok::<_, SpecRequestError>(
                            seq![f@] + Seq::<SpecFieldSimple>::empty(),
                        ));
                        assert(prefix + one =~= segs_spec.subrange(1, idx + 1));
                        assert(children@.map(|i: int, c: RequestFieldSimple| c@) =~= old_children
                            + (seq![f@] + Seq::<SpecFieldSimple>::empty()));
                    }
                },
                Err(e) => {
                    proof {
                        assert(segs@[idx as int]@ == segs_spec[idx as int]);
                        let tail = segs_spec.subrange(idx as int, segs_spec.len() as int);
                        model::lemma_parse_children_concat(prefix, tail);
                        assert(prefix + tail =~= segs_spec.drop_first());
                        assert(tail[0] == segs_spec[idx as int]);
                        assert(model::spec_parse_arg(tail[0]) is None);
                        assert(model::spec_parse_children(tail) == Err::<
                            Seq<SpecFieldSimple>,
                            _,
                        >(SpecRequestError::FieldError(tail[0])));
                        assert(model::spec_parse_children(segs_spec.drop_first()) == Err::<
                            Seq<SpecFieldSimple>,
                            _,
                        >(SpecRequestError::FieldError(tail[0])));
                        assert(model::spec_parse_arg(model::decoded(line@)) == Some(simple@));
                        assert(simple@.name != "User-Agent"@);
                        assert(model::trimmed_segments(simple@.body) == segs_spec);
                        assert(e@ == SpecRequestError::FieldError(tail[0]));
                        assert(model::spec_parse_normal(old(state)@, line@) == Err::<
                            (SpecField, SpecRequestState),
                            _,
                        >(e@));
                    }
                    return Err(e);
                },
            }
            idx += 1;
        }
        proof {
            assert(segs_spec.subrange(1, segs_spec.len() as int) =~= segs_spec.drop_first());
        }
        let is_multipart_ct = text::str_eq(simple.name.as_str(), "Content-Type")
            && text::str_starts_with(body.as_str(), "multipart");
        if is_multipart_ct {
            if children.len() == 0 {
                return Err(RequestError::MultipartNoBoundary);
            }
            state.boundary = Some(children[0].body.clone());
        }
        let field = RequestField {
            this: RequestFieldSimple { name: simple.name, body },
            children,
        };
        Ok(field)
    }
}

impl PartialRequest {
    /// Parse a request line into an empty request carrying only its header.
    pub fn parse_non_partial(header: &[u8]) -> (r: Result<Request, Error>)
        ensures
            match model::spec_parse_request_line(header@) {
                Ok(h) => r is Ok && r->Ok_0@ == (SpecRequest {
                    header: h,
                    fields: Seq::empty(),
                    data: Seq::empty(),
                }),
                Err(e) => r is Err && r->Err_0@ == e,
            },
    {
        let line_string = text::decode_latin1(header);
        let s = line_string.as_str();
        let n = s.unicode_len();
        let ghost whole = model::decoded(header@);
        let has_crlf = n >= 2 && s.get_char(n - 2) == '\r' && s.get_char(n - 1) == '\n';
        proof {
            if model::ends_with(whole, seq!['\r', '\n']) {
                assert(whole.subrange(n - 2, n as int)[0] == whole[n - 2]);
                assert(whole.subrange(n - 2, n as int)[1] == whole[n - 1]);
            }
            if has_crlf {
                assert(whole.subrange(n - 2, n as int) =~= seq!['\r', '\n']);
            }
        }
        let stripped = if has_crlf {
            s.substring_char(0, n - 2)
        } else {
            s
        };
        let tokens = text::split_str(stripped, ' ');
        proof {
            model::lemma_split_len(stripped@, ' ');
        }
        let ghost toks = model::spec_split(stripped@, ' ');
        let t0 = &tokens[0];
        let is_get = text::str_eq(t0.as_str(), "GET");
        let is_post = text::str_eq(t0.as_str(), "POST");
        if !is_get && !is_post {
            return Err(Error::Request(RequestError::UnknownRequestType(t0.clone())));
        }
        let request = if is_get {
            RequestType::Get
        } else {
            RequestType::Post
        };
        if tokens.len() < 2 {
            return Err(Error::Request(RequestError::BodyMissing));
        }
        if tokens.len() < 3 {
            return Err(Error::Request(RequestError::VersionMissing));
        }
        let body = tokens[1].clone();
        let v = &tokens[2];
        let vs = v.as_str();
        let vn = vs.unicode_len();
        if vn != 8 {
            return Err(Error::Request(RequestError::MalformedVersion));
        }
        if !text::str_starts_with(vs, "HTTP/") {
            proof {
                reveal_strlit("HTTP/");
                assert(toks[2].subrange(0, 5) != "HTTP/"@);
            }
            return Err(Error::Request(RequestError::MalformedVersion));
        }
        proof {
            reveal_strlit("HTTP/");
            assert(vs@.subrange(0, 5) =~= "HTTP/"@);
        }
        let c5 = vs.get_char(5);
        let d5 = c5 as u32;
        proof {
            assert(model::is_digit(c5) == (48 <= d5 <= 57));
        }
        if d5 < 48 || d5 > 57 {
            return Err(Error::Request(RequestError::InvalidMajor));
        }
        if d5 != 49 {
            return Err(Error::Request(RequestError::UnsupportedMajor));
        }
        let c7 = vs.get_char(7);
        let d7 = c7 as u32;
        proof {
            assert(model::is_digit(c7) == (48 <= d7 <= 57));
        }
        if d7 < 48 || d7 > 57 {
            return Err(Error::Request(RequestError::InvalidMinor));
        }
        let minor: u8 = (d7 - 48) as u8;
        let req = Request {
            header: RequestHeader { request, body, version_major: 1, version_minor: minor },
            fields: Vec::new(),
            data: Vec::new(),
        };
        proof {
            assert(req@ =~~= (SpecRequest {
                header: model::spec_parse_request_line(header@)->Ok_0,
                fields: Seq::empty(),
                data: Seq::empty(),
            }));
        }
        Ok(req)
    }

    /// Decode one chunk.  Without a carried request the state is reset and
    /// the chunk must open with a request line; with one, every line of the
    /// chunk is continuation data.  The result says whether the request
    /// still waits for more chunks.
    #[verifier::loop_isolation(false)]
    #[verifier::rlimit(100)]
    pub fn parse(partial: Option<Request>, state: &mut RequestState, s: &[u8]) -> (r: Result<
        Self,
        Error,
    >)
        ensures
            match model::spec_decode(carried_view(partial), old(state)@, s@) {
                Ok(d) => r is Ok && r->Ok_0.request@ == d.request && r->Ok_0.is_partial
                    == d.is_partial && final(state)@ == d.state,
                Err(e) => r is Err && r->Err_0@ == e,
            },
    {
        let ghost carried0 = carried_view(partial);
        let total = s.len();
        let mut request: Request;
        let mut pos: usize;
        match partial {
            Some(req) => {
                request = req;
                pos = 0;
            },
            None => {
                *state = RequestState::default();
                if total == 0 {
                    proof {
                        assert(model::spec_lines(s@).len() == 0);
                    }
                    return Err(Error::Request(RequestError::HeaderMissing));
                }
                let first_end = match text::find_byte(s, 0, 10) {
                    Some(i) => i + 1,
                    None => total,
                };
                proof {
                    model::lemma_spec_find(s@.skip(0), 10u8);
                    assert(s@.skip(0) =~= s@);
                    model::lemma_lines_step(s@, 0, first_end as int);
                    assert(s@.subrange(0, first_end as int) == model::spec_lines(s@)[0]);
                }
                let header_line = vstd::slice::slice_subrange(s, 0, first_end);
                request = match Self::parse_non_partial(header_line) {
                    Ok(x) => x,
                    Err(e) => {
                        return Err(e);
                    },
                };
                pos = first_end;
                proof {
                    assert(model::spec_lines(s@).drop_first() =~= model::spec_lines(s@.skip(
                        pos as int,
                    )));
                }
            },
        }
        let ghost target = model::spec_feed(request@, state@, model::spec_lines(s@.skip(
            pos as int,
        )));
        proof {
            match carried0 {
                Some(r0) => {
                    assert(s@.skip(0) =~= s@);
                    assert(target == model::spec_feed(r0, old(state)@, model::spec_lines(s@)));
                },
                None => {
                    assert(target == model::spec_feed(
                        SpecRequest {
                            header: model::spec_parse_request_line(model::spec_lines(s@)[0])->Ok_0,
                            fields: Seq::empty(),
                            data: Seq::empty(),
                        },
                        model::spec_state_default(),
                        model::spec_lines(s@).drop_first(),
                    ));
                },
            }
        }
        while pos < total
            invariant
                pos <= total,
                model::spec_feed(request@, state@, model::spec_lines(s@.skip(pos as int)))
                    == target,
            decreases total - pos,
        {
            let line_end = match text::find_byte(s, pos, 10) {
                Some(i) => i + 1,
                None => total,
            };
            proof {
                model::lemma_spec_find(s@.skip(pos as int), 10u8);
                let t = s@.skip(pos as int);
                assert forall|k: int| pos <= k < line_end - 1 implies s@[k] != 10u8 by {
                    assert(t[k - pos] == s@[k]);
                }
                if line_end < total {
                    assert(t[line_end - 1 - pos] == s@[line_end - 1]);
                } else if s@[line_end - 1] != 10u8 {
                    assert(t[line_end - 1 - pos] == s@[line_end - 1]);
                }
                model::lemma_lines_step(s@, pos as int, line_end as int);
            }
            let line = vstd::slice::slice_subrange(s, pos, line_end);
            let ghost lines_here = model::spec_lines(s@.skip(pos as int));
            proof {
                assert(lines_here[0] == line@);
                assert(lines_here.drop_first() =~= model::spec_lines(s@.skip(line_end as int)));
            }
            let ghost req0 = request@;
            match Request::parse_single(state, line) {
                None => {},
                Some(Ok(f)) => {
                    let ghost fv = f@;
                    request.fields.push(f);
                    proof {
                        assert(request@.fields =~= req0.fields.push(fv));
                        assert(request@ =~~= (SpecRequest {
                            header: req0.header,
                            fields: req0.fields.push(fv),
                            data: req0.data,
                        }));
                    }
                },
                Some(Err(e)) => {
                    proof {
                        assert(target == Err::<(SpecRequest, SpecRequestState), SpecRequestError>(
                            e@,
                        ));
                        assert(model::spec_decode(carried0, old(state)@, s@) is Err);
                    }
                    return Err(Error::Request(e));
                },
            }
            pos = line_end;
        }
        proof {
            assert(s@.skip(total as int) =~= Seq::<u8>::empty());
            assert(model::spec_lines(s@.skip(total as int)) =~= Seq::<Seq<u8>>::empty());
        }
        let is_partial = state.is_data_part;
        let ghost req_fed = request@;
        let ghost st_fed = state@;
        if !is_partial {
            request.data.append(&mut state.data);
            proof {
                assert(request@.data =~= req_fed.data + st_fed.data);
                assert(state@.data =~= Seq::<SpecDataPart>::empty());
            }
        }
        let r = PartialRequest { is_partial, request };
        proof {
            let dres = model::spec_decode(carried0, old(state)@, s@);
            assert(target == Ok::<(SpecRequest, SpecRequestState), SpecRequestError>(
                (req_fed, st_fed),
            ));
            assert(dres is Ok);
            let d = dres->Ok_0;
            assert(r.request@ =~~= d.request);
            assert(final(state)@ =~~= d.state);
        }
        Ok(r)
    }
}


/// Response status line variants.
#[derive(Debug, Clone, Copy, PartialEq, Eq, Structural)]
pub enum Status {
    Okay,
    NotFound,
}

impl Status {
    /// The status line, without its terminator.
    pub fn as_bytes(&self) -> (r: Vec<u8>)
        ensures
            r@ == model::encoded(model::status_text(*self)),
    {
        match self {
            Status::Okay => {
                let s = "HTTP/1.1 200 OK";
                proof {
                    reveal_strlit("HTTP/1.1 200 OK");
                    assert(s.is_ascii());
                }
                text::ascii_bytes(s)
            },
            Status::NotFound => {
                let s = "HTTP/1.1 404 Not Found";
                proof {
                    reveal_strlit("HTTP/1.1 404 Not Found");
                    assert(s.is_ascii());
                }
                text::ascii_bytes(s)
            },
        }
    }
}

/// The content types the static file responder can serve.
#[derive(Debug, Clone, Copy, PartialEq, Eq, Structural)]
pub enum ContentType {
    Html,
    Javascript,
    Css,
    Png,
    Jpg,
    Webp,
    Gif,
    Txt,
    Icon,
    Json,
    Opus,
    Mpeg,
    Ttf,
    Woff,
    Wasm,
}

impl ContentType {
    /// Look a file extension up in the fixed table.
    pub fn create(extension: &str) -> (r: Option<Self>)
        ensures
            r == model::content_type_of(extension@),
    {
        if text::str_eq(extension, "html") {
            Some(ContentType::Html)
        } else if text::str_eq(extension, "js") {
            Some(ContentType::Javascript)
        } else if text::str_eq(extension, "css") {
            Some(ContentType::Css)
        } else if text::str_eq(extension, "png") {
            Some(ContentType::Png)
        } else if text::str_eq(extension, "jpg") || text::str_eq(extension, "jpeg") {
            Some(ContentType::Jpg)
        } else if text::str_eq(extension, "webp") {
            Some(ContentType::Webp)
        } else if text::str_eq(extension, "gif") {
            Some(ContentType::Gif)
        } else if text::str_eq(extension, "txt") {
            Some(ContentType::Txt)
        } else if text::str_eq(extension, "ico") {
            Some(ContentType::Icon)
        } else if text::str_eq(extension, "json") {
            Some(ContentType::Json)
        } else if text::str_eq(extension, "opus") {
            Some(ContentType::Opus)
        } else if text::str_eq(extension, "mp3") {
            Some(ContentType::Mpeg)
        } else if text::str_eq(extension, "ttf") {
            Some(ContentType::Ttf)
        } else if text::str_eq(extension, "woff") {
            Some(ContentType::Woff)
        } else if text::str_eq(extension, "wasm") {
            Some(ContentType::Wasm)
        } else {
            None
        }
    }

    /// The `Content-Type` header line, without its terminator.
    pub fn as_bytes(&self) -> (r: Vec<u8>)
        ensures
            r@ == model::encoded(model::content_type_text(*self)),
    {
        match self {
            ContentType::Html => {
                let s = "Content-Type: text/html";
                proof {
                    reveal_strlit("Content-Type: text/html");
                    assert(s.is_ascii());
                }
                text::ascii_bytes(s)
            },
            ContentType::Javascript => {
                let s = "Content-Type: application/javascript";
                proof {
                    reveal_strlit("Content-Type: application/javascript");
                    assert(s.is_ascii());
                }
                text::ascii_bytes(s)
            },
            ContentType::Css => {
                let s = "Content-Type: text/css";
                proof {
                    reveal_strlit("Content-Type: text/css");
                    assert(s.is_ascii());
                }
                text::ascii_bytes(s)
            },
            ContentType::Png => {
                let s = "Content-Type: image/png";
                proof {
                    reveal_strlit("Content-Type: image/png");
                    assert(s.is_ascii());
                }
                text::ascii_bytes(s)
            },
            ContentType::Jpg => {
                let s = "Content-Type: image/jpeg";
                proof {
                    reveal_strlit("Content-Type: image/jpeg");
                    assert(s.is_ascii());
                }
                text::ascii_bytes(s)
            },
            ContentType::Webp => {
                let s = "Content-Type: image/webp";
                proof {
                    reveal_strlit("Content-Type: image/webp");
                    assert(s.is_ascii());
                }
                text::ascii_bytes(s)
            },
            ContentType::Gif => {
                let s = "Content-Type: image/gif";
                proof {
                    reveal_strlit("Content-Type: image/gif");
                    assert(s.is_ascii());
                }
                text::ascii_bytes(s)
            },
            ContentType::Txt => {
                let s = "Content-Type: text/plain";
                proof {
                    reveal_strlit("Content-Type: text/plain");
                    assert(s.is_ascii());
                }
                text::ascii_bytes(s)
            },
            ContentType::Icon => {
                let s = "Content-Type: image/x-icon";
                proof {
                    reveal_strlit("Content-Type: image/x-icon");
                    assert(s.is_ascii());
                }
                text::ascii_bytes(s)
            },
            ContentType::Json => {
                let s = "Content-Type: application/json";
                proof {
                    reveal_strlit("Content-Type: application/json");
                    assert(s.is_ascii());
                }
                text::ascii_bytes(s)
            },
            ContentType::Opus => {
                let s = "Content-Type: audio/ogg";
                proof {
                    reveal_strlit("Content-Type: audio/ogg");
                    assert(s.is_ascii());
                }
                text::ascii_bytes(s)
            },
            ContentType::Mpeg => {
                let s = "Content-Type: audio/mpeg";
                proof {
                    reveal_strlit("Content-Type: audio/mpeg");
                    assert(s.is_ascii());
                }
                text::ascii_bytes(s)
            },
            ContentType::Ttf => {
                let s = "Content-Type: font/ttf";
                proof {
                    reveal_strlit("Content-Type: font/ttf");
                    assert(s.is_ascii());
                }
                text::ascii_bytes(s)
            },
            ContentType::Woff => {
                let s = "Content-Type: font/woff";
                proof {
                    reveal_strlit("Content-Type: font/woff");
                    assert(s.is_ascii());
                }
                text::ascii_bytes(s)
            },
            ContentType::Wasm => {
                let s = "Content-Type: application/wasm";
                proof {
                    reveal_strlit("Content-Type: application/wasm");
                    assert(s.is_ascii());
                }
                text::ascii_bytes(s)
            },
        }
    }
}

/// The header block of a response: status line, content type, keep-alive,
/// and, only for a non-zero length, a `Content-Length` line.
pub fn response_header(status: Status, content_type: ContentType, length: usize) -> (r: Vec<u8>)
    ensures
        r@ == model::response_header_bytes(status, content_type, length as nat),
{
    let mut r = status.as_bytes();
    r.push(13);
    r.push(10);
    let mut ct = content_type.as_bytes();
    r.append(&mut ct);
    r.push(13);
    r.push(10);
    let ka = "Connection: keep-alive";
    proof {
        reveal_strlit("Connection: keep-alive");
        assert(ka.is_ascii());
    }
    let mut kab = text::ascii_bytes(ka);
    r.append(&mut kab);
    r.push(13);
    r.push(10);
    if length != 0 {
        let cl = "Content-Length: ";
        proof {
            reveal_strlit("Content-Length: ");
            assert(cl.is_ascii());
        }
        let mut clb = text::ascii_bytes(cl);
        r.append(&mut clb);
        let mut digits = text::dec_bytes(length);
        r.append(&mut digits);
        r.push(13);
        r.push(10);
        proof {
            assert(model::encoded(cl@ + model::spec_dec(length as nat)) =~= model::encoded(cl@)
                + model::encoded(model::spec_dec(length as nat)));
        }
    }
    proof {
        assert(r@ =~= model::response_header_bytes(status, content_type, length as nat));
    }
    r
}

/// A whole response: the header block, a blank line, and the body verbatim.
pub fn response(status: Status, content_type: ContentType, data: &[u8]) -> (r: Vec<u8>)
    ensures
        r@ == model::response_bytes(status, content_type, data@),
{
    let mut header = response_header(status, content_type, data.len());
    header.push(13);
    header.push(10);
    let mut tail = vstd::slice::slice_to_vec(data);
    header.append(&mut tail);
    proof {
        assert(header@ =~= model::response_bytes(status, content_type, data@));
    }
    header
}


/// Encode one multipart body part: `--boundary`, the fields as
/// `name: value; child="value"` lines, a blank line, the payload verbatim,
/// and a trailing CRLF.
#[verifier::loop_isolation(false)]
pub fn encode_part(fields: &Vec<RequestField>, payload: &[u8], boundary: &str) -> (r: Vec<u8>)
    ensures
        r@ == model::encode_part_bytes(
            fields@.map(|i: int, f: RequestField| f@),
            payload@,
            boundary@,
        ),
{
    let ghost fields_spec = fields@.map(|i: int, f: RequestField| f@);
    let mut line = String::from_str("--");
    line.append(boundary);
    line.append("\r\n");
    proof {
        reveal_strlit("--");
        reveal_strlit("\r\n");
        assert(line@ =~= seq!['-', '-'] + boundary@ + seq!['\r', '\n']);
    }
    let ghost base = seq!['-', '-'] + boundary@ + seq!['\r', '\n'];
    proof {
        assert(fields_spec.take(0) =~= Seq::<SpecField>::empty());
        assert(line@ =~= base + model::fields_chars(fields_spec.take(0)));
    }
    let mut i: usize = 0;
    while i < fields.len()
        invariant
            i <= fields@.len(),
            line@ == base + model::fields_chars(fields_spec.take(i as int)),
        decreases fields@.len() - i,
    {
        let f = &fields[i];
        proof {
            assert(f@ == fields_spec[i as int]);
        }
        let ghost line0 = line@;
        line.append(f.this.name.as_str());
        line.append(": ");
        line.append(f.this.body.as_str());
        let ghost chead = line@;
        proof {
            assert(f@.children.take(0) =~= Seq::<SpecFieldSimple>::empty());
            assert(line@ =~= chead + model::children_chars(f@.children.take(0)));
        }
        let mut j: usize = 0;
        while j < f.children.len()
            invariant
                j <= f.children@.len(),
                line@ == chead + model::children_chars(f@.children.take(j as int)),
            decreases f.children@.len() - j,
        {
            let c = &f.children[j];
            proof {
                assert(c@ == f@.children[j as int]);
            }
            line.append("; ");
            line.append(c.name.as_str());
            line.append("=\"");
            line.append(c.body.as_str());
            line.append("\"");
            proof {
                reveal_strlit("; ");
                reveal_strlit("=\"");
                reveal_strlit("\"");
                model::lemma_children_chars_push(f@.children.take(j as int), c@);
                assert(f@.children.take(j + 1) =~= f@.children.take(j as int).push(c@));
                assert(line@ =~= chead + model::children_chars(f@.children.take(j + 1)));
            }
            j += 1;
        }
        line.append("\r\n");
        proof {
            reveal_strlit("\r\n");
            reveal_strlit(": ");
            assert(f@.children.take(f.children@.len() as int) =~= f@.children);
            model::lemma_fields_chars_push(fields_spec.take(i as int), f@);
            assert(fields_spec.take(i + 1) =~= fields_spec.take(i as int).push(f@));
            assert(line@ =~= line0 + model::field_line_chars(f@));
            assert(line@ =~= base + model::fields_chars(fields_spec.take(i + 1)));
        }
        i += 1;
    }
    line.append("\r\n");
    proof {
        reveal_strlit("\r\n");
        assert(fields_spec.take(fields@.len() as int) =~= fields_spec);
        assert(line@ =~= base + model::fields_chars(fields_spec) + seq!['\r', '\n']);
    }
    let mut out = vstd::slice::slice_to_vec(line.as_str().as_bytes());
    let mut pl = vstd::slice::slice_to_vec(payload);
    out.append(&mut pl);
    out.push(13);
    out.push(10);
    proof {
        assert(out@ =~= model::encode_part_bytes(fields_spec, payload@, boundary@));
    }
    out
}

} // verus!
